//! An in-memory B-link tree: an ordered index from string keys to payload
//! records, with right-sibling links at every level.

pub mod keys;
pub mod node;
pub mod tree;
