//! The tree handle: an arena of nodes addressed by index, its invariant,
//! key routing, lookup and insert-or-update with splits.

use vstd::prelude::*;
use vstd::set_lib::{lemma_int_range, lemma_len_subset, set_int_range};
use crate::keys::{key_lt, key_le, less_than, lemma_key_lt_irreflexive, lemma_key_lt_total,
    lemma_key_lt_transitive, lemma_key_le_lt_transitive, lemma_key_lt_le_transitive};
use crate::node::{BaseNode, DataNode, DataRecord, InnerNode, KeyData, KeyNode, Node, NodeType,
    Query, TreeNode, first_above, lemma_first_above, lemma_matching_none,
    lemma_matching_unique, lemma_sorted_insert, matching, strictly_sorted};

verus! {

/// Leaf capacity of a tree made by `new`.
pub const DEFAULT_LEAF_CAPACITY: usize = 4;

/// Inner fan-out of a tree made by `new`.
pub const DEFAULT_FAN_OUT: usize = 4;

/// Why a tree could not be configured.
#[derive(Debug, PartialEq, Eq)]
pub enum TreeError {
    /// The leaf capacity or the fan-out is below two.
    CapacityMisconfiguration,
}

/// A B-link tree from string keys to records.
pub struct BLinkTree {
    nodes: Vec<TreeNode>,
    root: Option<usize>,
    leaf_capacity: usize,
    fan_out: usize,
    /// Height of each node above the leaves.
    levels: Ghost<Seq<nat>>,
}

/// The child slot of an inner node that routing picks for `k`: the last
/// child whose separator is not above `k`.
pub open spec fn child_slot(n: InnerNode, k: Seq<char>) -> int {
    let j = first_above(n.seps(), k);
    if j == 0 {
        0
    } else {
        j - 1
    }
}

// The model: node ranges, the invariant, routing and the map view.
impl BLinkTree {
    pub closed spec fn len(&self) -> int {
        self.nodes@.len() as int
    }

    pub closed spec fn level(&self, i: int) -> nat {
        self.levels@[i]
    }

    /// Least key node `i` is responsible for.
    pub closed spec fn floor(&self, i: int) -> Seq<char> {
        self.nodes@[i].header().index_key@
    }

    /// Least key of the right sibling: where node `i`'s responsibility ends.
    pub closed spec fn hi(&self, i: int) -> Option<Seq<char>> {
        match self.nodes@[i].header().sibling {
            Some(s) => Some(self.floor(s as int)),
            None => None,
        }
    }

    /// Node `i` is responsible for key `k`.
    pub closed spec fn in_range(&self, i: int, k: Seq<char>) -> bool {
        &&& key_le(self.floor(i), k)
        &&& match self.hi(i) {
            Some(h) => key_lt(k, h),
            None => true,
        }
    }

    /// The entries held by node `i`; none for an inner node.
    pub closed spec fn leaf_entries(&self, i: int) -> Seq<(Seq<char>, Seq<char>)> {
        match self.nodes@[i] {
            TreeNode::Data(d) => d.entries(),
            TreeNode::Inner(_) => Seq::empty(),
        }
    }

    /// Arena index of the root, if there is one.
    pub closed spec fn root_index(&self) -> Option<usize> {
        self.root
    }

    /// Node `i` of the arena.
    pub closed spec fn node(&self, i: int) -> TreeNode {
        self.nodes@[i]
    }

    pub closed spec fn node_wf(&self, i: int) -> bool {
        &&& (self.hi(i) matches Some(h) ==> key_lt(self.floor(i), h))
        &&& (self.nodes@[i].header().parent matches Some(q) ==> q < self.len())
        &&& match self.nodes@[i].header().sibling {
            Some(s) => s < self.len() && self.level(s as int) == self.level(i),
            None => true,
        }
        &&& match self.nodes@[i] {
            TreeNode::Data(d) => {
                &&& self.level(i) == 0
                &&& d.node.node_type is Data
                &&& strictly_sorted(d.keys())
                &&& forall|e: int| 0 <= e < d.keys().len() ==> self.in_range(i, #[trigger] d.keys()[e])
            },
            TreeNode::Inner(n) => {
                let m = n.children@.len() as int;
                &&& self.level(i) >= 1
                &&& n.node.node_type is Inner
                &&& m >= 1
                &&& strictly_sorted(n.seps())
                &&& n.seps()[0] == self.floor(i)
                &&& forall|j: int| 0 <= j < m ==> {
                    let c = (#[trigger] n.children@[j]).1 as int;
                    &&& c < self.len()
                    &&& self.level(c) + 1 == self.level(i)
                    &&& self.floor(c) == n.seps()[j]
                    &&& (j + 1 < m ==> self.hi(c) == Some(n.seps()[j + 1]))
                    &&& (j + 1 == m ==> self.hi(c) == self.hi(i))
                }
            },
        }
    }

    /// The invariant of the tree.
    pub closed spec fn wf(&self) -> bool {
        &&& self.levels@.len() == self.nodes@.len()
        &&& 2 <= self.leaf_capacity
        &&& 2 <= self.fan_out
        &&& match self.root {
            None => self.len() == 0,
            Some(r) => {
                &&& r < self.len()
                &&& self.floor(r as int) == Seq::<char>::empty()
                &&& self.nodes@[r as int].header().sibling is None
                &&& forall|i: int| 0 <= i < self.len() ==> #[trigger] self.level(i) <= self.level(r as int)
                &&& self.level(r as int) < self.len()
            },
        }
        &&& forall|i: int| 0 <= i < self.len() ==> #[trigger] self.node_wf(i)
        &&& forall|a: int, b: int, k: Seq<char>|
            0 <= a < self.len() && 0 <= b < self.len() && a != b && self.level(a) == self.level(b)
                && #[trigger] self.in_range(a, k) ==> !#[trigger] self.in_range(b, k)
    }

    /// Most entries a leaf, or children an inner node, may hold.
    pub closed spec fn limit(&self, n: TreeNode) -> nat {
        if n is Inner {
            self.fan_out as nat
        } else {
            self.leaf_capacity as nat
        }
    }

    /// No node holds more than its kind allows.
    pub closed spec fn within_limits(&self) -> bool {
        forall|i: int| 0 <= i < self.len() ==> Self::size(#[trigger] self.nodes@[i]) <= self.limit(self.nodes@[i])
    }

    /// Number of entries of a leaf, or of children of an inner node.
    pub open spec fn size(n: TreeNode) -> nat {
        match n {
            TreeNode::Data(d) => d.children@.len(),
            TreeNode::Inner(i) => i.children@.len(),
        }
    }

    /// The leaf that routing from node `i` reaches for `k`.
    /// How many nodes start above node `i`: this falls along a sibling chain.
    pub closed spec fn right_count(&self, i: int) -> nat {
        Set::new(|j: int| 0 <= j < self.len() && key_lt(self.floor(i), self.floor(j))).len()
    }

    /// The right sibling of node `i` starts at or below `k`: routing steps right.
    pub closed spec fn steps_right(&self, i: int, k: Seq<char>) -> bool {
        match self.nodes@[i].header().sibling {
            Some(s) => 0 <= s < self.len() && self.level(s as int) == self.level(i)
                && self.right_count(s as int) < self.right_count(i) && key_le(self.floor(s as int), k),
            None => false,
        }
    }

    /// The leaf that routing from node `i` reaches for `k`: step right while
    /// the right sibling starts at or below `k`; in an inner node, descend into
    /// the last child whose separator is not above `k`.
    pub closed spec fn route(&self, i: int, k: Seq<char>) -> int
        decreases self.level(i), self.right_count(i),
    {
        if 0 <= i < self.len() {
            let right = self.nodes@[i].header().sibling;
            match self.nodes@[i] {
                TreeNode::Data(_) => if self.steps_right(i, k) {
                    self.route(right->Some_0 as int, k)
                } else {
                    i
                },
                TreeNode::Inner(n) => {
                    if first_above(n.seps(), k) == n.seps().len() && self.steps_right(i, k) {
                        self.route(right->Some_0 as int, k)
                    } else {
                        let c = n.children@[child_slot(n, k)].1 as int;
                        if 0 <= c < self.len() && self.level(c) < self.level(i) {
                            self.route(c, k)
                        } else {
                            i
                        }
                    }
                },
            }
        } else {
            i
        }
    }

    /// What a query for `k` returns.
    pub closed spec fn lookup(&self, k: Seq<char>) -> Seq<(Seq<char>, Seq<char>)> {
        match self.root {
            None => Seq::empty(),
            Some(r) => matching(self.leaf_entries(self.route(r as int, k)), k),
        }
    }

    /// Some leaf holds the entry `(k, v)`.
    pub closed spec fn has_entry(&self, k: Seq<char>, v: Seq<char>) -> bool {
        exists|i: int, e: int| 0 <= i < self.len() && 0 <= e < self.leaf_entries(i).len()
            && #[trigger] self.leaf_entries(i)[e] == (k, v)
    }

    /// The tree as a map from keys to payloads.
    pub closed spec fn view(&self) -> Map<Seq<char>, Seq<char>> {
        Map::new(|k: Seq<char>| exists|v: Seq<char>| self.has_entry(k, v),
            |k: Seq<char>| choose|v: Seq<char>| self.has_entry(k, v))
    }

    pub closed spec fn leaf_capacity(&self) -> usize {
        self.leaf_capacity
    }

    pub closed spec fn fan_out(&self) -> usize {
        self.fan_out
    }

    /// Number of levels: zero for an empty tree, one for a lone leaf.
    pub closed spec fn spec_height(&self) -> nat {
        match self.root {
            None => 0,
            Some(r) => self.level(r as int) + 1,
        }
    }

    /// The number of children of the root, or zero where the root is a leaf
    /// or there is none.
    pub closed spec fn spec_root_children(&self) -> nat {
        match self.root {
            Some(r) => match self.nodes@[r as int] {
                TreeNode::Inner(n) => n.children@.len(),
                TreeNode::Data(_) => 0,
            },
            None => 0,
        }
    }
}

// Construction and observation.
impl BLinkTree {
    /// A tree with leaf capacity `leaf_capacity` and fan-out `fan_out`, both at
    /// least two; it holds no node until the first insert.
    pub fn with_capacity(leaf_capacity: usize, fan_out: usize) -> (r: Result<BLinkTree, TreeError>)
        ensures
            (leaf_capacity >= 2 && fan_out >= 2) <==> r is Ok,
            r is Err ==> r == Err::<BLinkTree, TreeError>(TreeError::CapacityMisconfiguration),
            r matches Ok(t) ==> t.wf() && t@ == Map::<Seq<char>, Seq<char>>::empty()
                && t.leaf_capacity() == leaf_capacity && t.fan_out() == fan_out && t.spec_height() == 0
                && t.len() == 0 && t.within_limits(),
    {
        if leaf_capacity < 2 || fan_out < 2 {
            return Err(TreeError::CapacityMisconfiguration);
        }
        let t = BLinkTree {
            nodes: Vec::new(),
            root: None,
            leaf_capacity,
            fan_out,
            levels: Ghost(Seq::empty()),
        };
        assert(t@ =~= Map::<Seq<char>, Seq<char>>::empty());
        Ok(t)
    }

    /// A tree with the default leaf capacity and fan-out, holding nothing.
    pub fn new() -> (r: BLinkTree)
        ensures
            r.wf(),
            r@ == Map::<Seq<char>, Seq<char>>::empty(),
            r.leaf_capacity() == DEFAULT_LEAF_CAPACITY,
            r.fan_out() == DEFAULT_FAN_OUT,
            r.spec_height() == 0,
            r.len() == 0,
            r.within_limits(),
    {
        let t = BLinkTree {
            nodes: Vec::new(),
            root: None,
            leaf_capacity: DEFAULT_LEAF_CAPACITY,
            fan_out: DEFAULT_FAN_OUT,
            levels: Ghost(Seq::empty()),
        };
        assert(t@ =~= Map::<Seq<char>, Seq<char>>::empty());
        t
    }

    /// Number of levels: zero for an empty tree, one for a lone leaf.
    pub fn height(&self) -> (r: usize)
        requires
            self.wf(),
        ensures
            r as nat == self.spec_height(),
    {
        match self.root {
            None => 0,
            Some(root) => {
                let mut cur = root;
                let mut count: usize = 1;
                // Reading the length bounds the arena, and so the count, by usize::MAX.
                let _ = self.nodes.len();
                while self.is_inner(cur)
                    invariant
                        self.wf(),
                        self.root == Some(root),
                        cur < self.len(),
                        self.len() <= usize::MAX,
                        count + self.level(cur as int) == self.level(root as int) + 1,
                    decreases self.level(cur as int),
                {
                    proof {
                        assert(self.node_wf(cur as int));
                        let n = self.nodes@[cur as int]->Inner_0;
                        assert(self.floor(n.children@[0].1 as int) == n.seps()[0]);
                    }
                    cur = match &self.nodes[cur] {
                        TreeNode::Inner(n) => n.children[0].1,
                        TreeNode::Data(_) => 0,
                    };
                    count = count + 1;
                }
                proof {
                    assert(self.node_wf(cur as int));
                }
                count
            },
        }
    }

    /// Arena index of the root; none for an empty tree.
    pub fn root(&self) -> (r: Option<usize>)
        ensures
            r == self.root_index(),
    {
        self.root
    }

    /// The number of nodes in the arena.
    pub fn node_count(&self) -> (r: usize)
        ensures
            r as int == self.len(),
    {
        self.nodes.len()
    }

    /// The number of children of the root; zero where the root is a leaf or
    /// the tree is empty.
    pub fn root_children(&self) -> (r: usize)
        requires
            self.wf(),
        ensures
            r as nat == self.spec_root_children(),
    {
        match self.root {
            Some(root) => match &self.nodes[root] {
                TreeNode::Inner(n) => n.children.len(),
                TreeNode::Data(_) => 0,
            },
            None => 0,
        }
    }
}

// Routing: descending to the leaf responsible for a key.
impl BLinkTree {
    /// Descends from node `i` to the leaf responsible for the query's key,
    /// stepping right along the sibling chain where the key lies beyond a node.
    pub fn query_datanode(&self, i: usize, query_index_key: &Query) -> (r: usize)
        requires
            self.wf(),
            i < self.len(),
            key_le(self.floor(i as int), query_index_key.query_str@),
        ensures
            self.is_leaf_for(r as int, query_index_key.query_str@),
        decreases self.level(i as int), self.right_count(i as int), 2int,
    {
        let ghost k = query_index_key.query_str@;
        proof {
            assert(self.node_wf(i as int));
            if self.nodes@[i as int].header().sibling is Some {
                self.lemma_sibling_count(i as int);
            }
        }
        match &self.nodes[i] {
            TreeNode::Data(d) => match d.node.sibling {
                Some(s) => {
                    if !less_than(&query_index_key.query_str, &self.nodes[s].get_header().index_key) {
                        self.query_datanode(s, query_index_key)
                    } else {
                        proof {
                            self.lemma_leaf_unique(i as int, k);
                        }
                        i
                    }
                },
                None => {
                    proof {
                        self.lemma_leaf_unique(i as int, k);
                    }
                    i
                },
            },
            TreeNode::Inner(n) => {
                proof {
                    lemma_first_above(n.seps(), k);
                }
                match n.locate_range_key(query_index_key) {
                    Some(j) => {
                        proof {
                            assert(self.floor(n.children@[0].1 as int) == n.seps()[0]);
                        }
                        let c = if j == 0 {
                            n.children[0].1
                        } else {
                            n.children[j - 1].1
                        };
                        proof {
                            let slot = if j == 0 { 0int } else { j - 1 };
                            assert(self.floor(n.children@[slot].1 as int) == n.seps()[slot]);
                        }
                        self.query_datanode(c, query_index_key)
                    },
                    None => self.query_thru_sibling(i, query_index_key),
                }
            },
        }
    }

    /// Every separator of inner node `i` is at or below the key: the key lies
    /// with the right sibling if the sibling starts at or below it, else with
    /// the last child.
    pub fn query_thru_sibling(&self, i: usize, query_index_key: &Query) -> (r: usize)
        requires
            self.wf(),
            i < self.len(),
            key_le(self.floor(i as int), query_index_key.query_str@),
            self.node(i as int) matches TreeNode::Inner(n)
                && first_above(n.seps(), query_index_key.query_str@) == n.seps().len(),
        ensures
            self.is_leaf_for(r as int, query_index_key.query_str@),
        decreases self.level(i as int), self.right_count(i as int), 1int,
    {
        proof {
            assert(self.node_wf(i as int));
            if self.nodes@[i as int].header().sibling is Some {
                self.lemma_sibling_count(i as int);
            }
        }
        match self.nodes[i].get_header().sibling {
            Some(s) => {
                if !less_than(&query_index_key.query_str, &self.nodes[s].get_header().index_key) {
                    self.query_datanode(s, query_index_key)
                } else {
                    self.query_thru_last(i, query_index_key)
                }
            },
            None => self.query_thru_last(i, query_index_key),
        }
    }

    /// Descends into the last child of inner node `i`, whose separators are
    /// all at or below the key.
    pub fn query_thru_last(&self, i: usize, query_index_key: &Query) -> (r: usize)
        requires
            self.wf(),
            i < self.len(),
            key_le(self.floor(i as int), query_index_key.query_str@),
            self.node(i as int) matches TreeNode::Inner(n)
                && first_above(n.seps(), query_index_key.query_str@) == n.seps().len(),
        ensures
            self.is_leaf_for(r as int, query_index_key.query_str@),
        decreases self.level(i as int), self.right_count(i as int), 0int,
    {
        let ghost k = query_index_key.query_str@;
        proof {
            assert(self.node_wf(i as int));
        }
        match &self.nodes[i] {
            TreeNode::Inner(n) => {
                proof {
                    lemma_first_above(n.seps(), k);
                    let m = n.children@.len() - 1;
                    assert(self.floor(n.children@[m].1 as int) == n.seps()[m]);
                }
                let c = n.children[n.children.len() - 1].1;
                self.query_datanode(c, query_index_key)
            },
            TreeNode::Data(_) => i,
        }
    }

    /// Leaf `r` is the one leaf responsible for `k`.
    pub open spec fn is_leaf_for(&self, r: int, k: Seq<char>) -> bool {
        &&& 0 <= r < self.len()
        &&& self.node(r) is Data
        &&& self.in_range(r, k)
        &&& forall|j: int| 0 <= j < self.len() && self.node(j) is Data && #[trigger] self.in_range(j, k) ==> j == r
    }

    /// A leaf responsible for `k` is the only one.
    proof fn lemma_leaf_unique(&self, r: int, k: Seq<char>)
        requires
            self.wf(),
            0 <= r < self.len(),
            self.nodes@[r] is Data,
            self.in_range(r, k),
        ensures
            self.is_leaf_for(r, k),
    {
        assert(self.node_wf(r));
        assert forall|j: int| 0 <= j < self.len() && self.node(j) is Data && #[trigger] self.in_range(j, k)
            implies j == r by {
            assert(self.node_wf(j));
        }
    }

    /// The right sibling of a node lies at its level and starts above it, so
    /// fewer nodes start above the sibling.
    proof fn lemma_sibling_count(&self, i: int)
        requires
            self.wf(),
            0 <= i < self.len(),
            self.nodes@[i].header().sibling is Some,
        ensures
            ({
                let s = self.nodes@[i].header().sibling->Some_0 as int;
                &&& 0 <= s < self.len()
                &&& self.level(s) == self.level(i)
                &&& key_lt(self.floor(i), self.floor(s))
                &&& self.right_count(s) < self.right_count(i)
            }),
    {
        assert(self.node_wf(i));
        let s = self.nodes@[i].header().sibling->Some_0 as int;
        let fi = self.floor(i);
        let fs = self.floor(s);
        let above_i = Set::new(|j: int| 0 <= j < self.len() && key_lt(fi, self.floor(j)));
        let above_s = Set::new(|j: int| 0 <= j < self.len() && key_lt(fs, self.floor(j)));
        lemma_int_range(0, self.len());
        assert(above_i.subset_of(set_int_range(0, self.len())));
        lemma_len_subset(above_i, set_int_range(0, self.len()));
        assert(above_i.contains(s));
        assert(above_s.subset_of(above_i.remove(s))) by {
            assert forall|j: int| above_s.contains(j) implies above_i.remove(s).contains(j) by {
                lemma_key_lt_transitive(fi, fs, self.floor(j));
                lemma_key_lt_irreflexive(fs);
            }
        }
        lemma_len_subset(above_s, above_i.remove(s));
    }

    /// The root is responsible for every key.
    pub proof fn lemma_root_in_range(&self, k: Seq<char>)
        requires
            self.wf(),
            self.root_index() is Some,
        ensures
            self.in_range(self.root_index()->Some_0 as int, k),
    {
    }

    /// Routing from a node that starts at or below `k` reaches the leaf
    /// responsible for `k`.
    proof fn lemma_route(&self, i: int, k: Seq<char>)
        requires
            self.wf(),
            0 <= i < self.len(),
            key_le(self.floor(i), k),
        ensures
            self.is_leaf_for(self.route(i, k), k),
        decreases self.level(i), self.right_count(i),
    {
        assert(self.node_wf(i));
        let right = self.nodes@[i].header().sibling;
        if right is Some {
            self.lemma_sibling_count(i);
        }
        match self.nodes@[i] {
            TreeNode::Data(_) => {
                if self.steps_right(i, k) {
                    self.lemma_route(right->Some_0 as int, k);
                } else {
                    self.lemma_leaf_unique(i, k);
                }
            },
            TreeNode::Inner(n) => {
                lemma_first_above(n.seps(), k);
                if first_above(n.seps(), k) == n.seps().len() && self.steps_right(i, k) {
                    self.lemma_route(right->Some_0 as int, k);
                } else {
                    let slot = child_slot(n, k);
                    assert(self.floor(n.children@[0].1 as int) == n.seps()[0]);
                    assert(self.floor(n.children@[slot].1 as int) == n.seps()[slot]);
                    self.lemma_route(n.children@[slot].1 as int, k);
                }
            },
        }
    }

    /// The child that routing picks is responsible for `k` too.
    proof fn lemma_child_in_range(&self, i: int, k: Seq<char>)
        requires
            self.wf(),
            0 <= i < self.len(),
            self.nodes@[i] is Inner,
            self.in_range(i, k),
        ensures
            ({
                let n = self.nodes@[i]->Inner_0;
                let c = n.children@[child_slot(n, k)].1 as int;
                &&& 0 <= child_slot(n, k) < n.children@.len()
                &&& 0 <= c < self.len()
                &&& self.level(c) < self.level(i)
                &&& self.in_range(c, k)
            }),
    {
        assert(self.node_wf(i));
        let n = self.nodes@[i]->Inner_0;
        let s = n.seps();
        let m = n.children@.len() as int;
        lemma_first_above(s, k);
        let f = first_above(s, k);
        let j = child_slot(n, k);
        let c = n.children@[j].1 as int;
        assert(self.floor(n.children@[j].1 as int) == n.seps()[j]);
        if f == 0 {
            assert(key_lt(k, s[0]));
            assert(key_le(self.floor(i), k));
            assert(false);
        }
        assert(!key_lt(k, s[j]));
        if j + 1 < m {
            assert(key_lt(k, s[j + 1]));
        }
    }

    /// A key that a child is responsible for, its parent is responsible for.
    proof fn lemma_child_range(&self, i: int, j: int, k: Seq<char>)
        requires
            self.wf(),
            0 <= i < self.len(),
            self.nodes@[i] is Inner,
            0 <= j < self.nodes@[i]->Inner_0.children@.len(),
            self.in_range(self.nodes@[i]->Inner_0.children@[j].1 as int, k),
        ensures
            self.in_range(i, k),
    {
        assert(self.node_wf(i));
        let n = self.nodes@[i]->Inner_0;
        let s = n.seps();
        let m = n.children@.len() as int;
        let c = n.children@[j].1 as int;
        assert(self.floor(n.children@[j].1 as int) == n.seps()[j]);
        if j > 0 {
            assert(key_lt(s[0], s[j]));
            lemma_key_lt_le_transitive(s[0], s[j], k);
            lemma_key_lt_total(s[0], k);
        }
        if j + 1 < m {
            let lc = n.children@[m - 1].1 as int;
            assert(self.floor(n.children@[m - 1].1 as int) == n.seps()[m - 1]);
            assert(self.node_wf(lc));
            if let Some(h) = self.hi(i) {
                assert(key_lt(s[m - 1], h));
                if j + 1 < m - 1 {
                    assert(key_lt(s[j + 1], s[m - 1]));
                    lemma_key_lt_transitive(s[j + 1], s[m - 1], h);
                }
                lemma_key_lt_transitive(k, s[j + 1], h);
            }
        }
    }

    /// Some node of level `l` at or below node `i` is responsible for `k`.
    proof fn lemma_cover(&self, i: int, k: Seq<char>, l: nat)
        requires
            self.wf(),
            0 <= i < self.len(),
            self.in_range(i, k),
            l <= self.level(i),
        ensures
            exists|j: int| 0 <= j < self.len() && self.level(j) == l && #[trigger] self.in_range(j, k),
        decreases self.level(i),
    {
        if l == self.level(i) {
            assert(self.in_range(i, k));
        } else {
            assert(self.node_wf(i));
            self.lemma_child_in_range(i, k);
            let n = self.nodes@[i]->Inner_0;
            let c = n.children@[child_slot(n, k)].1 as int;
            assert(self.floor(n.children@[child_slot(n, k)].1 as int) == n.seps()[child_slot(n, k)]);
            self.lemma_cover(c, k, l);
        }
    }
}

// What a query returns.
impl BLinkTree {
    /// An entry held anywhere is exactly what a query for its key returns.
    proof fn lemma_lookup_entry(&self, k: Seq<char>, v: Seq<char>)
        requires
            self.wf(),
            self.has_entry(k, v),
        ensures
            self.lookup(k) == seq![(k, v)],
    {
        let (i, e) = choose|i: int, e: int| 0 <= i < self.len() && 0 <= e < self.leaf_entries(i).len()
            && #[trigger] self.leaf_entries(i)[e] == (k, v);
        assert(self.node_wf(i));
        let d = self.nodes@[i]->Data_0;
        assert(d.keys()[e] == k);
        assert(self.in_range(i, k));
        let r = self.root->Some_0 as int;
        self.lemma_root_in_range(k);
        self.lemma_route(r, k);
        let l = self.route(r, k);
        assert(self.node_wf(l));
        assert(l == i);
        lemma_matching_unique(d.entries(), k, e);
    }

    /// A key held nowhere gives an empty query result.
    proof fn lemma_lookup_absent(&self, k: Seq<char>)
        requires
            self.wf(),
            forall|v: Seq<char>| !self.has_entry(k, v),
        ensures
            self.lookup(k) == Seq::<(Seq<char>, Seq<char>)>::empty(),
    {
        if let Some(r) = self.root {
            self.lemma_root_in_range(k);
            self.lemma_route(r as int, k);
            let l = self.route(r as int, k);
            let es = self.leaf_entries(l);
            assert forall|x: int| 0 <= x < es.len() implies #[trigger] es[x].0 != k by {
                if es[x].0 == k {
                    assert(self.has_entry(k, es[x].1));
                }
            }
            lemma_matching_none(es, k);
        }
    }

    /// A query returns the entry the map view holds for the key, or nothing.
    pub proof fn lemma_lookup_view(&self, k: Seq<char>)
        requires
            self.wf(),
        ensures
            self.lookup(k) == (if self@.contains_key(k) {
                seq![(k, self@[k])]
            } else {
                Seq::<(Seq<char>, Seq<char>)>::empty()
            }),
    {
        if exists|v: Seq<char>| self.has_entry(k, v) {
            let v = choose|v: Seq<char>| self.has_entry(k, v);
            self.lemma_lookup_entry(k, v);
            assert(self@.contains_key(k));
            assert(self@[k] == v);
        } else {
            self.lemma_lookup_absent(k);
        }
    }

    /// The entry a tree holds under a key is its view's value for that key.
    proof fn lemma_view_entry(&self, k: Seq<char>, v: Seq<char>)
        requires
            self.wf(),
            self.has_entry(k, v),
        ensures
            self@.contains_key(k),
            self@[k] == v,
    {
        let w = choose|w: Seq<char>| self.has_entry(k, w);
        self.lemma_lookup_entry(k, v);
        self.lemma_lookup_entry(k, w);
        assert(seq![(k, v)][0] == seq![(k, w)][0]);
    }
}

// Insert or update.
impl BLinkTree {
    /// Stores `payload` under `key`: replaces the record held under the key,
    /// or inserts a new entry, then splits every node that grew past its
    /// limit, from the leaf up to the root.
    pub fn upsert(&mut self, key: &String, payload: &String)
        requires
            old(self).wf(),
            old(self).within_limits(),
            old(self).len() + old(self).spec_height() + 3 <= usize::MAX,
        ensures
            final(self).wf(),
            final(self).within_limits(),
            final(self)@ == old(self)@.insert(key@, payload@),
            final(self).leaf_capacity() == old(self).leaf_capacity(),
            final(self).fan_out() == old(self).fan_out(),
            final(self).len() <= old(self).len() + old(self).spec_height() + 3,
            final(self).spec_height() == old(self).spec_height() || final(self).spec_height() == old(self).spec_height() + 1,
            final(self).spec_height() >= 1,
            old(self).spec_height() >= 1 && final(self).spec_height() == old(self).spec_height() + 1
                ==> final(self).spec_root_children() == 2,
    {
        let query = Query::new(key, payload);
        let ghost k = key@;
        let ghost v = payload@;
        let ghost t = *self;
        if self.root.is_none() {
            let mut entries: Vec<KeyData> = Vec::new();
            entries.push((key.clone(), DataRecord::new(payload)));
            let leaf = DataNode {
                node: Node { node_type: NodeType::Data, index_key: String::new(), parent: None, sibling: None },
                children: entries,
            };
            self.nodes.push(TreeNode::Data(leaf));
            self.levels = Ghost(self.levels@.push(0));
            self.root = Some(0);
            proof {
                let d = self.nodes@[0]->Data_0;
                assert(d.keys()[0] == k);
                assert(Self::size(self.nodes@[0]) <= self.limit(self.nodes@[0]));
                assert(self.node_wf(0));
                assert(self.leaf_entries(0)[0] == (k, v));
                assert forall|k2: Seq<char>, v2: Seq<char>| #[trigger] self.has_entry(k2, v2) implies k2 == k && v2 == v by {
                    let (i, e) = choose|i: int, e: int| 0 <= i < self.len() && 0 <= e < self.leaf_entries(i).len()
                        && #[trigger] self.leaf_entries(i)[e] == (k2, v2);
                    assert(i == 0 && e == 0);
                }
                self.lemma_view_entry(k, v);
                assert(self@ =~= t.view().insert(k, v)) by {
                    assert forall|k2: Seq<char>| !t.view().contains_key(k2) by {
                        if t.view().contains_key(k2) {
                            let w = choose|w: Seq<char>| t.has_entry(k2, w);
                            assert(t.has_entry(k2, w));
                        }
                    }
                }
            }
            return;
        }
        let ghost t0 = *self;
        let root = match self.root {
            Some(r) => r,
            None => 0,
        };
        proof {
            t0.lemma_root_in_range(k);
        }
        let (path, slots, cur) = self.descend(&query);
        proof {
            assert(t0.node_wf(cur as int));
        }
        match &mut self.nodes[cur] {
            TreeNode::Data(d) => d.upsert(&query),
            TreeNode::Inner(_) => {},
        }
        let ghost t1 = *self;
        proof {
            Self::lemma_leaf_upsert(t0, t1, cur as int, k, v);
            assert forall|i: int| 0 <= i < t1.len() && i != cur implies
                Self::size(#[trigger] t1.nodes@[i]) <= t1.limit(t1.nodes@[i]) by {
                assert(t1.nodes@[i] == t0.nodes@[i]);
            }
            assert(Self::size(t0.nodes@[cur as int]) <= t0.limit(t0.nodes@[cur as int]));
            assert(t1.path_ok(path@, slots@, path@.len() as int, cur)) by {
                assert forall|e: int| 0 <= e < path@.len() implies #[trigger] t1.nodes@[path@[e] as int]
                    == t0.nodes@[path@[e] as int] by {
                    assert(t0.level(path@[e] as int) > t0.level(cur as int));
                }
            }
        }
        self.split_upward(&path, &slots, cur);
        proof {
            assert(self@ =~= t.view().insert(k, v)) by {
                assert forall|k2: Seq<char>| #[trigger] self@.contains_key(k2) == t.view().insert(k, v).contains_key(k2)
                    && (self@.contains_key(k2) ==> self@[k2] == t.view().insert(k, v)[k2]) by {
                    if self@.contains_key(k2) {
                        let w = choose|w: Seq<char>| self.has_entry(k2, w);
                        self.lemma_view_entry(k2, w);
                        if k2 != k {
                            assert(t.has_entry(k2, w));
                            t.lemma_view_entry(k2, w);
                        }
                    }
                    if k2 == k {
                        assert(self.has_entry(k, v));
                    } else if t.view().contains_key(k2) {
                        let w = choose|w: Seq<char>| t.has_entry(k2, w);
                        assert(self.has_entry(k2, w));
                    }
                }
            }
        }
    }

    /// Walks from the root to the leaf responsible for the query's key and
    /// records the inner nodes passed and the child slots taken.
    fn descend(&self, query: &Query) -> (r: (Vec<usize>, Vec<usize>, usize))
        requires
            self.wf(),
            self.root is Some,
        ensures
            self.path_ok(r.0@, r.1@, r.0@.len() as int, r.2),
            self.nodes@[r.2 as int] is Data,
            self.in_range(r.2 as int, query.query_str@),
            r.0@.len() + 1 == self.spec_height(),
    {
        let ghost k = query.query_str@;
        let root = match self.root {
            Some(r) => r,
            None => 0,
        };
        proof {
            self.lemma_root_in_range(k);
        }
        let mut path: Vec<usize> = Vec::new();
        let mut slots: Vec<usize> = Vec::new();
        let mut cur = root;
        while self.is_inner(cur)
            invariant
                self.wf(),
                self.root == Some(root),
                k == query.query_str@,
                self.in_range(cur as int, k),
                self.path_ok(path@, slots@, path@.len() as int, cur),
            decreases self.level(cur as int),
        {
            let slot = self.route_slot(cur, query);
            proof {
                self.lemma_child_in_range(cur as int, k);
            }
            let next = match &self.nodes[cur] {
                TreeNode::Inner(n) => n.children[slot].1,
                TreeNode::Data(_) => 0,
            };
            proof {
                assert(self.node_wf(cur as int));
                let n = self.nodes@[cur as int]->Inner_0;
                assert(self.floor(n.children@[slot as int].1 as int) == n.seps()[slot as int]);
                self.lemma_path_push(path@, slots@, cur, slot, next);
            }
            path.push(cur);
            slots.push(slot);
            cur = next;
        }
        proof {
            assert(self.node_wf(cur as int));
        }
        (path, slots, cur)
    }

    /// The child slot of inner node `i` that routing picks for the query's key.
    fn route_slot(&self, i: usize, query_index_key: &Query) -> (r: usize)
        requires
            self.wf(),
            i < self.len(),
            self.nodes@[i as int] is Inner,
            self.in_range(i as int, query_index_key.query_str@),
        ensures
            r == child_slot(self.nodes@[i as int]->Inner_0, query_index_key.query_str@),
    {
        proof {
            self.lemma_child_in_range(i as int, query_index_key.query_str@);
        }
        match &self.nodes[i] {
            TreeNode::Inner(n) => match n.locate_range_key(query_index_key) {
                Some(j) => if j == 0 {
                    0
                } else {
                    j - 1
                },
                None => n.children.len() - 1,
            },
            TreeNode::Data(_) => 0,
        }
    }

    fn is_inner(&self, i: usize) -> (r: bool)
        requires
            i < self.len(),
        ensures
            r == self.nodes@[i as int] is Inner,
    {
        match &self.nodes[i] {
            TreeNode::Inner(_) => true,
            TreeNode::Data(_) => false,
        }
    }

    /// The inner nodes `path` lead from the root down to `node` through the
    /// child slots `slots`.
    pub closed spec fn path_ok(&self, path: Seq<usize>, slots: Seq<usize>, depth: int, node: usize) -> bool {
        &&& self.root is Some
        &&& 0 <= depth <= path.len()
        &&& path.len() == slots.len()
        &&& (node as int) < self.len()
        &&& (depth == 0 ==> self.root == Some(node))
        &&& (depth > 0 ==> self.root == Some(path[0]))
        &&& self.level(node as int) + depth == self.level(self.root->Some_0 as int)
        &&& forall|e: int| 0 <= e < depth ==> {
            let pe = (#[trigger] path[e]) as int;
            &&& 0 <= pe < self.len()
            &&& self.nodes@[pe] is Inner
            &&& (slots[e] as int) < self.nodes@[pe]->Inner_0.children@.len()
            &&& self.nodes@[pe]->Inner_0.children@[slots[e] as int].1 == (if e + 1 < depth {
                path[e + 1]
            } else {
                node
            })
            &&& self.level(pe) + e == self.level(self.root->Some_0 as int)
        }
    }

    proof fn lemma_path_push(&self, path: Seq<usize>, slots: Seq<usize>, cur: usize, slot: usize, next: usize)
        requires
            self.wf(),
            self.path_ok(path, slots, path.len() as int, cur),
            self.nodes@[cur as int] is Inner,
            (slot as int) < self.nodes@[cur as int]->Inner_0.children@.len(),
            self.nodes@[cur as int]->Inner_0.children@[slot as int].1 == next,
            (next as int) < self.len(),
            self.level(next as int) + 1 == self.level(cur as int),
        ensures
            self.path_ok(path.push(cur), slots.push(slot), path.len() + 1int, next),
    {
        let np = path.push(cur);
        let ns = slots.push(slot);
        let d = path.len() + 1int;
        assert forall|e: int| 0 <= e < d implies {
            let pe = (#[trigger] np[e]) as int;
            &&& 0 <= pe < self.len()
            &&& self.nodes@[pe] is Inner
            &&& (ns[e] as int) < self.nodes@[pe]->Inner_0.children@.len()
            &&& self.nodes@[pe]->Inner_0.children@[ns[e] as int].1 == (if e + 1 < d {
                np[e + 1]
            } else {
                next
            })
            &&& self.level(pe) + e == self.level(self.root->Some_0 as int)
        } by {
            if e < path.len() {
                assert(np[e] == path[e]);
                assert(ns[e] == slots[e]);
                if e + 1 < path.len() {
                    assert(np[e + 1] == path[e + 1]);
                }
            }
        }
    }

    /// Storing into the leaf responsible for `k` keeps the tree well formed,
    /// puts `(k, v)` in, takes out every other entry under `k`, and leaves
    /// the entries under other keys as they were.
    proof fn lemma_leaf_upsert(t0: BLinkTree, t1: BLinkTree, cur: int, k: Seq<char>, v: Seq<char>)
        requires
            t0.wf(),
            0 <= cur < t0.len(),
            t0.in_range(cur, k),
            t0.nodes@[cur] is Data,
            t1.nodes@[cur] is Data,
            t1.levels == t0.levels,
            t1.root == t0.root,
            t1.leaf_capacity == t0.leaf_capacity,
            t1.fan_out == t0.fan_out,
            t1.nodes@ == t0.nodes@.update(cur, t1.nodes@[cur]),
            ({
                let a = t0.nodes@[cur]->Data_0;
                let b = t1.nodes@[cur]->Data_0;
                &&& b.node == a.node
                &&& strictly_sorted(b.keys())
                &&& b.entries().contains((k, v))
                &&& forall|e: (Seq<char>, Seq<char>)| #[trigger] b.entries().contains(e) ==>
                    e == (k, v) || (a.entries().contains(e) && e.0 != k)
                &&& forall|e: (Seq<char>, Seq<char>)| #[trigger] a.entries().contains(e) && e.0 != k
                    ==> b.entries().contains(e)
            }),
        ensures
            t1.wf(),
            t1.len() == t0.len(),
            t1.has_entry(k, v),
            forall|v2: Seq<char>| #[trigger] t1.has_entry(k, v2) ==> v2 == v,
            forall|k2: Seq<char>, v2: Seq<char>| k2 != k ==> t1.has_entry(k2, v2) == t0.has_entry(k2, v2),
    {
        let a = t0.nodes@[cur]->Data_0;
        let b = t1.nodes@[cur]->Data_0;
        assert forall|i: int| 0 <= i < t1.len() implies #[trigger] t1.nodes@[i].header() == t0.nodes@[i].header() by {}
        assert forall|i: int| 0 <= i < t1.len() implies #[trigger] t1.floor(i) == t0.floor(i) by {
            assert(t1.nodes@[i].header() == t0.nodes@[i].header());
        }
        assert forall|i: int| 0 <= i < t1.len() implies #[trigger] t1.hi(i) == t0.hi(i) by {
            assert(t0.node_wf(i));
            assert(t1.nodes@[i].header() == t0.nodes@[i].header());
            if let Some(s) = t0.nodes@[i].header().sibling {
                assert(t1.floor(s as int) == t0.floor(s as int));
            }
        }
        assert forall|i: int, k2: Seq<char>| 0 <= i < t1.len() implies #[trigger] t1.in_range(i, k2) == t0.in_range(i, k2) by {
            assert(t1.floor(i) == t0.floor(i) && t1.hi(i) == t0.hi(i));
        }
        assert forall|i: int| 0 <= i < t1.len() implies #[trigger] t1.node_wf(i) by {
            assert(t0.node_wf(i));
            assert(t1.floor(i) == t0.floor(i) && t1.hi(i) == t0.hi(i));
            if let Some(s) = t0.nodes@[i].header().sibling {
                assert(t1.floor(s as int) == t0.floor(s as int));
            }
            if i == cur {
                assert forall|e: int| 0 <= e < b.keys().len() implies t1.in_range(i, #[trigger] b.keys()[e]) by {
                    assert(b.entries().contains(b.entries()[e]));
                    if b.keys()[e] != k {
                        let x = choose|x: int| 0 <= x < a.entries().len() && a.entries()[x] == b.entries()[e];
                        assert(t0.in_range(i, a.keys()[x]));
                    }
                }
            } else {
                match t0.nodes@[i] {
                    TreeNode::Data(d) => {
                        assert forall|e: int| 0 <= e < d.keys().len() implies t1.in_range(i, #[trigger] d.keys()[e]) by {
                            assert(t0.in_range(i, d.keys()[e]));
                        }
                    },
                    TreeNode::Inner(n) => {
                        let m = n.children@.len() as int;
                        assert forall|j: int| 0 <= j < m implies {
                            let c = (#[trigger] n.children@[j]).1 as int;
                            &&& c < t1.len()
                            &&& t1.level(c) + 1 == t1.level(i)
                            &&& t1.floor(c) == n.seps()[j]
                            &&& (j + 1 < m ==> t1.hi(c) == Some(n.seps()[j + 1]))
                            &&& (j + 1 == m ==> t1.hi(c) == t1.hi(i))
                        } by {
                            let c = n.children@[j].1 as int;
                            assert(0 <= c < t0.len());
                            assert(t1.floor(c) == t0.floor(c) && t1.hi(c) == t0.hi(c));
                        }
                    },
                }
            }
        }
        let r = t0.root->Some_0 as int;
        assert(t1.floor(r) == t0.floor(r));
        assert forall|i: int| 0 <= i < t1.len() implies #[trigger] t1.level(i) <= t1.level(r) by {
            assert(t0.level(i) <= t0.level(r));
        }
        assert forall|x: int, y: int, k2: Seq<char>|
            0 <= x < t1.len() && 0 <= y < t1.len() && x != y && t1.level(x) == t1.level(y)
                && #[trigger] t1.in_range(x, k2) implies !#[trigger] t1.in_range(y, k2) by {
            assert(t1.in_range(x, k2) == t0.in_range(x, k2));
            assert(t1.in_range(y, k2) == t0.in_range(y, k2));
        }
        let ix = choose|x: int| 0 <= x < b.entries().len() && b.entries()[x] == (k, v);
        assert(t1.leaf_entries(cur)[ix] == (k, v));
        assert forall|v2: Seq<char>| #[trigger] t1.has_entry(k, v2) implies v2 == v by {
            let (i, e) = choose|i: int, e: int| 0 <= i < t1.len() && 0 <= e < t1.leaf_entries(i).len()
                && #[trigger] t1.leaf_entries(i)[e] == (k, v2);
            assert(t1.node_wf(i));
            if i == cur {
                assert(b.entries().contains((k, v2)));
            } else {
                let d = t1.nodes@[i]->Data_0;
                assert(d.keys()[e] == k);
                assert(t1.in_range(i, k));
                assert(t1.node_wf(cur));
                assert(t1.level(i) == t1.level(cur));
            }
        }
        assert forall|k2: Seq<char>, v2: Seq<char>| k2 != k implies t1.has_entry(k2, v2) == t0.has_entry(k2, v2) by {
            if t1.has_entry(k2, v2) {
                let (i, e) = choose|i: int, e: int| 0 <= i < t1.len() && 0 <= e < t1.leaf_entries(i).len()
                    && #[trigger] t1.leaf_entries(i)[e] == (k2, v2);
                if i == cur {
                    assert(b.entries().contains((k2, v2)));
                    let x = choose|x: int| 0 <= x < a.entries().len() && a.entries()[x] == (k2, v2);
                    assert(t0.leaf_entries(cur)[x] == (k2, v2));
                } else {
                    assert(t0.leaf_entries(i)[e] == (k2, v2));
                }
            }
            if t0.has_entry(k2, v2) {
                let (i, e) = choose|i: int, e: int| 0 <= i < t0.len() && 0 <= e < t0.leaf_entries(i).len()
                    && #[trigger] t0.leaf_entries(i)[e] == (k2, v2);
                if i == cur {
                    assert(a.entries().contains((k2, v2)));
                    let x = choose|x: int| 0 <= x < b.entries().len() && b.entries()[x] == (k2, v2);
                    assert(t1.leaf_entries(cur)[x] == (k2, v2));
                } else {
                    assert(t1.leaf_entries(i)[e] == (k2, v2));
                }
            }
        }
    }
}

// Splitting nodes that overflow.
impl BLinkTree {
    /// Splits, from `node` upwards along `path`, each node that holds more
    /// than its limit; splits the root last if it overflows.
    fn split_upward(&mut self, path: &Vec<usize>, slots: &Vec<usize>, node: usize)
        requires
            old(self).wf(),
            old(self).path_ok(path@, slots@, path@.len() as int, node),
            old(self).len() + path@.len() + 2 <= usize::MAX,
            forall|i: int| 0 <= i < old(self).len() && i != node ==>
                Self::size(#[trigger] old(self).nodes@[i]) <= old(self).limit(old(self).nodes@[i]),
            Self::size(old(self).nodes@[node as int]) <= old(self).limit(old(self).nodes@[node as int]) + 1,
        ensures
            final(self).wf(),
            final(self).within_limits(),
            final(self).leaf_capacity == old(self).leaf_capacity,
            final(self).fan_out == old(self).fan_out,
            final(self).len() <= old(self).len() + path@.len() + 2,
            final(self).spec_height() == old(self).spec_height() || final(self).spec_height() == old(self).spec_height() + 1,
            final(self).spec_height() == old(self).spec_height() + 1 ==> final(self).spec_root_children() == 2,
            forall|k: Seq<char>, v: Seq<char>| final(self).has_entry(k, v) == old(self).has_entry(k, v),
    {
        let ghost t1 = *self;
        let mut node = node;
        let mut depth = path.len();
        let mut done = false;
        while !done && self.over_full(node)
            invariant
                self.wf(),
                self.leaf_capacity == t1.leaf_capacity,
                self.fan_out == t1.fan_out,
                forall|k2: Seq<char>, v2: Seq<char>| self.has_entry(k2, v2) == t1.has_entry(k2, v2),
                !done ==> self.path_ok(path@, slots@, depth as int, node),
                !done ==> self.len() + depth == t1.len() + path@.len(),
                done ==> self.len() <= t1.len() + path@.len() + 2,
                depth <= path@.len(),
                t1.len() + path@.len() + 2 <= usize::MAX,
                !done ==> self.spec_height() == t1.spec_height(),
                !done ==> forall|i: int| 0 <= i < self.len() && i != node ==>
                    Self::size(#[trigger] self.nodes@[i]) <= self.limit(self.nodes@[i]),
                !done ==> Self::size(self.nodes@[node as int]) <= self.limit(self.nodes@[node as int]) + 1,
                done ==> self.within_limits(),
                done ==> self.spec_height() == t1.spec_height() + 1,
                done ==> self.spec_root_children() == 2,
                t1.root is Some,
            decreases depth + (if done { 0int } else { 1int }),
        {
            if depth == 0 {
                let ghost before = *self;
                self.split_root();
                proof {
                    assert forall|i: int| 0 <= i < self.len() implies
                        Self::size(#[trigger] self.nodes@[i]) <= self.limit(self.nodes@[i]) by {
                        if i < before.len() && i != node {
                            assert(self.nodes@[i] == before.nodes@[i]);
                        }
                    }
                }
                done = true;
            } else {
                let ghost before = *self;
                depth = depth - 1;
                let parent = path[depth];
                let slot = slots[depth];
                proof {
                    assert(self.nodes@[path@[depth as int] as int] is Inner);
                }
                self.split_child(parent, slot);
                proof {
                    let r = before.root->Some_0 as int;
                    assert(self.level(r) == before.level(r));
                    assert(self.path_ok(path@, slots@, depth as int, parent)) by {
                        assert forall|e: int| 0 <= e < depth implies #[trigger] self.nodes@[path@[e] as int]
                            == before.nodes@[path@[e] as int] by {
                            assert(before.level(path@[e] as int) > before.level(parent as int));
                        }
                    }
                }
                proof {
                    assert forall|i: int| 0 <= i < self.len() && i != parent implies
                        Self::size(#[trigger] self.nodes@[i]) <= self.limit(self.nodes@[i]) by {
                        if i < before.len() && i != node {
                            assert(self.nodes@[i] == before.nodes@[i]);
                        }
                    }
                }
                node = parent;
            }
        }
        proof {
            if !done {
                assert forall|i: int| 0 <= i < self.len() implies
                    Self::size(#[trigger] self.nodes@[i]) <= self.limit(self.nodes@[i]) by {}
            }
        }
    }

    /// Node `i` holds more than its kind allows.
    fn over_full(&self, i: usize) -> (r: bool)
        requires
            i < self.len(),
        ensures
            r == (Self::size(self.nodes@[i as int]) > (if self.nodes@[i as int] is Inner {
                self.fan_out
            } else {
                self.leaf_capacity
            })),
    {
        match &self.nodes[i] {
            TreeNode::Inner(n) => n.children.len() > self.fan_out,
            TreeNode::Data(d) => d.children.len() > self.leaf_capacity,
        }
    }

    /// Splits the child in slot `slot` of inner node `p` and enters the new
    /// right half into `p`, just after the child.
    fn split_child(&mut self, p: usize, slot: usize)
        requires
            old(self).wf(),
            p < old(self).len(),
            old(self).nodes@[p as int] is Inner,
            slot < old(self).nodes@[p as int]->Inner_0.children@.len(),
            Self::size(old(self).nodes@[old(self).nodes@[p as int]->Inner_0.children@[slot as int].1 as int]) >= 2,
        ensures
            final(self).wf(),
            final(self).root == old(self).root,
            final(self).leaf_capacity == old(self).leaf_capacity,
            final(self).fan_out == old(self).fan_out,
            final(self).len() == old(self).len() + 1,
            forall|k: Seq<char>, v: Seq<char>| final(self).has_entry(k, v) == old(self).has_entry(k, v),
            forall|i: int| 0 <= i < old(self).len() ==> #[trigger] final(self).level(i) == old(self).level(i),
            forall|i: int| 0 <= i < old(self).len() && old(self).level(i) > old(self).level(p as int)
                ==> #[trigger] final(self).nodes@[i] == old(self).nodes@[i],
            final(self).nodes@[p as int] is Inner,
            Self::size(final(self).nodes@[p as int]) == Self::size(old(self).nodes@[p as int]) + 1,
            ({
                let c = old(self).nodes@[p as int]->Inner_0.children@[slot as int].1 as int;
                let n = Self::size(old(self).nodes@[c]);
                let nn = old(self).len();
                &&& forall|i: int| 0 <= i < old(self).len() && i != c && i != p
                    ==> #[trigger] final(self).nodes@[i] == old(self).nodes@[i]
                &&& Self::size(final(self).nodes@[c]) == n / 2
                &&& Self::size(final(self).nodes@[nn]) == n - n / 2
                &&& (final(self).nodes@[c] is Inner) == (old(self).nodes@[c] is Inner)
                &&& (final(self).nodes@[nn] is Inner) == (old(self).nodes@[c] is Inner)
            }),
    {
        let ghost t = *self;
        proof {
            assert(t.node_wf(p as int));
            assert(t.floor(t.nodes@[p as int]->Inner_0.children@[slot as int].1 as int) == t.nodes@[p as int]->Inner_0.seps()[slot as int]);
        }
        let c = match &self.nodes[p] {
            TreeNode::Inner(n) => n.children[slot].1,
            TreeNode::Data(_) => 0,
        };
        proof {
            assert(t.node_wf(c as int));
            assert(t.level(c as int) < t.level(p as int));
        }
        let nn = self.nodes.len();
        let right = match &mut self.nodes[c] {
            TreeNode::Data(d) => TreeNode::Data(d.split(nn, Some(p))),
            TreeNode::Inner(n) => TreeNode::Inner(n.split(nn, Some(p))),
        };
        let sep = right.get_header().index_key.clone();
        self.nodes.push(right);
        self.levels = Ghost(self.levels@.push(self.levels@[c as int]));
        match &mut self.nodes[p] {
            TreeNode::Inner(n) => {
                // Reading the length bounds it by usize::MAX, so `slot + 1` fits.
                let _ = n.children.len();
                n.children.insert(slot + 1, (sep, nn));
            },
            TreeNode::Data(_) => {},
        }
        let ghost u = *self;
        // Reading the length bounds the arena by usize::MAX.
        let _ = self.nodes.len();
        proof {
            let c = c as int;
            let p = p as int;
            let nn = nn as int;
            let slot = slot as int;
            assert(Self::split_of(t, u, c, nn, p));
            Self::lemma_split_ranges(t, u, c, nn, p);
            Self::lemma_split_nodes(t, u, c, nn, p, slot);
            Self::lemma_split_disjoint(t, u, c, nn, p);
            Self::lemma_split_entries(t, u, c, nn, p);
            Self::lemma_split_parent(t, u, c, nn, p, slot);
            let r = t.root->Some_0 as int;
            assert(t.level(c) < t.level(p));
            assert(t.level(p) <= t.level(r));
            if r != p {
                assert(u.nodes@[r] == t.nodes@[r]);
            }
            assert forall|i: int| 0 <= i < u.len() implies #[trigger] u.level(i) <= u.level(r) by {
                if i < t.len() {
                    assert(t.level(i) <= t.level(r));
                }
            }
        }
    }

    /// Splits the root and puts a new root with the two halves as its
    /// children above it: the tree grows one level.
    fn split_root(&mut self)
        requires
            old(self).wf(),
            old(self).root is Some,
            Self::size(old(self).nodes@[old(self).root->Some_0 as int]) >= 2,
            old(self).len() + 2 <= usize::MAX,
        ensures
            final(self).wf(),
            final(self).leaf_capacity == old(self).leaf_capacity,
            final(self).fan_out == old(self).fan_out,
            final(self).len() == old(self).len() + 2,
            final(self).spec_height() == old(self).spec_height() + 1,
            forall|k: Seq<char>, v: Seq<char>| final(self).has_entry(k, v) == old(self).has_entry(k, v),
            ({
                let c = old(self).root->Some_0 as int;
                let n = Self::size(old(self).nodes@[c]);
                let nn = old(self).len();
                &&& forall|i: int| 0 <= i < old(self).len() && i != c
                    ==> #[trigger] final(self).nodes@[i] == old(self).nodes@[i]
                &&& Self::size(final(self).nodes@[c]) == n / 2
                &&& Self::size(final(self).nodes@[nn]) == n - n / 2
                &&& (final(self).nodes@[c] is Inner) == (old(self).nodes@[c] is Inner)
                &&& (final(self).nodes@[nn] is Inner) == (old(self).nodes@[c] is Inner)
                &&& final(self).nodes@[nn + 1] is Inner
                &&& Self::size(final(self).nodes@[nn + 1]) == 2
            }),
            final(self).spec_root_children() == 2,
    {
        let ghost t = *self;
        let r = match self.root {
            Some(r) => r,
            None => 0,
        };
        proof {
            assert(t.node_wf(r as int));
        }
        let nn = self.nodes.len();
        let nr = nn + 1;
        let right = match &mut self.nodes[r] {
            TreeNode::Data(d) => TreeNode::Data(d.split(nn, Some(nr))),
            TreeNode::Inner(n) => TreeNode::Inner(n.split(nn, Some(nr))),
        };
        let sep = right.get_header().index_key.clone();
        self.nodes.push(right);
        self.levels = Ghost(self.levels@.push(self.levels@[r as int]));
        match &mut self.nodes[r] {
            TreeNode::Data(d) => {
                d.node.parent = Some(nr);
            },
            TreeNode::Inner(n) => {
                n.node.parent = Some(nr);
            },
        }
        let left_key = self.nodes[r].get_header().index_key.clone();
        let mut children: Vec<KeyNode> = Vec::new();
        children.push((left_key, r));
        children.push((sep, nn));
        let new_root = InnerNode {
            node: Node { node_type: NodeType::Inner, index_key: String::new(), parent: None, sibling: None },
            children,
        };
        self.nodes.push(TreeNode::Inner(new_root));
        self.levels = Ghost(self.levels@.push(self.levels@[r as int] + 1));
        self.root = Some(nr);
        let ghost u = *self;
        // Reading the length bounds the arena by usize::MAX.
        let _ = self.nodes.len();
        proof {
            let c = r as int;
            let nn = nn as int;
            let p = nr as int;
            assert(Self::split_of(t, u, c, nn, p));
            Self::lemma_split_ranges(t, u, c, nn, p);
            Self::lemma_split_nodes(t, u, c, nn, p, 0);
            Self::lemma_split_disjoint(t, u, c, nn, p);
            Self::lemma_split_entries(t, u, c, nn, p);
            let b = u.nodes@[p]->Inner_0;
            assert(b.seps() =~= seq![t.floor(c), u.floor(nn)]);
            assert(b.children@[0].1 as int == c);
            assert(b.children@[1].1 as int == nn);
            assert(u.node_wf(p));
            assert forall|i: int| 0 <= i < u.len() implies #[trigger] u.level(i) <= u.level(p) by {
                if i < t.len() {
                    assert(t.level(i) <= t.level(c));
                }
            }
        }
    }

    /// `u` is `t` with node `c` split in two: its upper half moved into the new
    /// node `nn`, its right sibling now; `p` is the one other node that changed
    /// or was added.
    pub closed spec fn split_of(t: BLinkTree, u: BLinkTree, c: int, nn: int, p: int) -> bool {
        &&& u.levels@.len() == u.nodes@.len()
        &&& 0 <= c < t.len()
        &&& nn == t.len()
        &&& u.len() >= t.len() + 1
        &&& p != c && p != nn && 0 <= p < u.len()
        &&& u.len() <= t.len() + 2
        &&& u.len() <= usize::MAX
        &&& (u.len() == t.len() + 2 <==> p == t.len() + 1)
        &&& forall|i: int| 0 <= i < t.len() ==> #[trigger] u.level(i) == t.level(i)
        &&& u.level(nn) == t.level(c)
        &&& forall|i: int| 0 <= i < t.len() && i != c && i != p ==> #[trigger] u.nodes@[i] == t.nodes@[i]
        &&& (p < t.len() ==> u.nodes@[p].header() == t.nodes@[p].header() && t.nodes@[p] is Inner
            && u.nodes@[p] is Inner)
        &&& (p >= t.len() ==> u.nodes@[p] is Inner && u.level(p) == t.level(c) + 1
            && t.root == Some(c as usize))
        &&& u.nodes@[c].header().index_key == t.nodes@[c].header().index_key
        &&& u.nodes@[c].header().sibling == Some(nn as usize)
        &&& u.nodes@[nn].header().sibling == t.nodes@[c].header().sibling
        &&& (u.nodes@[c].header().parent matches Some(q) ==> q < u.len())
        &&& (u.nodes@[nn].header().parent matches Some(q) ==> q < u.len())
        &&& match (t.nodes@[c], u.nodes@[c], u.nodes@[nn]) {
            (TreeNode::Data(a), TreeNode::Data(b), TreeNode::Data(x)) => {
                let mid = a.children@.len() / 2;
                &&& a.children@.len() >= 2
                &&& b.node.node_type is Data
                &&& x.node.node_type is Data
                &&& b.children@ == a.children@.subrange(0, mid as int)
                &&& x.children@ == a.children@.subrange(mid as int, a.children@.len() as int)
                &&& x.node.index_key@ == a.keys()[mid as int]
            },
            (TreeNode::Inner(a), TreeNode::Inner(b), TreeNode::Inner(x)) => {
                let mid = a.children@.len() / 2;
                &&& a.children@.len() >= 2
                &&& b.node.node_type is Inner
                &&& x.node.node_type is Inner
                &&& b.children@ == a.children@.subrange(0, mid as int)
                &&& x.children@ == a.children@.subrange(mid as int, a.children@.len() as int)
                &&& x.node.index_key@ == a.seps()[mid as int]
            },
            _ => false,
        }
    }

    /// After a split, keys keep their owners, except that the split node now
    /// ends at the new separator and the new node covers the rest.
    proof fn lemma_split_ranges(t: BLinkTree, u: BLinkTree, c: int, nn: int, p: int)
        requires
            t.wf(),
            Self::split_of(t, u, c, nn, p),
        ensures
            forall|i: int| 0 <= i < t.len() ==> #[trigger] u.floor(i) == t.floor(i),
            forall|i: int| 0 <= i < t.len() && i != c ==> #[trigger] u.hi(i) == t.hi(i),
            u.hi(c) == Some(u.floor(nn)),
            u.hi(nn) == t.hi(c),
            key_lt(t.floor(c), u.floor(nn)),
            t.hi(c) matches Some(h) ==> key_lt(u.floor(nn), h),
            forall|i: int, k: Seq<char>| 0 <= i < t.len() && i != c ==>
                #[trigger] u.in_range(i, k) == t.in_range(i, k),
            forall|k: Seq<char>| #[trigger] u.in_range(c, k) ==> t.in_range(c, k) && key_lt(k, u.floor(nn)),
            forall|k: Seq<char>| #[trigger] u.in_range(nn, k) ==> t.in_range(c, k) && key_le(u.floor(nn), k),
    {
        let sep = u.floor(nn);
        assert forall|i: int| 0 <= i < t.len() implies #[trigger] u.floor(i) == t.floor(i) by {
            if i != c && i != p {
                assert(u.nodes@[i] == t.nodes@[i]);
            }
        }
        assert forall|i: int| 0 <= i < t.len() && i != c implies #[trigger] u.hi(i) == t.hi(i) by {
            assert(t.node_wf(i));
            if i != p {
                assert(u.nodes@[i] == t.nodes@[i]);
            }
            if let Some(s) = t.nodes@[i].header().sibling {
                assert(u.floor(s as int) == t.floor(s as int));
            }
        }
        assert(t.node_wf(c));
        if let Some(s) = t.nodes@[c].header().sibling {
            assert(u.floor(s as int) == t.floor(s as int));
        }
        assert(key_lt(t.floor(c), sep) && (t.hi(c) matches Some(h) ==> key_lt(sep, h))) by {
        match (t.nodes@[c], u.nodes@[c], u.nodes@[nn]) {
            (TreeNode::Data(a), TreeNode::Data(b), TreeNode::Data(x)) => {
                let mid = a.children@.len() / 2;
                let ks = a.keys();
                assert(key_lt(ks[0], ks[mid as int]));
                assert(t.in_range(c, ks[0]));
                lemma_key_le_lt_transitive(t.floor(c), ks[0], ks[mid as int]);
                assert(t.in_range(c, ks[mid as int]));
            },
            (TreeNode::Inner(a), TreeNode::Inner(b), TreeNode::Inner(x)) => {
                let mid = a.children@.len() / 2;
                let m = a.children@.len() as int;
                let ss = a.seps();
                assert(key_lt(ss[0], ss[mid as int]));
                let lc = a.children@[m - 1].1 as int;
                assert(t.floor(a.children@[m - 1].1 as int) == a.seps()[m - 1]);
                assert(t.node_wf(lc));
                if let Some(h) = t.hi(c) {
                    assert(key_lt(ss[m - 1], h));
                    if mid < m - 1 {
                        assert(key_lt(ss[mid as int], ss[m - 1]));
                        lemma_key_lt_transitive(ss[mid as int], ss[m - 1], h);
                    }
                }
            },
            _ => {},
        }
        }
        assert forall|k: Seq<char>| #[trigger] u.in_range(c, k) implies t.in_range(c, k) && key_lt(k, sep) by {
            if let Some(h) = t.hi(c) {
                lemma_key_lt_transitive(k, sep, h);
            }
        }
        assert forall|k: Seq<char>| #[trigger] u.in_range(nn, k) implies t.in_range(c, k) && key_le(sep, k) by {
            lemma_key_lt_le_transitive(t.floor(c), sep, k);
            lemma_key_lt_total(t.floor(c), k);
        }
    }

    /// A node has at most one parent.
    proof fn lemma_parent_unique(&self, c: int, p: int, slot: int, i: int, j: int)
        requires
            self.wf(),
            0 <= p < self.len(),
            0 <= i < self.len(),
            self.nodes@[p] is Inner,
            self.nodes@[i] is Inner,
            0 <= slot < self.nodes@[p]->Inner_0.children@.len(),
            0 <= j < self.nodes@[i]->Inner_0.children@.len(),
            self.nodes@[p]->Inner_0.children@[slot].1 == c,
            self.nodes@[i]->Inner_0.children@[j].1 == c,
        ensures
            p == i,
    {
        assert(self.node_wf(p));
        assert(self.node_wf(i));
        let np = self.nodes@[p]->Inner_0;
        let ni = self.nodes@[i]->Inner_0;
        assert(self.floor(np.children@[slot].1 as int) == np.seps()[slot]);
        assert(self.floor(ni.children@[j].1 as int) == ni.seps()[j]);
        assert(self.node_wf(c));
        let k = self.floor(c);
        lemma_key_lt_irreflexive(k);
        assert(self.in_range(c, k));
        self.lemma_child_range(p, slot, k);
        self.lemma_child_range(i, j, k);
    }

    /// After a split every node but `p` is well formed.
    proof fn lemma_split_nodes(t: BLinkTree, u: BLinkTree, c: int, nn: int, p: int, slot: int)
        requires
            t.wf(),
            Self::split_of(t, u, c, nn, p),
            p < t.len() ==> 0 <= slot < t.nodes@[p]->Inner_0.children@.len()
                && t.nodes@[p]->Inner_0.children@[slot].1 == c,
        ensures
            forall|i: int| 0 <= i < u.len() && i != p ==> #[trigger] u.node_wf(i),
    {
        Self::lemma_split_ranges(t, u, c, nn, p);
        let sep = u.floor(nn);
        assert(t.node_wf(c));
        assert forall|i: int| 0 <= i < u.len() && i != p implies #[trigger] u.node_wf(i) by {
            if i == c {
                Self::lemma_split_node_c(t, u, c, nn, p);
            } else if i == nn {
                Self::lemma_split_node_nn(t, u, c, nn, p);
            } else {
                assert(t.node_wf(i));
                assert(u.nodes@[i] == t.nodes@[i]);
                if let Some(s) = t.nodes@[i].header().sibling {
                    assert(u.level(s as int) == t.level(s as int));
                }
                match t.nodes@[i] {
                    TreeNode::Data(d) => {
                        assert forall|e: int| 0 <= e < d.keys().len() implies u.in_range(i, #[trigger] d.keys()[e]) by {
                            assert(t.in_range(i, d.keys()[e]));
                        }
                    },
                    TreeNode::Inner(n) => {
                        let m = n.children@.len() as int;
                        assert forall|j: int| 0 <= j < m implies {
                            let cj = (#[trigger] n.children@[j]).1 as int;
                            &&& cj < u.len()
                            &&& u.level(cj) + 1 == u.level(i)
                            &&& u.floor(cj) == n.seps()[j]
                            &&& (j + 1 < m ==> u.hi(cj) == Some(n.seps()[j + 1]))
                            &&& (j + 1 == m ==> u.hi(cj) == u.hi(i))
                        } by {
                            let cj = n.children@[j].1 as int;
                            if cj == c {
                                if p < t.len() {
                                    t.lemma_parent_unique(c, p, slot, i, j);
                                } else {
                                    assert(t.level(i) <= t.level(c));
                                }
                            }
                        }
                    },
                }
            }
        }
    }

    proof fn lemma_split_node_c(t: BLinkTree, u: BLinkTree, c: int, nn: int, p: int)
        requires
            t.wf(),
            Self::split_of(t, u, c, nn, p),
        ensures
            u.node_wf(c),
    {
        Self::lemma_split_ranges(t, u, c, nn, p);
        let sep = u.floor(nn);
        assert(t.node_wf(c));
        match (t.nodes@[c], u.nodes@[c], u.nodes@[nn]) {
            (TreeNode::Data(a), TreeNode::Data(b), TreeNode::Data(x)) => {
                let mid = a.children@.len() / 2;
                let ks = a.keys();
                assert(b.keys() =~= ks.subrange(0, mid as int));
                assert forall|e: int| 0 <= e < b.keys().len() implies u.in_range(c, #[trigger] b.keys()[e]) by {
                    assert(t.in_range(c, ks[e]));
                    assert(key_lt(ks[e], ks[mid as int]));
                }
            },
            (TreeNode::Inner(a), TreeNode::Inner(b), TreeNode::Inner(x)) => {
                let mid = a.children@.len() / 2;
                let m = a.children@.len() as int;
                let ss = a.seps();
                assert(b.seps() =~= ss.subrange(0, mid as int));
                assert forall|j: int| 0 <= j < mid implies {
                    let cj = (#[trigger] b.children@[j]).1 as int;
                    &&& cj < u.len()
                    &&& u.level(cj) + 1 == u.level(c)
                    &&& u.floor(cj) == b.seps()[j]
                    &&& (j + 1 < mid ==> u.hi(cj) == Some(b.seps()[j + 1]))
                    &&& (j + 1 == mid ==> u.hi(cj) == u.hi(c))
                } by {
                    assert(b.children@[j] == a.children@[j]);
                    let cj = a.children@[j].1 as int;
                    assert(t.level(cj) + 1 == t.level(c));
                }
            },
            _ => {},
        }
    }

    proof fn lemma_split_node_nn(t: BLinkTree, u: BLinkTree, c: int, nn: int, p: int)
        requires
            t.wf(),
            Self::split_of(t, u, c, nn, p),
        ensures
            u.node_wf(nn),
    {
        Self::lemma_split_ranges(t, u, c, nn, p);
        let sep = u.floor(nn);
        assert(t.node_wf(c));
        if let Some(s) = t.nodes@[c].header().sibling {
            assert(u.level(s as int) == t.level(s as int));
        }
        match (t.nodes@[c], u.nodes@[c], u.nodes@[nn]) {
            (TreeNode::Data(a), TreeNode::Data(b), TreeNode::Data(x)) => {
                let mid = a.children@.len() / 2;
                let n = a.children@.len() as int;
                let ks = a.keys();
                assert(x.keys() =~= ks.subrange(mid as int, n));
                assert forall|e: int| 0 <= e < x.keys().len() implies u.in_range(nn, #[trigger] x.keys()[e]) by {
                    assert(t.in_range(c, ks[mid + e]));
                    if e > 0 {
                        assert(key_lt(ks[mid as int], ks[mid + e]));
                        lemma_key_lt_total(ks[mid as int], ks[mid + e]);
                    } else {
                        lemma_key_lt_irreflexive(sep);
                    }
                }
            },
            (TreeNode::Inner(a), TreeNode::Inner(b), TreeNode::Inner(x)) => {
                let mid = a.children@.len() / 2;
                let m = a.children@.len() as int;
                let ss = a.seps();
                assert(x.seps() =~= ss.subrange(mid as int, m));
                let mx = x.children@.len() as int;
                assert forall|j: int| 0 <= j < mx implies {
                    let cj = (#[trigger] x.children@[j]).1 as int;
                    &&& cj < u.len()
                    &&& u.level(cj) + 1 == u.level(nn)
                    &&& u.floor(cj) == x.seps()[j]
                    &&& (j + 1 < mx ==> u.hi(cj) == Some(x.seps()[j + 1]))
                    &&& (j + 1 == mx ==> u.hi(cj) == u.hi(nn))
                } by {
                    assert(x.children@[j] == a.children@[mid + j]);
                    let cj = a.children@[mid + j].1 as int;
                    assert(t.level(cj) + 1 == t.level(c));
                }
            },
            _ => {},
        }
    }

    /// After a split, nodes of one level still cover disjoint keys.
    proof fn lemma_split_disjoint(t: BLinkTree, u: BLinkTree, c: int, nn: int, p: int)
        requires
            t.wf(),
            Self::split_of(t, u, c, nn, p),
        ensures
            forall|a: int, b: int, k: Seq<char>|
                0 <= a < u.len() && 0 <= b < u.len() && a != b && u.level(a) == u.level(b)
                    && #[trigger] u.in_range(a, k) ==> !#[trigger] u.in_range(b, k),
    {
        Self::lemma_split_ranges(t, u, c, nn, p);
        assert forall|a: int, b: int, k: Seq<char>|
            0 <= a < u.len() && 0 <= b < u.len() && a != b && u.level(a) == u.level(b)
                && #[trigger] u.in_range(a, k) implies !#[trigger] u.in_range(b, k) by {
            if u.in_range(b, k) {
                if a > t.len() || b > t.len() {
                    let o = if a > t.len() { b } else { a };
                    if o < t.len() {
                        assert(t.level(o) <= t.level(c));
                    }
                } else {
                    let ra = if a == nn { c } else { a };
                    let rb = if b == nn { c } else { b };
                    assert(t.in_range(ra, k));
                    assert(t.in_range(rb, k));
                    if ra != rb {
                        assert(t.level(ra) == t.level(rb));
                    }
                }
            }
        }
    }

    /// A split moves entries between leaves and neither adds nor drops one.
    proof fn lemma_split_entries(t: BLinkTree, u: BLinkTree, c: int, nn: int, p: int)
        requires
            t.wf(),
            Self::split_of(t, u, c, nn, p),
        ensures
            forall|k: Seq<char>, v: Seq<char>| u.has_entry(k, v) == t.has_entry(k, v),
    {
        let n: int = t.leaf_entries(c).len() as int;
        let mid: int = match t.nodes@[c] {
            TreeNode::Data(a) => a.children@.len() as int / 2,
            TreeNode::Inner(_) => 0,
        };
        match (t.nodes@[c], u.nodes@[c], u.nodes@[nn]) {
            (TreeNode::Data(a), TreeNode::Data(b), TreeNode::Data(x)) => {
                assert(b.entries() =~= a.entries().subrange(0, mid));
                assert(x.entries() =~= a.entries().subrange(mid, n));
            },
            _ => {},
        }
        let te = t.leaf_entries(c);
        assert(t.leaf_entries(c).len() > 0 ==> u.leaf_entries(c) == te.subrange(0, mid)
            && u.leaf_entries(nn) == te.subrange(mid, n) && n == te.len() && 0 <= mid <= n);
        assert(t.leaf_entries(c).len() == 0 ==> u.leaf_entries(c).len() == 0 && u.leaf_entries(nn).len() == 0);
        assert forall|k: Seq<char>, v: Seq<char>| u.has_entry(k, v) implies t.has_entry(k, v) by {
            let (i, e) = choose|i: int, e: int| 0 <= i < u.len() && 0 <= e < u.leaf_entries(i).len()
                && #[trigger] u.leaf_entries(i)[e] == (k, v);
            if i == nn {
                assert(t.leaf_entries(c)[mid + e] == (k, v));
            } else if i == c {
                assert(t.leaf_entries(c)[e] == (k, v));
            } else if i != p {
                assert(u.nodes@[i] == t.nodes@[i]);
                assert(t.leaf_entries(i)[e] == (k, v));
            }
        }
        assert forall|k: Seq<char>, v: Seq<char>| t.has_entry(k, v) implies u.has_entry(k, v) by {
            let (i, e) = choose|i: int, e: int| 0 <= i < t.len() && 0 <= e < t.leaf_entries(i).len()
                && #[trigger] t.leaf_entries(i)[e] == (k, v);
            if i == c {
                if e < mid {
                    assert(u.leaf_entries(c)[e] == (k, v));
                } else {
                    assert(u.leaf_entries(nn)[e - mid] == (k, v));
                }
            } else if i != p {
                assert(u.nodes@[i] == t.nodes@[i]);
                assert(u.leaf_entries(i)[e] == (k, v));
            }
        }
    }

    /// After a split of its child in slot `slot`, the parent that took the new
    /// separator is well formed.
    #[verifier::rlimit(30)]
    proof fn lemma_split_parent(t: BLinkTree, u: BLinkTree, c: int, nn: int, p: int, slot: int)
        requires
            t.wf(),
            Self::split_of(t, u, c, nn, p),
            p < t.len(),
            0 <= slot < t.nodes@[p]->Inner_0.children@.len(),
            t.nodes@[p]->Inner_0.children@[slot].1 == c,
            u.nodes@[p]->Inner_0.children@ == t.nodes@[p]->Inner_0.children@.insert(
                slot + 1, (u.nodes@[nn].header().index_key, nn as usize)),
            u.nodes@[p]->Inner_0.node.node_type is Inner,
        ensures
            u.node_wf(p),
    {
        Self::lemma_split_ranges(t, u, c, nn, p);
        assert(t.node_wf(p));
        let a = t.nodes@[p]->Inner_0;
        let b = u.nodes@[p]->Inner_0;
        let sep = u.floor(nn);
        let m = a.children@.len() as int;
        let ss = a.seps();
        assert(t.floor(a.children@[slot].1 as int) == a.seps()[slot]);
        assert(b.seps() =~= ss.insert(slot + 1, sep));
        if slot + 1 < m {
            assert(t.floor(a.children@[slot + 1].1 as int) == a.seps()[slot + 1]);
        }
        lemma_sorted_insert(ss, slot + 1, sep);
        if let Some(s) = u.nodes@[p].header().sibling {
            assert(u.level(s as int) == t.level(s as int));
        }
        assert forall|j: int| 0 <= j < m + 1 implies {
            let cj = (#[trigger] b.children@[j]).1 as int;
            &&& cj < u.len()
            &&& u.level(cj) + 1 == u.level(p)
            &&& u.floor(cj) == b.seps()[j]
            &&& (j + 1 < m + 1 ==> u.hi(cj) == Some(b.seps()[j + 1]))
            &&& (j + 1 == m + 1 ==> u.hi(cj) == u.hi(p))
        } by {
            if j < slot {
                assert(b.children@[j] == a.children@[j]);
                assert(key_lt(ss[j], ss[slot]));
                lemma_key_lt_irreflexive(ss[j]);
            } else if j > slot + 1 {
                assert(b.children@[j] == a.children@[j - 1]);
                assert(t.floor(a.children@[j - 1].1 as int) == a.seps()[j - 1]);
                assert(key_lt(ss[slot], ss[j - 1]));
                lemma_key_lt_irreflexive(ss[slot]);
            }
        }
    }
}

/// A query on a tree that holds nothing, such as a new one, returns nothing.
pub proof fn lemma_empty_tree_query(t: &BLinkTree, k: Seq<char>)
    requires
        t.wf(),
        t@ == Map::<Seq<char>, Seq<char>>::empty(),
    ensures
        t.matches(k) == Seq::<(Seq<char>, Seq<char>)>::empty(),
{
    t.lemma_lookup_view(k);
}

/// A query returns the entry that the map view holds under the key, or
/// nothing where it holds none.
pub proof fn lemma_query_view(t: &BLinkTree, k: Seq<char>)
    requires
        t.wf(),
    ensures
        t.matches(k) == (if t@.contains_key(k) {
            seq![(k, t@[k])]
        } else {
            Seq::<(Seq<char>, Seq<char>)>::empty()
        }),
{
    t.lemma_lookup_view(k);
}

/// After storing `v` under `k`, a query for `k` returns exactly `(k, v)`.
pub proof fn lemma_upsert_then_query(before: &BLinkTree, after: &BLinkTree, k: Seq<char>, v: Seq<char>)
    requires
        before.wf(),
        after.wf(),
        after@ == before@.insert(k, v),
    ensures
        after.matches(k) == seq![(k, v)],
{
    after.lemma_lookup_view(k);
}

/// Storing under one key twice leaves one entry for it, with the later payload.
pub proof fn lemma_second_upsert_wins(
    t0: &BLinkTree,
    t1: &BLinkTree,
    t2: &BLinkTree,
    k: Seq<char>,
    v1: Seq<char>,
    v2: Seq<char>,
)
    requires
        t0.wf(),
        t1.wf(),
        t2.wf(),
        t1@ == t0@.insert(k, v1),
        t2@ == t1@.insert(k, v2),
    ensures
        t2.matches(k) == seq![(k, v2)],
        t2.matches(k).len() == 1,
{
    t2.lemma_lookup_view(k);
}

/// The separators of every inner node strictly increase.
pub proof fn lemma_separators_increase(t: &BLinkTree, i: int)
    requires
        t.wf(),
        0 <= i < t.len(),
        t.node(i) is Inner,
    ensures
        strictly_sorted(t.node(i)->Inner_0.seps()),
{
    assert(t.node_wf(i));
}

/// Along a level, each node ends where its right sibling starts, the
/// sibling starts above it, and the last node reaches past every key.
pub proof fn lemma_sibling_chain(t: &BLinkTree, i: int)
    requires
        t.wf(),
        0 <= i < t.len(),
    ensures
        t.node(i).header().sibling matches Some(s) ==> {
            &&& 0 <= s < t.len()
            &&& t.level(s as int) == t.level(i)
            &&& key_lt(t.floor(i), t.floor(s as int))
            &&& t.hi(i) == Some(t.floor(s as int))
        },
        t.node(i).header().sibling is None ==> t.hi(i) is None,
{
    assert(t.node_wf(i));
}

/// At every level of the tree, each key is the responsibility of exactly one node.
pub proof fn lemma_level_partition(t: &BLinkTree, l: nat, k: Seq<char>)
    requires
        t.wf(),
        l < t.spec_height(),
    ensures
        exists|j: int| 0 <= j < t.len() && t.level(j) == l && #[trigger] t.in_range(j, k),
        forall|a: int, b: int| 0 <= a < t.len() && 0 <= b < t.len() && t.level(a) == l && t.level(b) == l
            && #[trigger] t.in_range(a, k) && #[trigger] t.in_range(b, k) ==> a == b,
{
    let r = t.root->Some_0 as int;
    t.lemma_root_in_range(k);
    t.lemma_cover(r, k, l);
}

impl BaseNode for BLinkTree {
    open spec fn ready(&self) -> bool {
        self.wf()
    }

    open spec fn matches(&self, k: Seq<char>) -> Seq<(Seq<char>, Seq<char>)> {
        self.lookup(k)
    }

    fn query(&self, query_index_key: &Query) -> (r: Vec<KeyData>) {
        let ghost k = query_index_key.query_str@;
        match self.root {
            None => Vec::new(),
            Some(root) => {
                proof {
                    self.lemma_root_in_range(k);
                    self.lemma_route(root as int, k);
                }
                let leaf = self.query_datanode(root, query_index_key);
                match &self.nodes[leaf] {
                    TreeNode::Data(d) => d.query(query_index_key),
                    TreeNode::Inner(_) => Vec::new(),
                }
            },
        }
    }
}

} // verus!
