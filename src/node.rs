//! Nodes of the tree: the shared header, inner nodes that route by separator
//! keys, and data nodes that hold the records.

use vstd::prelude::*;
use crate::keys::{key_lt, less_than, lemma_key_lt_irreflexive, lemma_key_lt_total,
    lemma_key_lt_transitive};

verus! {

/// A payload stored under a key.
pub struct DataRecord {
    pub data: String,
}

impl DataRecord {
    pub open spec fn view(&self) -> Seq<char> {
        self.data@
    }

    pub fn new(data: &String) -> (r: DataRecord)
        ensures
            r@ == data@,
    {
        DataRecord { data: data.clone() }
    }

    pub fn duplicate(&self) -> (r: DataRecord)
        ensures
            r@ == self@,
    {
        DataRecord { data: self.data.clone() }
    }
}

/// A key together with the record stored under it.
pub type KeyData = (String, DataRecord);

/// A separator key together with the arena index of the child it leads to.
pub type KeyNode = (String, usize);

/// The mathematical value of a stored entry: its key and its payload.
pub open spec fn entry_view(e: KeyData) -> (Seq<char>, Seq<char>) {
    (e.0@, e.1@)
}

pub open spec fn entries_view(s: Seq<KeyData>) -> Seq<(Seq<char>, Seq<char>)> {
    s.map_values(|e: KeyData| entry_view(e))
}

/// The entries of `s` whose key is `k`, in storage order.
pub open spec fn matching(s: Seq<(Seq<char>, Seq<char>)>, k: Seq<char>) -> Seq<(Seq<char>, Seq<char>)>
    decreases s.len(),
{
    if s.len() == 0 {
        Seq::empty()
    } else if s.last().0 == k {
        matching(s.drop_last(), k).push(s.last())
    } else {
        matching(s.drop_last(), k)
    }
}

/// The keys of `s` strictly increase.
pub open spec fn strictly_sorted(s: Seq<Seq<char>>) -> bool {
    forall|a: int, b: int| 0 <= a < b < s.len() ==> key_lt(#[trigger] s[a], #[trigger] s[b])
}

/// Index of the first key in `s` that `k` sorts strictly before; `s.len()` if none.
pub open spec fn first_above(s: Seq<Seq<char>>, k: Seq<char>) -> int
    decreases s.len(),
{
    if s.len() == 0 {
        0
    } else if key_lt(k, s[0]) {
        0
    } else {
        1 + first_above(s.drop_first(), k)
    }
}

pub proof fn lemma_first_above(s: Seq<Seq<char>>, k: Seq<char>)
    ensures
        0 <= first_above(s, k) <= s.len(),
        forall|i: int| 0 <= i < first_above(s, k) ==> !key_lt(k, #[trigger] s[i]),
        first_above(s, k) < s.len() ==> key_lt(k, s[first_above(s, k)]),
    decreases s.len(),
{
    if s.len() > 0 && !key_lt(k, s[0]) {
        lemma_first_above(s.drop_first(), k);
        assert forall|i: int| 0 <= i < first_above(s, k) implies !key_lt(k, #[trigger] s[i]) by {
            if i > 0 {
                assert(s[i] == s.drop_first()[i - 1]);
            }
        }
    }
}

/// Inserting a key between its neighbours keeps a sequence strictly sorted.
pub proof fn lemma_sorted_insert(s: Seq<Seq<char>>, i: int, x: Seq<char>)
    requires
        strictly_sorted(s),
        0 < i <= s.len(),
        key_lt(s[i - 1], x),
        i < s.len() ==> key_lt(x, s[i]),
    ensures
        strictly_sorted(s.insert(i, x)),
{
    let t = s.insert(i, x);
    assert forall|a: int, b: int| 0 <= a < b < t.len() implies key_lt(#[trigger] t[a], #[trigger] t[b]) by {
        if a < i && b == i {
            if a < i - 1 {
                lemma_key_lt_transitive(s[a], s[i - 1], x);
            }
        } else if a == i && b > i {
            if b - 1 > i {
                lemma_key_lt_transitive(x, s[i], s[b - 1]);
            }
        } else if a < i && b > i {
            if a < i - 1 {
                lemma_key_lt_transitive(s[a], s[i - 1], x);
            }
            if b - 1 > i {
                lemma_key_lt_transitive(x, s[i], s[b - 1]);
            }
            lemma_key_lt_transitive(s[a], x, s[b - 1]);
        } else if a > i {
            assert(key_lt(s[a - 1], s[b - 1]));
        }
    }
}

/// Keys of a sorted, duplicate-free sequence of entries: at most one matches.
pub proof fn lemma_matching_unique(s: Seq<(Seq<char>, Seq<char>)>, k: Seq<char>, e: int)
    requires
        strictly_sorted(s.map_values(|p: (Seq<char>, Seq<char>)| p.0)),
        0 <= e < s.len(),
        s[e].0 == k,
    ensures
        matching(s, k) == seq![s[e]],
    decreases s.len(),
{
    let ks = s.map_values(|p: (Seq<char>, Seq<char>)| p.0);
    let t = s.drop_last();
    assert(t.map_values(|p: (Seq<char>, Seq<char>)| p.0) =~= ks.drop_last());
    if e == s.len() - 1 {
        lemma_matching_none(t, k);
        assert(matching(t, k) =~= Seq::<(Seq<char>, Seq<char>)>::empty()) by {
            assert forall|i: int| 0 <= i < t.len() implies #[trigger] t[i].0 != k by {
                assert(key_lt(ks[i], ks[e]));
                lemma_key_lt_irreflexive(k);
            }
        }
        assert(matching(s, k) =~= seq![s[e]]);
    } else {
        assert(key_lt(ks[e], ks[s.len() - 1]));
        lemma_key_lt_irreflexive(k);
        lemma_matching_unique(t, k, e);
    }
}

/// No entry of `s` has key `k`: nothing matches.
pub proof fn lemma_matching_none(s: Seq<(Seq<char>, Seq<char>)>, k: Seq<char>)
    ensures
        (forall|i: int| 0 <= i < s.len() ==> #[trigger] s[i].0 != k) ==> matching(s, k).len() == 0,
    decreases s.len(),
{
    if s.len() > 0 {
        lemma_matching_none(s.drop_last(), k);
        if forall|i: int| 0 <= i < s.len() ==> #[trigger] s[i].0 != k {
            assert forall|i: int| 0 <= i < s.drop_last().len() implies #[trigger] s.drop_last()[i].0 != k by {
                assert(s.drop_last()[i] == s[i]);
            }
        }
    }
}

/// The query argument: a key, and the payload that an insert stores under it.
pub struct Query {
    pub query_str: String,
    pub payload: String,
}

impl Query {
    pub fn new(key: &String, payload: &String) -> (r: Query)
        ensures
            r.query_str@ == key@,
            r.payload@ == payload@,
    {
        Query { query_str: key.clone(), payload: payload.clone() }
    }

    /// The key sorts strictly before `index_key`.
    pub fn is_in_range_of(&self, index_key: &String) -> (r: bool)
        ensures
            r == key_lt(self.query_str@, index_key@),
    {
        less_than(&self.query_str, index_key)
    }

    /// The key equals `index_key`.
    pub fn is_matched(&self, index_key: &String) -> (r: bool)
        ensures
            r == (self.query_str@ == index_key@),
    {
        self.query_str == *index_key
    }
}

/// The two kinds of node.
pub enum NodeType {
    Inner,
    Data,
}

/// What every node carries: its kind, the least key it is responsible for,
/// its parent and its right sibling, both as arena indices.
pub struct Node {
    pub node_type: NodeType,
    pub index_key: String,
    pub parent: Option<usize>,
    pub sibling: Option<usize>,
}

/// A routing node: `(separator, child)` pairs, where each separator is the
/// least key that its child is responsible for.
pub struct InnerNode {
    pub node: Node,
    pub children: Vec<KeyNode>,
}

/// A leaf: the entries stored in it, ordered by key.
pub struct DataNode {
    pub node: Node,
    pub children: Vec<KeyData>,
}

/// A node of either kind.
pub enum TreeNode {
    Inner(InnerNode),
    Data(DataNode),
}

impl TreeNode {
    pub open spec fn header(&self) -> Node {
        match self {
            TreeNode::Inner(n) => n.node,
            TreeNode::Data(n) => n.node,
        }
    }

    pub fn get_header(&self) -> (r: &Node)
        ensures
            *r == self.header(),
    {
        match self {
            TreeNode::Inner(n) => &n.node,
            TreeNode::Data(n) => &n.node,
        }
    }
}

impl InnerNode {
    /// The separator keys, left to right.
    pub open spec fn seps(&self) -> Seq<Seq<char>> {
        self.children@.map_values(|c: KeyNode| c.0@)
    }

    /// The index of the first separator that the query key sorts before.
    pub fn locate_range_key(&self, query_index_key: &Query) -> (r: Option<usize>)
        ensures
            match r {
                Some(j) => j as int == first_above(self.seps(), query_index_key.query_str@)
                    && (j as int) < self.seps().len(),
                None => first_above(self.seps(), query_index_key.query_str@) == self.seps().len(),
            },
    {
        let ghost k = query_index_key.query_str@;
        proof {
            lemma_first_above(self.seps(), k);
        }
        let mut j: usize = 0;
        while j < self.children.len()
            invariant
                k == query_index_key.query_str@,
                j <= self.children@.len(),
                forall|i: int| 0 <= i < j ==> !key_lt(k, #[trigger] self.seps()[i]),
            decreases self.children@.len() - j,
        {
            proof {
                lemma_first_above(self.seps(), k);
                assert(self.seps()[j as int] == self.children@[j as int].0@);
            }
            if query_index_key.is_in_range_of(&self.children[j].0) {
                proof {
                    let f = first_above(self.seps(), k);
                    if f < j {
                        assert(!key_lt(k, self.seps()[f]));
                    }
                    if f > j {
                        assert(!key_lt(k, self.seps()[j as int]));
                    }
                }
                return Some(j);
            }
            j = j + 1;
        }
        proof {
            let f = first_above(self.seps(), k);
            if f < j {
                assert(!key_lt(k, self.seps()[f]));
            }
        }
        None
    }
}

impl DataNode {
    /// The stored entries as keys and payloads.
    pub open spec fn entries(&self) -> Seq<(Seq<char>, Seq<char>)> {
        entries_view(self.children@)
    }

    pub open spec fn keys(&self) -> Seq<Seq<char>> {
        self.entries().map_values(|p: (Seq<char>, Seq<char>)| p.0)
    }

    /// Appends the query's key and payload as a new entry.
    pub fn add(&mut self, query: &Query)
        ensures
            final(self).node == old(self).node,
            final(self).entries() == old(self).entries().push((query.query_str@, query.payload@)),
    {
        let new_record = DataRecord::new(&query.payload);
        self.children.push((query.query_str.clone(), new_record));
        proof {
            assert(self.entries() =~= old(self).entries().push((query.query_str@, query.payload@)));
        }
    }

    /// Stores the query's payload under its key: replaces the record of an
    /// entry with that key, or inserts a new entry where the key order puts it.
    pub fn upsert(&mut self, query: &Query)
        requires
            strictly_sorted(old(self).keys()),
        ensures
            final(self).node == old(self).node,
            strictly_sorted(final(self).keys()),
            final(self).entries().contains((query.query_str@, query.payload@)),
            forall|e: (Seq<char>, Seq<char>)| #[trigger] final(self).entries().contains(e) ==>
                e == (query.query_str@, query.payload@) || (old(self).entries().contains(e) && e.0 != query.query_str@),
            forall|e: (Seq<char>, Seq<char>)| #[trigger] old(self).entries().contains(e) && e.0 != query.query_str@
                ==> final(self).entries().contains(e),
            final(self).entries().len() <= old(self).entries().len() + 1,
    {
        let ghost k = query.query_str@;
        let ghost v = query.payload@;
        let ghost olde = self.entries();
        let mut i: usize = 0;
        while i < self.children.len() && less_than(&self.children[i].0, &query.query_str)
            invariant
                self.entries() == olde,
                k == query.query_str@,
                i <= self.children@.len(),
                forall|j: int| 0 <= j < i ==> key_lt(#[trigger] self.keys()[j], k),
            decreases self.children@.len() - i,
        {
            proof {
                assert(self.keys()[i as int] == self.children@[i as int].0@);
            }
            i = i + 1;
        }
        let ghost oldk = self.keys();
        proof {
            if i < self.children@.len() {
                assert(oldk[i as int] == self.children@[i as int].0@);
            }
            assert forall|x: int| 0 <= x < olde.len() implies #[trigger] olde[x].0 == oldk[x] by {}
        }
        if i < self.children.len() && query.is_matched(&self.children[i].0) {
            let key = self.children[i].0.clone();
            self.children.set(i, (key, DataRecord::new(&query.payload)));
            proof {
                assert(self.entries() =~= olde.update(i as int, (k, v)));
                assert(self.keys() =~= oldk);
                assert(self.entries()[i as int] == (k, v));
                assert forall|e: (Seq<char>, Seq<char>)| #[trigger] self.entries().contains(e) implies
                    e == (k, v) || (olde.contains(e) && e.0 != k) by {
                    let x = choose|x: int| 0 <= x < self.entries().len() && self.entries()[x] == e;
                    if x != i {
                        assert(olde[x] == e);
                        assert(oldk[x] != oldk[i as int]) by {
                            lemma_key_lt_irreflexive(oldk[x]);
                        }
                    }
                }
                assert forall|e: (Seq<char>, Seq<char>)| #[trigger] olde.contains(e) && e.0 != k
                    implies self.entries().contains(e) by {
                    let x = choose|x: int| 0 <= x < olde.len() && olde[x] == e;
                    assert(self.entries()[x] == e);
                }
            }
        } else if i == self.children.len() {
            self.add(query);
            proof {
                let ne = self.entries();
                assert(ne[i as int] == (k, v));
                assert(self.keys() =~= oldk.push(k));
                assert forall|e: (Seq<char>, Seq<char>)| #[trigger] ne.contains(e) implies
                    e == (k, v) || (olde.contains(e) && e.0 != k) by {
                    let x = choose|x: int| 0 <= x < ne.len() && ne[x] == e;
                    if x != i {
                        assert(olde[x] == e);
                        assert(key_lt(oldk[x], k));
                        lemma_key_lt_irreflexive(k);
                    }
                }
                assert forall|e: (Seq<char>, Seq<char>)| #[trigger] olde.contains(e) && e.0 != k
                    implies ne.contains(e) by {
                    let x = choose|x: int| 0 <= x < olde.len() && olde[x] == e;
                    assert(ne[x] == e);
                }
            }
        } else {
            proof {
                lemma_key_lt_total(k, oldk[i as int]);
                assert(key_lt(k, oldk[i as int]));
                assert forall|m: int| i <= m < oldk.len() implies key_lt(k, #[trigger] oldk[m]) by {
                    if m > i {
                        lemma_key_lt_transitive(k, oldk[i as int], oldk[m]);
                    }
                }
            }
            self.children.insert(i, (query.query_str.clone(), DataRecord::new(&query.payload)));
            proof {
                let ne = self.entries();
                assert(ne =~= olde.insert(i as int, (k, v)));
                assert(self.keys() =~= oldk.insert(i as int, k));
                assert(ne[i as int] == (k, v));
                let nk = self.keys();
                assert forall|a: int, b: int| 0 <= a < b < nk.len() implies key_lt(#[trigger] nk[a], #[trigger] nk[b]) by {
                    if b < i {
                        assert(key_lt(oldk[a], oldk[b]));
                    } else if b == i {
                        assert(key_lt(oldk[a], k));
                    } else if a == i {
                        assert(key_lt(k, oldk[b - 1]));
                    } else if a < i {
                        assert(key_lt(oldk[a], k));
                        assert(key_lt(k, oldk[b - 1]));
                        lemma_key_lt_transitive(oldk[a], k, oldk[b - 1]);
                    } else {
                        assert(key_lt(oldk[a - 1], oldk[b - 1]));
                    }
                }
                assert forall|e: (Seq<char>, Seq<char>)| #[trigger] ne.contains(e) implies
                    e == (k, v) || (olde.contains(e) && e.0 != k) by {
                    let x = choose|x: int| 0 <= x < ne.len() && ne[x] == e;
                    if x < i {
                        assert(olde[x] == e);
                        assert(key_lt(oldk[x], k));
                        lemma_key_lt_irreflexive(k);
                    } else if x > i {
                        assert(olde[x - 1] == e);
                        assert(key_lt(k, oldk[x - 1]));
                        lemma_key_lt_irreflexive(k);
                    }
                }
                assert forall|e: (Seq<char>, Seq<char>)| #[trigger] olde.contains(e) && e.0 != k
                    implies ne.contains(e) by {
                    let x = choose|x: int| 0 <= x < olde.len() && olde[x] == e;
                    if x < i {
                        assert(ne[x] == e);
                    } else {
                        assert(ne[x + 1] == e);
                    }
                }
            }
        }
    }
}

impl DataNode {
    /// Moves the upper half of the entries into a new leaf that becomes this
    /// leaf's right sibling at arena index `right_index`.
    pub fn split(&mut self, right_index: usize, parent: Option<usize>) -> (r: DataNode)
        requires
            old(self).children@.len() >= 2,
        ensures
            ({
                let mid = old(self).children@.len() / 2;
                &&& final(self).children@ == old(self).children@.subrange(0, mid as int)
                &&& r.children@ == old(self).children@.subrange(mid as int, old(self).children@.len() as int)
                &&& r.node.index_key@ == old(self).keys()[mid as int]
            }),
            final(self).node.index_key == old(self).node.index_key,
            final(self).node.node_type == old(self).node.node_type,
            final(self).node.parent == old(self).node.parent,
            final(self).node.sibling == Some(right_index),
            r.node.node_type is Data,
            r.node.parent == parent,
            r.node.sibling == old(self).node.sibling,
    {
        let mid = self.children.len() / 2;
        let right = self.children.split_off(mid);
        let floor = right[0].0.clone();
        proof {
            assert(old(self).keys()[mid as int] == old(self).children@[mid as int].0@);
        }
        let r = DataNode {
            node: Node { node_type: NodeType::Data, index_key: floor, parent, sibling: self.node.sibling },
            children: right,
        };
        self.node.sibling = Some(right_index);
        r
    }
}

impl InnerNode {
    /// Moves the upper half of the children into a new inner node that
    /// becomes this node's right sibling at arena index `right_index`.
    pub fn split(&mut self, right_index: usize, parent: Option<usize>) -> (r: InnerNode)
        requires
            old(self).children@.len() >= 2,
        ensures
            ({
                let mid = old(self).children@.len() / 2;
                &&& final(self).children@ == old(self).children@.subrange(0, mid as int)
                &&& r.children@ == old(self).children@.subrange(mid as int, old(self).children@.len() as int)
                &&& r.node.index_key@ == old(self).seps()[mid as int]
            }),
            final(self).node.index_key == old(self).node.index_key,
            final(self).node.node_type == old(self).node.node_type,
            final(self).node.parent == old(self).node.parent,
            final(self).node.sibling == Some(right_index),
            r.node.node_type is Inner,
            r.node.parent == parent,
            r.node.sibling == old(self).node.sibling,
    {
        let mid = self.children.len() / 2;
        let right = self.children.split_off(mid);
        let floor = right[0].0.clone();
        proof {
            assert(old(self).seps()[mid as int] == old(self).children@[mid as int].0@);
        }
        let r = InnerNode {
            node: Node { node_type: NodeType::Inner, index_key: floor, parent, sibling: self.node.sibling },
            children: right,
        };
        self.node.sibling = Some(right_index);
        r
    }
}

/// Collecting the records that a key selects.
pub trait BaseNode {
    /// The condition under which `query` may be asked.
    spec fn ready(&self) -> bool;

    /// The entries that a query for `k` returns.
    spec fn matches(&self, k: Seq<char>) -> Seq<(Seq<char>, Seq<char>)>;

    /// Returns every stored entry whose key is the query's key.
    fn query(&self, query_index_key: &Query) -> (r: Vec<KeyData>)
        requires
            self.ready(),
        ensures
            entries_view(r@) == self.matches(query_index_key.query_str@),
    ;
}

impl BaseNode for DataNode {
    open spec fn ready(&self) -> bool {
        true
    }

    open spec fn matches(&self, k: Seq<char>) -> Seq<(Seq<char>, Seq<char>)> {
        matching(self.entries(), k)
    }

    fn query(&self, query_index_key: &Query) -> (r: Vec<KeyData>) {
        let ghost k = query_index_key.query_str@;
        let mut matches: Vec<KeyData> = Vec::new();
        let mut i: usize = 0;
        while i < self.children.len()
            invariant
                i <= self.children@.len(),
                k == query_index_key.query_str@,
                entries_view(matches@) == matching(self.entries().take(i as int), k),
            decreases self.children@.len() - i,
        {
            proof {
                assert(self.entries().take(i + 1).drop_last() =~= self.entries().take(i as int));
                assert(self.entries()[i as int] == entry_view(self.children@[i as int]));
            }
            if query_index_key.is_matched(&self.children[i].0) {
                matches.push((self.children[i].0.clone(), self.children[i].1.duplicate()));
                proof {
                    assert(entries_view(matches@) =~= matching(self.entries().take(i as int), k).push(
                        self.entries()[i as int]));
                }
            }
            i = i + 1;
        }
        proof {
            assert(self.entries().take(i as int) =~= self.entries());
        }
        matches
    }
}

} // verus!
