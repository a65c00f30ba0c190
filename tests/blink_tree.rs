use blink_tree::keys::less_than;
use blink_tree::node::{BaseNode, DataNode, DataRecord, InnerNode, Node, NodeType, Query};
use blink_tree::tree::{BLinkTree, TreeError, DEFAULT_FAN_OUT, DEFAULT_LEAF_CAPACITY};

fn query(k: &str) -> Query {
    Query::new(&k.to_string(), &String::new())
}

fn pairs<T: BaseNode>(t: &T, k: &str) -> Vec<(String, String)> {
    t.query(&query(k)).iter().map(|(key, rec)| (key.clone(), rec.data.clone())).collect()
}

fn put(t: &mut BLinkTree, k: &str, v: &str) {
    t.upsert(&k.to_string(), &v.to_string());
}

fn header(kind: NodeType) -> Node {
    Node { node_type: kind, index_key: String::new(), parent: None, sibling: None }
}

fn keys(n: usize) -> Vec<String> {
    (0..n).map(|i| format!("k{:03}", i)).collect()
}

fn fill(order: &[String], c: usize, f: usize) -> BLinkTree {
    let mut t = BLinkTree::with_capacity(c, f).unwrap();
    for k in order {
        t.upsert(k, &format!("v-{}", k));
    }
    t
}

#[test]
fn empty_tree_query_is_empty() {
    let t = BLinkTree::new();
    assert_eq!(pairs(&t, "nope"), vec![]);
    assert_eq!(pairs(&t, ""), vec![]);
    assert_eq!(t.height(), 0);
    assert_eq!(t.node_count(), 0);
    assert_eq!(t.root_children(), 0);
}

#[test]
fn single_upsert_then_query() {
    let mut t = BLinkTree::new();
    put(&mut t, "a", "1");
    assert_eq!(pairs(&t, "a"), vec![("a".to_string(), "1".to_string())]);
    assert_eq!(t.height(), 1);
    assert_eq!(t.node_count(), 1);
}

#[test]
fn leaf_split_with_capacity_two() {
    let mut t = BLinkTree::with_capacity(2, 4).unwrap();
    put(&mut t, "a", "1");
    put(&mut t, "b", "2");
    assert_eq!(t.height(), 1);
    assert_eq!(t.root_children(), 0);
    put(&mut t, "c", "3");
    assert_eq!(pairs(&t, "a"), vec![("a".to_string(), "1".to_string())]);
    assert_eq!(pairs(&t, "b"), vec![("b".to_string(), "2".to_string())]);
    assert_eq!(pairs(&t, "c"), vec![("c".to_string(), "3".to_string())]);
    assert_eq!(t.root_children(), 2);
    assert_eq!(t.height(), 2);
    assert_eq!(t.node_count(), 3);
}

#[test]
fn missing_key_on_non_empty_tree() {
    let mut t = BLinkTree::new();
    put(&mut t, "a", "1");
    put(&mut t, "m", "2");
    assert_eq!(pairs(&t, "missing"), vec![]);
    assert_eq!(pairs(&t, ""), vec![]);
    assert_eq!(pairs(&t, "zzz"), vec![]);
}

#[test]
fn second_upsert_replaces_payload() {
    let mut t = BLinkTree::with_capacity(2, 2).unwrap();
    put(&mut t, "k", "first");
    put(&mut t, "k", "second");
    assert_eq!(pairs(&t, "k"), vec![("k".to_string(), "second".to_string())]);
    for k in ["a", "b", "c", "d", "e"] {
        put(&mut t, k, "x");
    }
    put(&mut t, "k", "third");
    assert_eq!(pairs(&t, "k"), vec![("k".to_string(), "third".to_string())]);
    assert_eq!(pairs(&t, "c"), vec![("c".to_string(), "x".to_string())]);
}

#[test]
fn round_trip_ascending_descending_interleaved() {
    let ks = keys(60);
    let mut desc = ks.clone();
    desc.reverse();
    let mut inter: Vec<String> = Vec::new();
    for i in 0..30 {
        inter.push(ks[i].clone());
        inter.push(ks[59 - i].clone());
    }
    for order in [ks.clone(), desc, inter] {
        for (c, f) in [(2, 2), (2, 3), (3, 2), (4, 4)] {
            let t = fill(&order, c, f);
            for k in &ks {
                assert_eq!(pairs(&t, k), vec![(k.clone(), format!("v-{}", k))]);
            }
            assert_eq!(pairs(&t, "k0005"), vec![]);
            assert_eq!(pairs(&t, "a"), vec![]);
            assert_eq!(pairs(&t, "z"), vec![]);
        }
    }
}

#[test]
fn height_growth_examples() {
    let asc = |n: usize| keys(n);
    let desc = |n: usize| {
        let mut v = keys(n);
        v.reverse();
        v
    };
    assert_eq!(fill(&asc(1), 2, 2).height(), 1);
    assert_eq!(fill(&asc(3), 2, 2).height(), 2);
    assert_eq!(fill(&asc(4), 2, 2).height(), 3);
    assert_eq!(fill(&desc(4), 2, 2).height(), 2);
    assert_eq!(fill(&asc(10), 4, 4).height(), 2);
    assert_eq!(fill(&asc(10), 4, 4).root_children(), 4);
    assert_eq!(fill(&desc(10), 4, 4).root_children(), 3);
    assert_eq!(fill(&asc(100), 4, 4).height(), 6);
    assert_eq!(fill(&desc(100), 4, 4).height(), 4);
    assert_eq!(fill(&asc(100), 2, 3).height(), 7);
    assert_eq!(fill(&asc(64), 4, 4).height(), 5);
}

#[test]
fn height_grows_by_at_most_one_per_insert() {
    let mut t = BLinkTree::with_capacity(2, 2).unwrap();
    let mut last = t.height();
    for k in keys(40) {
        t.upsert(&k, &k);
        let h = t.height();
        assert!(h == last || h == last + 1);
        last = h;
    }
}

#[test]
fn capacity_misconfiguration_rejected() {
    assert_eq!(BLinkTree::with_capacity(1, 4).err(), Some(TreeError::CapacityMisconfiguration));
    assert_eq!(BLinkTree::with_capacity(4, 1).err(), Some(TreeError::CapacityMisconfiguration));
    assert_eq!(BLinkTree::with_capacity(0, 0).err(), Some(TreeError::CapacityMisconfiguration));
    assert!(BLinkTree::with_capacity(2, 2).is_ok());
    assert_eq!(DEFAULT_LEAF_CAPACITY, 4);
    assert_eq!(DEFAULT_FAN_OUT, 4);
}

#[test]
fn query_predicates() {
    let q = query("m");
    assert!(q.is_in_range_of(&"n".to_string()));
    assert!(!q.is_in_range_of(&"m".to_string()));
    assert!(!q.is_in_range_of(&"a".to_string()));
    assert!(q.is_matched(&"m".to_string()));
    assert!(!q.is_matched(&"mm".to_string()));
}

#[test]
fn key_order_is_lexicographic() {
    let s = |x: &str| x.to_string();
    assert!(less_than(&s("a"), &s("b")));
    assert!(less_than(&s("a"), &s("ab")));
    assert!(less_than(&s("ab"), &s("b")));
    assert!(less_than(&s(""), &s("a")));
    assert!(!less_than(&s("a"), &s("")));
    assert!(!less_than(&s("abc"), &s("abc")));
    assert!(less_than(&s("z"), &s("\u{e9}")));
    assert!(!less_than(&s("b"), &s("ab")));
}

#[test]
fn unicode_and_empty_keys() {
    let mut t = BLinkTree::with_capacity(2, 2).unwrap();
    for k in ["\u{e9}t\u{e9}", "", "zeta", "\u{3b1}", "a"] {
        put(&mut t, k, k);
    }
    for k in ["\u{e9}t\u{e9}", "", "zeta", "\u{3b1}", "a"] {
        assert_eq!(pairs(&t, k), vec![(k.to_string(), k.to_string())]);
    }
}

#[test]
fn data_node_add_keeps_duplicates_in_order() {
    let mut d = DataNode { node: header(NodeType::Data), children: Vec::new() };
    d.add(&Query::new(&"b".to_string(), &"1".to_string()));
    d.add(&Query::new(&"a".to_string(), &"2".to_string()));
    d.add(&Query::new(&"b".to_string(), &"3".to_string()));
    assert_eq!(
        pairs(&d, "b"),
        vec![("b".to_string(), "1".to_string()), ("b".to_string(), "3".to_string())]
    );
    assert_eq!(pairs(&d, "a"), vec![("a".to_string(), "2".to_string())]);
    assert_eq!(pairs(&d, "c"), vec![]);
}

#[test]
fn data_node_upsert_orders_and_replaces() {
    let mut d = DataNode { node: header(NodeType::Data), children: Vec::new() };
    for (k, v) in [("m", "1"), ("c", "2"), ("x", "3"), ("c", "4")] {
        d.upsert(&Query::new(&k.to_string(), &v.to_string()));
    }
    let got: Vec<(String, String)> =
        d.children.iter().map(|(k, r)| (k.clone(), r.data.clone())).collect();
    assert_eq!(
        got,
        vec![
            ("c".to_string(), "4".to_string()),
            ("m".to_string(), "1".to_string()),
            ("x".to_string(), "3".to_string()),
        ]
    );
}

#[test]
fn inner_node_locates_first_separator_above_key() {
    let n = InnerNode {
        node: header(NodeType::Inner),
        children: vec![("".to_string(), 0), ("g".to_string(), 1), ("p".to_string(), 2)],
    };
    assert_eq!(n.locate_range_key(&query("a")), Some(1));
    assert_eq!(n.locate_range_key(&query("g")), Some(2));
    assert_eq!(n.locate_range_key(&query("h")), Some(2));
    assert_eq!(n.locate_range_key(&query("p")), None);
    assert_eq!(n.locate_range_key(&query("zz")), None);
}

#[test]
fn data_record_copies_payload() {
    let r = DataRecord::new(&"payload".to_string());
    assert_eq!(r.duplicate().data, "payload");
}

#[test]
fn data_node_split_moves_upper_half() {
    let mut d = DataNode { node: header(NodeType::Data), children: Vec::new() };
    for k in ["a", "b", "c", "d", "e"] {
        d.upsert(&Query::new(&k.to_string(), &k.to_uppercase()));
    }
    let r = d.split(7, Some(3));
    let left: Vec<String> = d.children.iter().map(|(k, _)| k.clone()).collect();
    let right: Vec<String> = r.children.iter().map(|(k, _)| k.clone()).collect();
    assert_eq!(left, vec!["a".to_string(), "b".to_string()]);
    assert_eq!(right, vec!["c".to_string(), "d".to_string(), "e".to_string()]);
    assert_eq!(r.node.index_key, "c");
    assert_eq!(d.node.sibling, Some(7));
    assert_eq!(r.node.sibling, None);
    assert_eq!(r.node.parent, Some(3));
    assert_eq!(r.children[0].1.data, "C");
}

#[test]
fn inner_node_split_moves_upper_half() {
    let mut n = InnerNode {
        node: header(NodeType::Inner),
        children: vec![
            ("".to_string(), 0),
            ("f".to_string(), 1),
            ("m".to_string(), 2),
            ("t".to_string(), 3),
        ],
    };
    n.node.sibling = Some(9);
    let r = n.split(4, None);
    assert_eq!(n.children, vec![("".to_string(), 0), ("f".to_string(), 1)]);
    assert_eq!(r.children, vec![("m".to_string(), 2), ("t".to_string(), 3)]);
    assert_eq!(r.node.index_key, "m");
    assert_eq!(n.node.sibling, Some(4));
    assert_eq!(r.node.sibling, Some(9));
}

fn six_keys() -> BLinkTree {
    let mut t = BLinkTree::with_capacity(2, 4).unwrap();
    for k in ["a", "b", "c", "d", "e", "f"] {
        put(&mut t, k, k);
    }
    t
}

#[test]
fn root_split_gives_expected_arena() {
    let t = six_keys();
    assert_eq!(t.root(), Some(7));
    assert_eq!(t.node_count(), 8);
    assert_eq!(t.root_children(), 2);
    assert_eq!(t.height(), 3);
}

#[test]
fn routing_steps_right_from_a_stale_inner_node() {
    let t = six_keys();
    // Node 2 was the root before it split; keys from "c" on moved to its sibling.
    assert_eq!(t.query_datanode(2, &query("f")), 5);
    assert_eq!(t.query_thru_sibling(2, &query("f")), 5);
    assert_eq!(t.query_thru_sibling(2, &query("bz")), 1);
    assert_eq!(t.query_datanode(7, &query("f")), 5);
    assert_eq!(t.query_datanode(2, &query("a")), 0);
}

#[test]
fn routing_steps_right_along_the_leaves() {
    let t = six_keys();
    assert_eq!(t.query_datanode(0, &query("f")), 5);
    assert_eq!(t.query_datanode(0, &query("c")), 3);
    assert_eq!(t.query_datanode(0, &query("a")), 0);
    assert_eq!(t.query_thru_last(2, &query("f")), 5);
    assert_eq!(t.query_thru_last(2, &query("bz")), 1);
    let root = t.root().unwrap();
    for k in ["", "a", "b", "bb", "c", "d", "e", "f", "zz"] {
        assert_eq!(t.query_datanode(0, &query(k)), t.query_datanode(root, &query(k)));
    }
}
