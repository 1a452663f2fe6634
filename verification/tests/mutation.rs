use flat_trie::jump::RawCursor;
use flat_trie::raw::RawTrie;

type Listing = Vec<(&'static str, isize, Option<i32>)>;

fn listing(trie: &RawTrie<&'static str, i32>) -> Listing {
    fn walk(trie: &RawTrie<&'static str, i32>, at: RawCursor, out: &mut Listing) {
        for c in trie.node_direct_children(at) {
            out.push((*trie.get_node(c).unwrap(), c.depth(), trie.get_leaf(c).copied()));
            walk(trie, c, out);
        }
    }
    let mut out = Vec::new();
    walk(trie, RawCursor::root(), &mut out);
    out
}

fn at(trie: &RawTrie<&'static str, i32>, path: &[&'static str]) -> RawCursor {
    trie.node_enter_children(RawCursor::root(), &path.to_vec()).unwrap()
}

fn build() -> RawTrie<&'static str, i32> {
    let mut trie: RawTrie<&'static str, i32> = RawTrie::new();
    let root = RawCursor::root();
    trie.insert_nodes_after(root, vec!["a", "b", "c"], Some(1));
    let c = at(&trie, &["a", "b", "c"]);
    trie.insert_nodes_after(c, vec!["d"], Some(2));
    let c = at(&trie, &["a", "b", "c"]);
    trie.insert_nodes_after(c, vec!["e", "f"], Some(3));
    trie.insert_nodes_after(root, vec!["g"], None);
    trie
}

#[test]
fn traversal_gives_back_what_was_put_in() {
    let trie = build();
    assert_eq!(
        listing(&trie),
        vec![
            ("a", 0, None),
            ("b", 1, None),
            ("c", 2, Some(1)),
            ("d", 3, Some(2)),
            ("e", 3, None),
            ("f", 4, Some(3)),
            ("g", 0, None),
        ]
    );
    assert!(trie.verify_tree_integrity());
}

#[test]
fn new_child_comes_last_among_its_siblings() {
    let mut trie = build();
    let b = at(&trie, &["a", "b"]);
    let x = trie.insert_nodes_after(b, vec!["x", "y"], Some(9));
    assert!(trie.verify_tree_integrity());
    assert_eq!(trie.get_node(x), Some(&"y"));
    assert_eq!(x.depth(), 3);
    assert_eq!(
        listing(&trie),
        vec![
            ("a", 0, None),
            ("b", 1, None),
            ("c", 2, Some(1)),
            ("d", 3, Some(2)),
            ("e", 3, None),
            ("f", 4, Some(3)),
            ("x", 2, None),
            ("y", 3, Some(9)),
            ("g", 0, None),
        ]
    );
    let b = at(&trie, &["a", "b"]);
    let keys: Vec<&str> =
        trie.node_direct_children(b).into_iter().map(|c| *trie.get_node(c).unwrap()).collect();
    assert_eq!(keys, vec!["c", "x"]);
}

#[test]
fn pruning_what_was_put_in_gives_the_tree_back() {
    for path in [&[][..], &["a"][..], &["a", "b"][..], &["a", "b", "c"][..], &["a", "b", "c", "d"][..], &["g"][..]] {
        for value in [None, Some(7)] {
            let mut trie = build();
            let before = listing(&trie);
            let nodes = trie.nodes.clone();
            let under = at(&trie, path);
            let last = trie.insert_nodes_after(under, vec!["p", "q"], value);
            assert!(trie.verify_tree_integrity());
            assert_ne!(listing(&trie), before);
            let first = trie.node_parent(last).unwrap();
            assert_eq!(trie.get_node(first), Some(&"p"));
            let back = trie.prune_node(first);
            assert!(trie.verify_tree_integrity());
            assert_eq!(trie.get_node(back), trie.get_node(at(&trie, path)));
            assert_eq!(back.node_index, at(&trie, path).node_index);
            assert_eq!(listing(&trie), before);
            assert_eq!(trie.nodes, nodes);
            let mut values = trie.leaves.clone();
            values.sort();
            assert_eq!(values, vec![1, 2, 3]);
        }
    }
}

#[test]
fn pruning_inside_a_run_cuts_the_run() {
    let mut trie = build();
    let b = at(&trie, &["a", "b"]);
    let back = trie.prune_node(b);
    assert!(trie.verify_tree_integrity());
    assert_eq!(trie.get_node(back), Some(&"a"));
    assert_eq!(listing(&trie), vec![("a", 0, None), ("g", 0, None)]);
    assert!(trie.leaves.is_empty());
    assert_eq!(trie.jumps.len(), 3);
    // The run of a may grow again.
    let a = at(&trie, &["a"]);
    trie.insert_nodes_after(a, vec!["h"], Some(8));
    assert_eq!(listing(&trie), vec![("a", 0, None), ("h", 1, Some(8)), ("g", 0, None)]);
    assert!(trie.verify_tree_integrity());
}

#[test]
fn pruning_the_only_child_leaves_the_value_of_the_parent() {
    let mut trie = build();
    let e = at(&trie, &["a", "b", "c", "e"]);
    trie.prune_node(e);
    let d = at(&trie, &["a", "b", "c", "d"]);
    let c = trie.prune_node(d);
    assert!(trie.verify_tree_integrity());
    assert_eq!(trie.get_node(c), Some(&"c"));
    assert_eq!(trie.get_leaf(c), Some(&1));
    assert!(trie.node_direct_children(c).is_empty());
    assert_eq!(
        listing(&trie),
        vec![("a", 0, None), ("b", 1, None), ("c", 2, Some(1)), ("g", 0, None)]
    );
    assert_eq!(trie.leaves, vec![1]);
}

#[test]
fn pruning_the_first_child_keeps_the_others() {
    let mut trie = build();
    let d = at(&trie, &["a", "b", "c", "d"]);
    let c = trie.prune_node(d);
    assert!(trie.verify_tree_integrity());
    let keys: Vec<&str> =
        trie.node_direct_children(c).into_iter().map(|k| *trie.get_node(k).unwrap()).collect();
    assert_eq!(keys, vec!["e"]);
    assert_eq!(trie.leaves, vec![1, 3]);
}

#[test]
fn pruning_the_root_empties_the_trie() {
    let mut trie = build();
    let back = trie.prune_node(RawCursor::root());
    assert_eq!(back, RawCursor::root());
    assert!(trie.nodes.is_empty());
    assert!(trie.leaves.is_empty());
    assert_eq!(trie.jumps.len(), 1);
    assert!(listing(&trie).is_empty());
    assert!(trie.verify_tree_integrity());
    trie.insert_nodes_after(back, vec!["z"], Some(1));
    assert_eq!(listing(&trie), vec![("z", 0, Some(1))]);
}

#[test]
fn values_keep_the_order_of_the_table() {
    let mut trie = build();
    let a = at(&trie, &["a"]);
    trie.insert_nodes_after(a, vec!["s"], Some(4));
    let b = at(&trie, &["a", "b"]);
    trie.insert_nodes_after(b, vec!["t"], Some(5));
    assert!(trie.verify_tree_integrity());
    let mut ranks = Vec::new();
    for jump in &trie.jumps {
        if let Some(rank) = jump.next_major_node.leaf_index() {
            ranks.push(rank);
        }
    }
    assert_eq!(ranks, (0..trie.leaves.len()).collect::<Vec<usize>>());
    let mut values = trie.leaves.clone();
    values.sort();
    assert_eq!(values, vec![1, 2, 3, 4, 5]);
    for path in [&["a", "s"][..], &["a", "b", "t"][..], &["a", "b", "c"][..], &["a", "b", "c", "d"][..]] {
        let cursor = at(&trie, path);
        assert!(trie.get_leaf(cursor).is_some());
    }
    assert_eq!(trie.get_leaf(at(&trie, &["a", "s"])), Some(&4));
    assert_eq!(trie.get_leaf(at(&trie, &["a", "b", "t"])), Some(&5));
    assert_eq!(trie.get_leaf(at(&trie, &["a", "b", "c", "e", "f"])), Some(&3));
}
