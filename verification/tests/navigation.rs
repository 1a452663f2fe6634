use flat_trie::jump::RawCursor;
use flat_trie::raw::RawTrie;

fn child(trie: &RawTrie<&'static str, i32>, at: RawCursor, key: &'static str) -> RawCursor {
    trie.child_by_key(at, &key).unwrap()
}

/// root
///   a
///     a1 (1)
///       a2
///         a3 (3)
///     a4 (4)
///   b (2)
///     b1
///   c
fn build() -> RawTrie<&'static str, i32> {
    let mut trie: RawTrie<&'static str, i32> = RawTrie::new();
    let root = RawCursor::root();
    trie.insert_nodes_after(root, vec!["a", "a1"], Some(1));
    trie.insert_nodes_after(root, vec!["b"], Some(2));
    trie.insert_nodes_after(root, vec!["c"], None);
    let a = child(&trie, root, "a");
    let a1 = child(&trie, a, "a1");
    trie.insert_nodes_after(a1, vec!["a2", "a3"], Some(3));
    let a = child(&trie, root, "a");
    trie.insert_nodes_after(a, vec!["a4"], Some(4));
    let b = child(&trie, root, "b");
    trie.insert_nodes_after(b, vec!["b1"], None);
    assert!(trie.verify_tree_integrity());
    trie
}

#[test]
fn listing_is_in_preorder() {
    let trie = build();
    assert_eq!(trie.nodes, vec!["a", "a1", "a2", "a3", "a4", "b", "b1", "c"]);
}

#[test]
fn children_come_in_order() {
    let trie = build();
    let root = RawCursor::root();
    let keys = |at| -> Vec<&str> {
        trie.node_direct_children(at).into_iter().map(|c| *trie.get_node(c).unwrap()).collect()
    };
    assert_eq!(keys(root), vec!["a", "b", "c"]);
    let a = child(&trie, root, "a");
    assert_eq!(keys(a), vec!["a1", "a4"]);
    let a1 = child(&trie, a, "a1");
    assert_eq!(keys(a1), vec!["a2"]);
    let a2 = child(&trie, a1, "a2");
    assert_eq!(keys(a2), vec!["a3"]);
    let a3 = child(&trie, a2, "a3");
    assert_eq!(keys(a3), Vec::<&str>::new());
    assert_eq!(a3.depth(), 3);
    assert_eq!(trie.child_by_key(a, &"zz"), None);
}

#[test]
fn parent_of_every_child_is_the_node() {
    let trie = build();
    let mut stack = vec![RawCursor::root()];
    while let Some(at) = stack.pop() {
        for c in trie.node_direct_children(at) {
            assert_eq!(trie.node_parent(c), Some(at));
            assert_eq!(c.depth(), at.depth() + 1);
            stack.push(c);
        }
    }
    assert_eq!(trie.node_parent(RawCursor::root()), None);
}

#[test]
fn siblings_are_each_others_neighbours() {
    let trie = build();
    let root = RawCursor::root();
    let a = child(&trie, root, "a");
    let b = child(&trie, root, "b");
    let c = child(&trie, root, "c");
    assert_eq!(trie.get_sibling(a, 1), Some(b));
    assert_eq!(trie.get_sibling(b, -1), Some(a));
    assert_eq!(trie.get_sibling(a, 2), Some(c));
    assert_eq!(trie.get_sibling(c, -2), Some(a));
    assert_eq!(trie.get_sibling(b, 0), Some(b));
    assert_eq!(trie.get_sibling(c, 1), None);
    assert_eq!(trie.get_sibling(a, -1), None);
    assert_eq!(trie.get_sibling(a, isize::MAX), None);
    assert_eq!(trie.get_sibling(a, isize::MIN), None);
    let a1 = child(&trie, a, "a1");
    let a4 = child(&trie, a, "a4");
    assert_eq!(trie.get_sibling(a1, 1), Some(a4));
    assert_eq!(trie.get_sibling(a4, -1), Some(a1));
    assert_eq!(trie.get_sibling(a4, 1), None);
    // A node inside a run is an only child.
    let a2 = child(&trie, a1, "a2");
    let a3 = child(&trie, a2, "a3");
    assert_eq!(trie.get_sibling(a3, 1), None);
    assert_eq!(trie.get_sibling(a3, -1), None);
}

#[test]
fn last_descendant_ends_the_subtree() {
    let trie = build();
    let root = RawCursor::root();
    let a = child(&trie, root, "a");
    let a1 = child(&trie, a, "a1");
    let b = child(&trie, root, "b");
    let c = child(&trie, root, "c");
    assert_eq!(*trie.get_node(trie.last_child_node(root)).unwrap(), "c");
    assert_eq!(*trie.get_node(trie.last_child_node(a)).unwrap(), "a4");
    assert_eq!(*trie.get_node(trie.last_child_node(a1)).unwrap(), "a3");
    assert_eq!(*trie.get_node(trie.last_child_node(b)).unwrap(), "b1");
    assert_eq!(trie.last_child_node(c), c);
}

#[test]
fn values_sit_on_their_nodes() {
    let mut trie = build();
    let root = RawCursor::root();
    let a = child(&trie, root, "a");
    let a1 = child(&trie, a, "a1");
    let a4 = child(&trie, a, "a4");
    let b = child(&trie, root, "b");
    assert_eq!(trie.get_leaf(a), None);
    assert_eq!(trie.get_leaf(a1), Some(&1));
    assert_eq!(trie.get_leaf(a4), Some(&4));
    assert_eq!(trie.get_leaf(b), Some(&2));
    assert_eq!(trie.get_leaf_index(a), None);
    let rank = trie.get_leaf_index(b).unwrap();
    assert_eq!(trie.leaves[rank], 2);
    *trie.get_leaf_mut(b).unwrap() = 20;
    assert_eq!(trie.get_leaf(b), Some(&20));
    assert!(trie.get_leaf_mut(a).is_none());
    assert_eq!(trie.get_leaf(a1), Some(&1));
    assert!(trie.verify_tree_integrity());
}

#[test]
fn common_ancestor_is_the_innermost_record() {
    let trie = build();
    let root = RawCursor::root();
    let a = child(&trie, root, "a");
    let a1 = child(&trie, a, "a1");
    let a2 = child(&trie, a1, "a2");
    let a3 = child(&trie, a2, "a3");
    let a4 = child(&trie, a, "a4");
    let b = child(&trie, root, "b");
    let b1 = child(&trie, b, "b1");
    assert_eq!(trie.common_ancestor(a3, a4), a);
    assert_eq!(trie.common_ancestor(a4, a3), a);
    assert_eq!(trie.common_ancestor(a3, b1), root);
    assert_eq!(trie.common_ancestor(a1, a3), a1);
    assert_eq!(trie.common_ancestor(root, a3), root);
    // Two nodes of one run meet in the major node of the run.
    assert_eq!(trie.common_ancestor(a2, a3), a3);
    // b carries a value, so its run ends with it, and b1 has a record of its own.
    assert_eq!(trie.common_ancestor(b, b1), b);
}

#[test]
fn route_names_the_keys_between() {
    let trie = build();
    let root = RawCursor::root();
    let a = child(&trie, root, "a");
    let a1 = child(&trie, a, "a1");
    let a2 = child(&trie, a1, "a2");
    let a3 = child(&trie, a2, "a3");
    let b = child(&trie, root, "b");
    assert_eq!(trie.route_to_descendant(root, a3), vec![&"a", &"a1", &"a2"]);
    assert_eq!(trie.route_to_descendant(a, a3), vec![&"a1", &"a2"]);
    assert_eq!(trie.route_to_descendant(a2, a3), Vec::<&&str>::new());
    assert_eq!(trie.route_to_descendant(a3, a3), Vec::<&&str>::new());
    assert_eq!(trie.route_to_descendant(root, b), Vec::<&&str>::new());
    assert!(trie.node_is_descendant(a, a3));
    assert!(trie.node_is_descendant(a3, a3));
    assert!(trie.node_is_descendant(root, b));
    assert!(!trie.node_is_descendant(b, a3));
    assert!(!trie.node_is_descendant(a3, a));
}

#[test]
fn entering_follows_the_keys() {
    let trie = build();
    let root = RawCursor::root();
    let a = child(&trie, root, "a");
    let a1 = child(&trie, a, "a1");
    let a2 = child(&trie, a1, "a2");
    let a3 = child(&trie, a2, "a3");
    assert_eq!(trie.node_enter_children(root, &vec!["a", "a1", "a2", "a3"]), Ok(a3));
    assert_eq!(trie.node_enter_children(root, &vec![]), Ok(root));
    assert_eq!(trie.node_enter_children(a1, &vec!["a2"]), Ok(a2));
    assert_eq!(trie.node_enter_children(root, &vec!["a", "a1", "x", "a3"]), Err((a1, 2)));
    assert_eq!(trie.node_enter_children(root, &vec!["x"]), Err((root, 0)));
    assert_eq!(trie.node_enter_children(a3, &vec!["x"]), Err((a3, 0)));
}

#[test]
fn search_walks_round_the_table() {
    let trie = build();
    let root = RawCursor::root();
    let a = child(&trie, root, "a");
    let a1 = child(&trie, a, "a1");
    let a4 = child(&trie, a, "a4");
    let b = child(&trie, root, "b");
    for start in [root, a, a1, a4, b] {
        for v in [1, 2, 3, 4] {
            let found = trie.find_leaf_after_wrapping_by(start, |l: &i32| *l == v).unwrap();
            assert_eq!(trie.get_leaf(found), Some(&v));
        }
        assert_eq!(trie.find_leaf_after_wrapping_by(start, |l: &i32| *l == 9), None);
    }
    // The walk starts behind the record of the cursor: from b, whose record
    // carries 2, the next value that is even is 4, and 2 comes last.
    let next = trie.find_leaf_after_wrapping_by(b, |l: &i32| *l % 2 == 0).unwrap();
    assert_eq!(trie.get_leaf(next), Some(&4));
    let again = trie.find_leaf_after_wrapping_by(next, |l: &i32| *l % 2 == 0).unwrap();
    assert_eq!(trie.get_leaf(again), Some(&2));
    let empty: RawTrie<&str, i32> = RawTrie::new();
    assert_eq!(empty.find_leaf_after_wrapping_by(RawCursor::root(), |_l: &i32| true), None);
    assert_eq!(trie.find_leaf_by(&|l: &i32| *l > 0, 0, 0), None);
}
