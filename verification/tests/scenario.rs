use flat_trie::cursor::{Entry, LongTree};
use flat_trie::jump::RawCursor;
use flat_trie::raw::RawTrie;

fn keys_of(trie: &RawTrie<&'static str, i32>, cursor: RawCursor) -> Vec<&'static str> {
    trie.node_direct_children(cursor)
        .into_iter()
        .map(|c| *trie.get_node(c).unwrap())
        .collect()
}

fn child_of(trie: &RawTrie<&'static str, i32>, cursor: RawCursor, key: &str) -> RawCursor {
    trie.node_direct_children(cursor)
        .into_iter()
        .find(|c| *trie.get_node(*c).unwrap() == key)
        .unwrap()
}

fn build() -> RawTrie<&'static str, i32> {
    let mut trie: RawTrie<&'static str, i32> = RawTrie::new();
    let root = RawCursor::root();
    for key in ["a", "b", "c", "d"] {
        trie.insert_nodes_after(root, vec![key], None);
        assert!(trie.verify_tree_integrity());
    }
    let a = child_of(&trie, root, "a");
    let aa = trie.insert_nodes_after(a, vec!["a.a"], None);
    assert!(trie.verify_tree_integrity());
    trie.insert_nodes_after(aa, vec!["a.a.a"], Some(16));
    assert!(trie.verify_tree_integrity());
    let b = child_of(&trie, root, "b");
    trie.insert_nodes_after(b, vec!["b.a"], Some(64));
    assert!(trie.verify_tree_integrity());
    trie
}

#[test]
fn root_children_come_in_insertion_order() {
    let trie = build();
    assert_eq!(keys_of(&trie, RawCursor::root()), vec!["a", "b", "c", "d"]);
}

#[test]
fn chain_is_reached_child_by_child() {
    let trie = build();
    let root = RawCursor::root();
    let a = child_of(&trie, root, "a");
    let aa = child_of(&trie, a, "a.a");
    let aaa = child_of(&trie, aa, "a.a.a");
    assert_eq!(trie.get_node(aaa), Some(&"a.a.a"));
    assert_eq!(trie.get_leaf(aaa), Some(&16));
    assert_eq!(aaa.depth(), 2);
    assert_eq!(trie.get_leaf(aa), None);
}

#[test]
fn pruning_a_subtree_removes_its_values() {
    let mut trie = build();
    let root = RawCursor::root();
    let a = child_of(&trie, root, "a");
    let parent = trie.prune_node(a);
    assert!(trie.verify_tree_integrity());
    assert_eq!(parent, root);
    assert_eq!(keys_of(&trie, root), vec!["b", "c", "d"]);
    assert_eq!(trie.leaves, vec![64]);
    assert!(trie.find_leaf_after_wrapping_by(root, |l: &i32| *l == 16).is_none());
    let found = trie.find_leaf_after_wrapping_by(root, |l: &i32| *l == 64).unwrap();
    assert_eq!(trie.get_node(found), Some(&"b.a"));
    assert_eq!(trie.get_leaf(found), Some(&64));
}

#[test]
fn cursors_with_entries_build_the_same_tree() {
    let tree: LongTree<&'static str, i32> = LongTree::new();
    let cursor = tree.cursor_mut();
    let cursor = cursor.child("a").or_insert(None).cont();
    let cursor = cursor.child("b").or_insert(None).cont();
    let cursor = cursor.child("c").or_insert(None).cont();
    let cursor = cursor.child("d").or_insert(None).cont();
    let cursor = cursor.child("a").unwrap_occupied().enter();
    let cursor = cursor.child("a.a").or_insert(None).enter();
    let cursor = cursor.child("a.a.a").or_insert(Some(16)).enter();
    assert_eq!(*cursor.node(), "a.a.a");
    assert_eq!(cursor.leaf(), Some(&16));
    let cursor = cursor.parent().enter().parent().enter().parent().enter();
    assert!(cursor.at_root());
    let cursor = cursor.child("b").unwrap_occupied().enter();
    let cursor = cursor.child("b.a").or_insert(Some(64)).cont();
    let cursor = cursor.parent().enter();
    assert_eq!(cursor.direct_children(), vec![&"a", &"b", &"c", &"d"]);
    let cursor = match cursor.child("a") {
        Entry::Occupied(o) => o.prune(),
        Entry::Vacant(_) => panic!("a is there"),
    };
    assert!(cursor.at_root());
    assert_eq!(cursor.direct_children(), vec![&"b", &"c", &"d"]);
    let cursor = match cursor.find_leaf_after_wrapping(16) {
        Ok(_) => panic!("16 is gone"),
        Err(c) => c,
    };
    let found = match cursor.find_leaf_after_wrapping(64) {
        Ok(o) => o,
        Err(_) => panic!("64 is there"),
    };
    assert_eq!(*found.node(), "b.a");
}
