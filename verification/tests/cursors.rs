use flat_trie::cursor::{Cursor, CursorMove, EnterParentError, Entry, FindError, LongTree};

fn build() -> Cursor<LongTree<String, i32>> {
    let tree: LongTree<String, i32> = LongTree::new();
    let cursor = tree.cursor_mut();
    let cursor = cursor.child("a".to_string()).or_insert(None).enter();
    let cursor = cursor.child("a.a".to_string()).or_insert(Some(32)).enter();
    let cursor = cursor.child("a.a.a".to_string()).or_insert(Some(48)).enter();
    let cursor = cursor.child("a.a.a.a".to_string()).or_insert(None).cont();
    let cursor = cursor.parent().enter();
    let cursor = cursor.child("a.a.b".to_string()).or_insert(Some(83)).cont();
    let cursor = cursor.parent().enter().parent().enter();
    assert!(cursor.at_root());
    cursor.child("b".to_string()).or_insert(Some(64)).cont()
}

#[test]
fn entries_build_the_tree() {
    let cursor = build();
    assert!(cursor.at_root());
    assert_eq!(cursor.depth(), -1);
    assert_eq!(cursor.direct_children(), vec![&"a".to_string(), &"b".to_string()]);
    let a = cursor.child("a".to_string()).unwrap_occupied();
    assert_eq!(a.node(), "a");
    assert_eq!(a.leaf(), None);
    let cursor = a.enter();
    assert_eq!(cursor.depth(), 0);
    let cursor = cursor.child("a.a".to_string()).unwrap_occupied().enter();
    assert_eq!(cursor.node(), "a.a");
    assert_eq!(cursor.leaf(), Some(&32));
    assert_eq!(cursor.direct_children(), vec![&"a.a.a".to_string(), &"a.a.b".to_string()]);
    assert!(cursor.tree.0.verify_tree_integrity());
}

#[test]
fn occupied_entry_is_left_alone_by_or_insert() {
    let cursor = build();
    let before = cursor.tree.0.nodes.clone();
    let entry = cursor.child("b".to_string()).or_insert(Some(1));
    assert_eq!(entry.leaf(), Some(&64));
    let cursor = entry.cont();
    assert_eq!(cursor.tree.0.nodes, before);
}

#[test]
fn vacant_entry_tells_whether_its_key_is_new() {
    let cursor = build();
    let vacant = cursor.child("c".to_string()).unwrap_vacant();
    assert!(vacant.can_insert());
    let entry = vacant.insert(Some(5));
    assert_eq!(entry.node(), "c");
    assert_eq!(entry.leaf(), Some(&5));
    let cursor = entry.cont();
    assert_eq!(
        cursor.direct_children(),
        vec![&"a".to_string(), &"b".to_string(), &"c".to_string()]
    );
}

#[test]
fn siblings_are_entered_or_made() {
    let cursor = build();
    let cursor = cursor.child("a".to_string()).unwrap_occupied().enter();
    let cursor = match cursor.sibling(1) {
        Entry::Occupied(o) => {
            assert_eq!(o.node(), "b");
            o.enter()
        },
        Entry::Vacant(_) => panic!("b follows a"),
    };
    let cursor = match cursor.sibling(-1) {
        Entry::Occupied(o) => {
            assert_eq!(o.node(), "a");
            o.cont()
        },
        Entry::Vacant(_) => panic!("a comes before b"),
    };
    assert_eq!(cursor.node(), "b");
    let vacant = cursor.sibling(1).unwrap_vacant();
    let entry = vacant.insert_node("c".to_string(), None);
    assert_eq!(entry.node(), "c");
    let cursor = entry.cont();
    assert!(cursor.at_root());
    assert_eq!(
        cursor.direct_children(),
        vec![&"a".to_string(), &"b".to_string(), &"c".to_string()]
    );
    assert!(cursor.tree.0.verify_tree_integrity());
}

#[derive(Debug, Clone, PartialEq)]
struct Name(u8);

impl<'a> PartialEq<&'a Name> for Name {
    fn eq(&self, other: &&'a Name) -> bool {
        self.0 == other.0
    }
}

#[test]
fn cloned_key_is_put_in() {
    let tree: LongTree<Name, i32> = LongTree::new();
    let cursor = tree.cursor_mut();
    let first = Name(1);
    let second = Name(2);
    let cursor = cursor.child(&first).unwrap_vacant().insert_cloned(None).cont();
    let entry = cursor.child(&second).unwrap_vacant().insert_cloned(Some(11));
    assert_eq!(entry.node(), &Name(2));
    let cursor = entry.enter();
    assert_eq!(cursor.leaf(), Some(&11));
    assert_eq!(cursor.depth(), 0);
    let cursor = cursor.parent().enter();
    assert_eq!(cursor.direct_children(), vec![&Name(1), &Name(2)]);
    assert!(matches!(cursor.child(&first), Entry::Occupied(_)));
}

#[test]
fn value_is_changed_in_place() {
    let cursor = build();
    let mut entry = cursor.child("b".to_string()).unwrap_occupied();
    *entry.leaf_mut().unwrap() = 65;
    assert_eq!(entry.leaf(), Some(&65));
    let cursor = entry.cont();
    let mut a = cursor.child("a".to_string()).unwrap_occupied();
    assert!(a.leaf_mut().is_none());
}

#[test]
fn pruned_subtree_takes_its_values_along() {
    let cursor = build();
    let cursor = cursor.child("a".to_string()).unwrap_occupied().prune();
    assert!(cursor.at_root());
    assert_eq!(cursor.direct_children(), vec![&"b".to_string()]);
    assert_eq!(cursor.tree.0.leaves, vec![64]);
    let cursor = match cursor.find_leaf_after_wrapping(83) {
        Ok(_) => panic!("83 went with its node"),
        Err(c) => c,
    };
    let found = cursor.find_leaf_after_wrapping(64).ok().unwrap();
    assert_eq!(found.node(), "b");
    let cursor = found.enter();
    assert_eq!(cursor.node(), "b");
    let cursor = cursor.parent().enter();
    let tree = cursor.tree;
    assert!(tree.0.verify_tree_integrity());
}

#[test]
fn reading_cursor_walks_a_borrowed_tree() {
    let tree = build().tree;
    let cursor = tree.cursor();
    assert!(cursor.at_root());
    let found = cursor.find_leaf_after_wrapping(83).ok().unwrap();
    assert_eq!(found.node(), "a.a.b");
    assert_eq!(found.leaf(), Some(&83));
    let cursor = found.enter();
    assert_eq!(cursor.depth(), 2);
    let cursor = cursor.parent().enter();
    assert_eq!(cursor.node(), "a.a");
    assert_eq!(cursor.direct_children(), vec![&"a.a.a".to_string(), &"a.a.b".to_string()]);
    let entry = cursor.child("zz".to_string());
    assert!(matches!(entry, Entry::Vacant(_)));
}

#[test]
fn plain_enums_compare_by_variant() {
    assert_eq!(FindError::NodeNotFound, FindError::NodeNotFound);
    assert_eq!(EnterParentError::AtRoot, EnterParentError::AtRoot);
    let key = 3;
    let step = CursorMove::Child(&key);
    assert!(matches!(step, CursorMove::Child(k) if *k == 3));
    assert!(matches!(CursorMove::<i32>::Parent, CursorMove::Parent));
}
