use flat_trie::jump::{Jump, MajorNode, RawCursor};
use flat_trie::raw::RawTrie;
use flat_trie::thin::{new_indices, thin_out};

fn jump(parent: isize, to: isize, dist: usize, major: MajorNode, depth: isize) -> Jump {
    Jump {
        parent_jump_index: parent,
        jump_to_node: to,
        next_major_node_dist: dist,
        next_major_node: major,
        depth,
    }
}

fn leaf(rank: Option<usize>) -> MajorNode {
    MajorNode::Leaf { leaf_index: rank }
}

#[test]
fn empty_trie_holds_the_root_record_alone() {
    let trie: RawTrie<u8, u8> = RawTrie::new();
    assert!(trie.nodes.is_empty());
    assert!(trie.leaves.is_empty());
    assert_eq!(trie.jumps, vec![jump(-1, -1, 0, leaf(None), -1)]);
    assert_eq!(Jump::default_root(), jump(-1, -1, 0, leaf(None), -1));
    assert!(trie.verify_tree_integrity());
    assert!(trie.is_valid_cursor(RawCursor::root()));
    assert!(trie.node_direct_children(RawCursor::root()).is_empty());
    assert_eq!(trie.get_node(RawCursor::root()), None);
    assert_eq!(trie.get_leaf(RawCursor::root()), None);
    assert_eq!(trie.node_parent(RawCursor::root()), None);
}

#[test]
fn first_child_extends_the_run_of_the_root() {
    let mut trie: RawTrie<&str, u8> = RawTrie::new();
    let at = trie.insert_nodes_after(RawCursor::root(), vec!["a"], Some(7));
    assert_eq!(at, RawCursor { node_index: 0, parent_jump_index: 0, depth: 0 });
    assert_eq!(trie.nodes, vec!["a"]);
    assert_eq!(trie.leaves, vec![7]);
    assert_eq!(trie.jumps, vec![jump(-1, -1, 1, leaf(Some(0)), -1)]);
}

#[test]
fn chain_extends_the_run_by_its_length() {
    let mut trie: RawTrie<&str, u8> = RawTrie::new();
    let at = trie.insert_nodes_after(RawCursor::root(), vec!["a", "b", "c"], Some(7));
    assert_eq!(at, RawCursor { node_index: 2, parent_jump_index: 0, depth: 2 });
    assert_eq!(trie.nodes, vec!["a", "b", "c"]);
    assert_eq!(trie.jumps, vec![jump(-1, -1, 3, leaf(Some(0)), -1)]);
    let more = trie.insert_nodes_after(at, vec!["d", "e"], None);
    assert_eq!(more, RawCursor { node_index: 4, parent_jump_index: 1, depth: 4 });
    assert_eq!(
        trie.jumps,
        vec![
            jump(-1, -1, 3, MajorNode::LeafJump { leaf_index: 0, child_jump_index: 1 }, -1),
            jump(0, 3, 1, leaf(None), 3),
        ]
    );
}

#[test]
fn empty_chain_changes_nothing() {
    let mut trie: RawTrie<&str, u8> = RawTrie::new();
    let at = trie.insert_nodes_after(RawCursor::root(), vec!["a"], None);
    let same = trie.insert_nodes_after(at, vec![], Some(3));
    assert_eq!(same, at);
    assert_eq!(trie.nodes, vec!["a"]);
    assert!(trie.leaves.is_empty());
    assert_eq!(trie.jumps, vec![jump(-1, -1, 1, leaf(None), -1)]);
}

#[test]
fn second_child_cuts_the_run_and_branches() {
    let mut trie: RawTrie<&str, u8> = RawTrie::new();
    let root = RawCursor::root();
    trie.insert_nodes_after(root, vec!["a"], None);
    let b = trie.insert_nodes_after(root, vec!["b"], Some(5));
    assert_eq!(b, RawCursor { node_index: 1, parent_jump_index: 2, depth: 0 });
    assert_eq!(trie.nodes, vec!["a", "b"]);
    assert_eq!(trie.leaves, vec![5]);
    assert_eq!(
        trie.jumps,
        vec![
            jump(-1, -1, 0, MajorNode::Jump { child_jump_index: 1 }, -1),
            jump(0, 0, 0, leaf(None), 0),
            jump(0, 1, 0, leaf(Some(0)), 0),
        ]
    );
    let c = trie.insert_nodes_after(root, vec!["c"], None);
    assert_eq!(c, RawCursor { node_index: 2, parent_jump_index: 3, depth: 0 });
    assert_eq!(trie.jumps.len(), 4);
    assert_eq!(trie.jumps[3], jump(0, 2, 0, leaf(None), 0));
}

#[test]
fn cut_moves_the_records_below_one_generation_down() {
    // a - b - c with children x, y below c, and z below x.
    let mut trie: RawTrie<&str, u8> = RawTrie::new();
    let root = RawCursor::root();
    let c = trie.insert_nodes_after(root, vec!["a", "b", "c"], Some(1));
    let x = trie.insert_nodes_after(c, vec!["x"], Some(2));
    trie.insert_nodes_after(c, vec!["y"], Some(3));
    let x = trie.node_direct_children(c).into_iter().find(|k| k.node_index == x.node_index).unwrap();
    trie.insert_nodes_after(x, vec!["z"], Some(4));
    trie.insert_nodes_after(x, vec!["w"], Some(5));
    assert!(trie.verify_tree_integrity());
    assert_eq!(trie.nodes, vec!["a", "b", "c", "x", "z", "w", "y"]);
    assert_eq!(trie.leaves, vec![1, 2, 3, 4, 5]);
    // A new child below a, in the middle of the run, cuts the run after a.
    let a = RawCursor { node_index: 0, parent_jump_index: 0, depth: 0 };
    assert!(trie.is_valid_cursor(a));
    let n = trie.insert_nodes_after(a, vec!["n"], Some(6));
    assert!(trie.verify_tree_integrity());
    assert_eq!(trie.nodes, vec!["a", "b", "c", "x", "z", "w", "y", "n"]);
    assert_eq!(trie.get_node(n), Some(&"n"));
    assert_eq!(trie.get_leaf(n), Some(&6));
    assert_eq!(
        trie.jumps,
        vec![
            jump(-1, -1, 1, MajorNode::Jump { child_jump_index: 1 }, -1),
            jump(0, 1, 1, MajorNode::LeafJump { leaf_index: 0, child_jump_index: 3 }, 1),
            jump(0, 7, 0, leaf(Some(1)), 1),
            jump(1, 3, 0, MajorNode::LeafJump { leaf_index: 2, child_jump_index: 5 }, 3),
            jump(1, 6, 0, leaf(Some(3)), 3),
            jump(3, 4, 0, leaf(Some(4)), 4),
            jump(3, 5, 0, leaf(Some(5)), 4),
        ]
    );
    assert_eq!(trie.leaves, vec![1, 6, 2, 3, 4, 5]);
}

#[test]
fn integrity_check_rejects_a_broken_table() {
    let mut trie: RawTrie<&str, u8> = RawTrie::new();
    let root = RawCursor::root();
    trie.insert_nodes_after(root, vec!["a"], Some(1));
    trie.insert_nodes_after(root, vec!["b"], Some(2));
    assert!(trie.verify_tree_integrity());
    let good = trie.jumps.clone();
    trie.jumps.swap(1, 2);
    assert!(!trie.verify_tree_integrity());
    trie.jumps = good.clone();
    trie.jumps[0].next_major_node = MajorNode::Jump { child_jump_index: 9 };
    assert!(!trie.verify_tree_integrity());
    trie.jumps = good.clone();
    trie.jumps[1].parent_jump_index = 1;
    assert!(!trie.verify_tree_integrity());
    trie.jumps = good.clone();
    trie.jumps[1].next_major_node = leaf(Some(1));
    trie.jumps[2].next_major_node = leaf(Some(0));
    assert!(!trie.verify_tree_integrity());
    trie.jumps = good;
    assert!(trie.verify_tree_integrity());
}

#[test]
fn cursor_validity_is_told_from_the_table() {
    let mut trie: RawTrie<&str, u8> = RawTrie::new();
    let at = trie.insert_nodes_after(RawCursor::root(), vec!["a", "b"], None);
    assert!(trie.is_valid_cursor(at));
    assert!(trie.is_valid_cursor(RawCursor { node_index: 0, parent_jump_index: 0, depth: 0 }));
    assert!(!trie.is_valid_cursor(RawCursor { node_index: 0, parent_jump_index: 0, depth: 1 }));
    assert!(!trie.is_valid_cursor(RawCursor { node_index: 2, parent_jump_index: 0, depth: 2 }));
    assert!(!trie.is_valid_cursor(RawCursor { node_index: 0, parent_jump_index: 1, depth: 0 }));
    assert!(!trie.is_valid_cursor(RawCursor { node_index: -2, parent_jump_index: 0, depth: -2 }));
}

#[test]
fn thinning_takes_the_marked_entries_out() {
    let gone = vec![false, true, true, false, true, false];
    assert_eq!(new_indices(&gone), vec![0, 1, 1, 1, 2, 2, 3]);
    assert_eq!(thin_out(vec!["a", "b", "c", "d", "e", "f"], &gone), vec!["a", "d", "f"]);
    assert_eq!(thin_out(vec![1, 2, 3], &vec![true, true, true]), Vec::<i32>::new());
    assert_eq!(thin_out(vec![1, 2, 3], &vec![false, false, false]), vec![1, 2, 3]);
    assert_eq!(thin_out(Vec::<i32>::new(), &vec![]), Vec::<i32>::new());
    assert_eq!(new_indices(&vec![]), vec![0]);
}

#[test]
fn major_nodes_tell_children_and_values() {
    let both = MajorNode::LeafJump { leaf_index: 3, child_jump_index: 4 };
    assert!(both.is_jump());
    assert_eq!(both.child_index(), Some(4));
    assert_eq!(both.leaf_index(), Some(3));
    let branch = MajorNode::Jump { child_jump_index: 2 };
    assert!(branch.is_jump());
    assert_eq!(branch.child_index(), Some(2));
    assert_eq!(branch.leaf_index(), None);
    assert!(!leaf(Some(1)).is_jump());
    assert_eq!(leaf(Some(1)).leaf_index(), Some(1));
    assert_eq!(leaf(None).leaf_index(), None);
    assert_eq!(leaf(None).child_index(), None);
    let run = jump(0, 2, 3, branch, 1);
    let inside = RawCursor { node_index: 3, parent_jump_index: 1, depth: 2 };
    let end = RawCursor { node_index: 5, parent_jump_index: 1, depth: 4 };
    assert!(!run.cursor_at_next_major_node(inside));
    assert!(run.cursor_at_next_major_node(end));
    assert!(run.cursor_has_children(inside));
    assert!(run.cursor_has_children(end));
    let last = jump(0, 2, 3, leaf(None), 1);
    assert!(last.cursor_has_children(inside));
    assert!(!last.cursor_has_children(end));
}
