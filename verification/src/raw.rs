//! The flattened trie and the navigation over it.

use vstd::prelude::*;
use crate::jump::{Jump, MajorNode, RawCursor};
use crate::layout::{inv, inv_basic, inv_cover, inv_depths, inv_leaves, inv_links, inv_nested, inv_sorted, key_lt, lemma_deeper, lemma_position, listing, spans, valid, Spans};
use crate::model::{depth_at, is_parent, is_subtree_end, subtree_end, Entry};

verus! {

/// An ordered, labelled tree kept in three arrays: the keys in preorder, the
/// sorted table of jump records, and the values in the order of the table.
#[derive(Debug, Clone)]
pub struct RawTrie<N, L> {
    pub nodes: Vec<N>,
    pub jumps: Vec<Jump>,
    pub leaves: Vec<L>,
}

impl<N, L> View for RawTrie<N, L> {
    type V = Seq<Entry<N, L>>;

    /// The nodes in preorder, each with its depth and its value.
    open spec fn view(&self) -> Seq<Entry<N, L>> {
        listing(self.nodes@, self.jumps@, self.leaves@)
    }
}

impl<N, L> RawTrie<N, L> {
    /// The three arrays describe a tree.
    pub open spec fn wf(&self) -> bool {
        valid(self.jumps@, self.nodes@.len() as int, self.leaves@.len() as int)
    }

    /// A certificate of the layout.
    pub open spec fn spans(&self) -> Spans {
        spans(self.jumps@, self.nodes@.len() as int, self.leaves@.len() as int)
    }

    /// `w` certifies the layout.
    pub open spec fn inv(&self, w: Spans) -> bool {
        inv(self.jumps@, self.nodes@.len() as int, self.leaves@.len() as int, w)
    }

    /// The cursor names a node, the record that holds it, and its depth.
    pub open spec fn valid_cursor(&self, cursor: RawCursor) -> bool {
        let i = cursor.parent_jump_index as int;
        &&& i < self.jumps@.len()
        &&& self.jumps@[i].covers(cursor.node_index as int)
        &&& cursor.depth == self.jumps@[i].depth + (cursor.node_index
            - self.jumps@[i].jump_to_node)
    }

    /// The cursor sits on the first node of a run.
    pub open spec fn at_run_start(&self, cursor: RawCursor) -> bool {
        cursor.node_index == self.jumps@[cursor.parent_jump_index as int].jump_to_node
    }

    /// The cursor sits on the major node of its run.
    pub open spec fn at_major(&self, cursor: RawCursor) -> bool {
        cursor.node_index as int == self.jumps@[cursor.parent_jump_index as int].major()
    }

    /// What a valid cursor says of the listing: the depth of its node and the
    /// end of its subtree.
    pub proof fn lemma_cursor(&self, w: Spans, cursor: RawCursor)
        requires
            self.inv(w),
            self.valid_cursor(cursor),
        ensures
            -1 <= cursor.node_index < self.nodes@.len(),
            cursor.node_index == -1 <==> cursor == (RawCursor {
                node_index: -1isize,
                parent_jump_index: 0,
                depth: -1isize,
            }),
            depth_at(self@, cursor.node_index as int) == cursor.depth,
            is_subtree_end(self@, cursor.node_index as int, w.ends[cursor.parent_jump_index as int]),
            subtree_end(self@, cursor.node_index as int) == w.ends[cursor.parent_jump_index as int],
    {
        lemma_position(
            self.nodes@,
            self.jumps@,
            self.leaves@,
            w,
            cursor.parent_jump_index as int,
            cursor.node_index as int,
        );
    }

    /// A trie that holds the root record alone is the empty tree.
    pub proof fn lemma_empty(&self)
        requires
            self.nodes@.len() == 0,
            self.leaves@.len() == 0,
            self.jumps@.len() == 1,
            self.jumps@[0] == (Jump {
                parent_jump_index: -1isize,
                jump_to_node: -1isize,
                next_major_node_dist: 0,
                next_major_node: MajorNode::Leaf { leaf_index: None },
                depth: -1isize,
            }),
        ensures
            self.wf(),
            self@ == Seq::<Entry<N, L>>::empty(),
            self.valid_cursor(RawCursor { node_index: -1isize, parent_jump_index: 0, depth: -1isize }),
    {
        let w = Spans { ends: seq![-1int], owner: Seq::empty(), leaf_owner: Seq::empty() };
        reveal(inv_basic);
        reveal(inv_sorted);
        reveal(inv_links);
        reveal(inv_nested);
        reveal(inv_depths);
        reveal(inv_cover);
        reveal(inv_leaves);
        assert(self.inv(w));
        assert(self@ =~= Seq::<Entry<N, L>>::empty());
    }

    /// Whether the cursor names a node, the record that holds it, and its
    /// depth.
    pub fn is_valid_cursor(&self, cursor: RawCursor) -> (b: bool)
        ensures
            b == self.valid_cursor(cursor),
    {
        if cursor.parent_jump_index >= self.jumps.len() {
            return false;
        }
        let jump = self.jumps[cursor.parent_jump_index];
        let pos: i128 = cursor.node_index as i128;
        let first: i128 = jump.jump_to_node as i128;
        let major: i128 = first + jump.next_major_node_dist as i128;
        first <= pos && pos <= major && cursor.depth as i128 == jump.depth as i128 + (pos - first)
    }

    /// The root cursor is valid in every tree.
    pub proof fn lemma_root(&self)
        requires
            self.wf(),
        ensures
            self.valid_cursor(RawCursor { node_index: -1isize, parent_jump_index: 0, depth: -1isize }),
    {
        reveal(inv_basic);
    }

    /// The empty trie.
    pub fn new() -> (t: RawTrie<N, L>)
        ensures
            t.wf(),
            t@ == Seq::<Entry<N, L>>::empty(),
            t.valid_cursor(RawCursor { node_index: -1isize, parent_jump_index: 0, depth: -1isize }),
    {
        let mut jumps: Vec<Jump> = Vec::new();
        jumps.push(Jump::default_root());
        let t = RawTrie { nodes: Vec::new(), jumps, leaves: Vec::new() };
        proof {
            t.lemma_empty();
        }
        t
    }

    /// The key under the cursor; none for the virtual root.
    pub fn get_node(&self, cursor: RawCursor) -> (r: Option<&N>)
        ensures
            r.is_some() <==> 0 <= cursor.node_index < self.nodes@.len(),
            r matches Some(k) ==> *k == self.nodes@[cursor.node_index as int] && *k
                == self@[cursor.node_index as int].key,
    {
        if cursor.node_index >= 0 && (cursor.node_index as usize) < self.nodes.len() {
            Some(&self.nodes[cursor.node_index as usize])
        } else {
            None
        }
    }

    /// The cursor on the parent; none for the virtual root.
    pub fn node_parent(&self, cursor: RawCursor) -> (r: Option<RawCursor>)
        requires
            self.wf(),
            self.valid_cursor(cursor),
        ensures
            r.is_none() <==> cursor.node_index == -1,
            r matches Some(p) ==> self.valid_cursor(p) && is_parent(
                self@,
                cursor.node_index as int,
                p.node_index as int,
            ),
            r matches Some(p) ==> p.depth == cursor.depth - 1 && if self.at_run_start(cursor) {
                p.parent_jump_index == self.jumps@[cursor.parent_jump_index as int].parent_jump_index
                    && self.at_major(p)
            } else {
                p.parent_jump_index == cursor.parent_jump_index && p.node_index
                    == cursor.node_index - 1
            },
    {
        let ghost w = self.spans();
        proof {
            reveal(inv_basic);
            reveal(inv_links);
            self.lemma_cursor(w, cursor);
        }
        let parent_jump = self.jumps[cursor.parent_jump_index];
        if cursor.node_index == parent_jump.jump_to_node {
            if parent_jump.parent_jump_index < 0 {
                None
            } else {
                let pi: usize = parent_jump.parent_jump_index as usize;
                let j = self.jumps[pi];
                let p = RawCursor {
                    node_index: j.jump_to_node + j.next_major_node_dist as isize,
                    parent_jump_index: pi,
                    depth: cursor.depth - 1,
                };
                proof {
                    self.lemma_cursor(w, p);
                    assert forall|m: int| p.node_index < m < cursor.node_index implies (
                    #[trigger] self@[m]).depth >= self@[cursor.node_index as int].depth by {
                        lemma_deeper(
                            self.jumps@,
                            self.nodes@.len() as int,
                            self.leaves@.len() as int,
                            w,
                            pi as int,
                            p.node_index as int,
                            m,
                        );
                    }
                }
                Some(p)
            }
        } else {
            let p = RawCursor {
                node_index: cursor.node_index - 1,
                parent_jump_index: cursor.parent_jump_index,
                depth: cursor.depth - 1,
            };
            proof {
                self.lemma_cursor(w, p);
            }
            Some(p)
        }
    }

    /// The first index from `1` on whose record has a parent index of `y` or
    /// more; the length of the table if there is none.
    pub(crate) fn lower(&self, y: usize) -> (r: usize)
        requires
            self.wf(),
        ensures
            1 <= r <= self.jumps@.len(),
            forall|x: int|
                1 <= x < self.jumps@.len() ==> (x < r <==> (
                #[trigger] self.jumps@[x]).parent_jump_index < y),
    {
        let ghost w = self.spans();
        proof {
            reveal(inv_basic);
            reveal(inv_sorted);
        }
        let mut lo: usize = 1;
        let mut hi: usize = self.jumps.len();
        while lo < hi
            invariant
                self.inv(w),
                1 <= lo <= hi <= self.jumps@.len(),
                forall|x: int| 1 <= x < lo ==> (#[trigger] self.jumps@[x]).parent_jump_index < y,
                forall|x: int|
                    hi <= x < self.jumps@.len() ==> (#[trigger] self.jumps@[x]).parent_jump_index
                        >= y,
            decreases hi - lo,
        {
            let mid: usize = lo + (hi - lo) / 2;
            let p: isize = self.jumps[mid].parent_jump_index;
            proof {
                reveal(inv_basic);
                reveal(inv_sorted);
                assert(0 <= self.jumps@[mid as int].parent_jump_index);
            }
            if (p as usize) < y {
                proof {
                    assert forall|x: int| 1 <= x < mid + 1 implies (
                    #[trigger] self.jumps@[x]).parent_jump_index < y by {
                        if x < mid {
                            assert(crate::layout::key_lt(self.jumps@[x], self.jumps@[mid as int]));
                        }
                    }
                }
                lo = mid + 1;
            } else {
                proof {
                    assert forall|x: int| mid <= x < self.jumps@.len() implies (
                    #[trigger] self.jumps@[x]).parent_jump_index >= y by {
                        if x > mid {
                            assert(crate::layout::key_lt(self.jumps@[mid as int], self.jumps@[x]));
                        }
                    }
                }
                hi = mid;
            }
        }
        lo
    }

    /// The cursor on the last node of the subtree under `cursor`.
    pub fn last_child_node(&self, cursor: RawCursor) -> (r: RawCursor)
        requires
            self.wf(),
            self.valid_cursor(cursor),
        ensures
            self.valid_cursor(r),
            self.at_major(r),
            r.node_index == subtree_end(self@, cursor.node_index as int),
    {
        let ghost w = self.spans();
        let mut jump_index: usize = cursor.parent_jump_index;
        let mut jump = self.jumps[jump_index];
        let mut child = jump.next_major_node.child_index();
        while child.is_some()
            invariant
                self.inv(w),
                jump_index < self.jumps@.len(),
                jump == self.jumps@[jump_index as int],
                child.is_some() == jump.next_major_node.child().is_some(),
                child.is_some() ==> child.unwrap() as int == jump.next_major_node.child().unwrap(),
                w.ends[jump_index as int] == w.ends[cursor.parent_jump_index as int],
            decreases self.jumps@.len() - jump_index,
        {
            let c: usize = child.unwrap();
            proof {
                reveal(inv_basic);
                reveal(inv_links);
                assert(jump_index < c < self.jumps@.len());
                assert(self.jumps@[c as int].parent_jump_index == jump_index);
            }
            let end: usize = self.lower(jump_index + 1);
            let last: usize = end - 1;
            proof {
                let j = self.jumps@;
                assert(c < end);
                assert(j[last as int].parent_jump_index < jump_index + 1);
                assert(key_lt(j[c as int], j[last as int]) || c == last) by {
                    reveal(inv_sorted);
                }
                assert(j[last as int].parent_jump_index == jump_index);
                if end < j.len() {
                    assert(j[end as int].parent_jump_index >= jump_index + 1);
                    assert(w.ends[last as int] == w.ends[jump_index as int]);
                } else {
                    assert(w.ends[last as int] == w.ends[jump_index as int]);
                }
            }
            jump_index = last;
            jump = self.jumps[jump_index];
            child = jump.next_major_node.child_index();
        }
        proof {
            reveal(inv_basic);
            reveal(inv_links);
            assert(w.ends[jump_index as int] == jump.major());
            assert(jump.major() < self.nodes@.len());
            self.lemma_cursor(w, cursor);
        }
        RawCursor {
            node_index: jump.jump_to_node + jump.next_major_node_dist as isize,
            parent_jump_index: jump_index,
            depth: jump.depth + jump.next_major_node_dist as isize,
        }
    }
}

} // verus!
