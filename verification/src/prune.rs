//! Pruning: cutting the subtree of a node out of the trie.

use vstd::prelude::*;
use crate::jump::{Jump, MajorNode, RawCursor};
use crate::layout::{inv_leaves, lemma_bounded, Spans};
use crate::model::{is_parent, pruned, subtree_end, Entry};
use crate::raw::RawTrie;
use crate::shrink::{major_of, Prune};
use crate::thin::{new_indices, thin_out, Thin};

verus! {

/// The major node that carries `leaf` and has its first child at `child`.
fn make_major(leaf: Option<usize>, child: Option<usize>) -> (m: MajorNode)
    ensures
        m == major_of(
            match leaf {
                Some(v) => Some(v as int),
                None => None,
            },
            match child {
                Some(c) => Some(c as int),
                None => None,
            },
        ),
{
    match (leaf, child) {
        (Some(v), Some(c)) => MajorNode::LeafJump { leaf_index: v, child_jump_index: c },
        (Some(v), None) => MajorNode::Leaf { leaf_index: Some(v) },
        (None, Some(c)) => MajorNode::Jump { child_jump_index: c },
        (None, None) => MajorNode::Leaf { leaf_index: None },
    }
}

impl<N, L> RawTrie<N, L> {
    /// For each record, whether its run starts among the nodes `pos ..= e`.
    fn gone_records(&self, pos: isize, e: isize) -> (gone: Vec<bool>)
        ensures
            gone@.len() == self.jumps@.len(),
            forall|x: int|
                0 <= x < gone@.len() ==> (#[trigger] gone@[x]) == (pos
                    <= self.jumps@[x].jump_to_node <= e),
    {
        let mut gone: Vec<bool> = Vec::new();
        let mut x: usize = 0;
        while x < self.jumps.len()
            invariant
                x <= self.jumps@.len(),
                gone@.len() == x,
                forall|k: int|
                    0 <= k < x ==> (#[trigger] gone@[k]) == (pos <= self.jumps@[k].jump_to_node
                        <= e),
            decreases self.jumps@.len() - x,
        {
            let t: isize = self.jumps[x].jump_to_node;
            gone.push(pos <= t && t <= e);
            x += 1;
        }
        gone
    }

    /// For each value, whether it leaves with the nodes `pos ..= e`: its
    /// record leaves, or its record is `i` and stays with a shorter run.
    fn gone_values(&self, i: usize, inside: bool, gone: &Vec<bool>) -> (out: Vec<bool>)
        requires
            self.wf(),
            gone@.len() == self.jumps@.len(),
        ensures
            out@.len() == self.leaves@.len(),
            forall|r: int|
                0 <= r < out@.len() ==> (#[trigger] out@[r]) == (gone@[self.spans().leaf_owner[r]]
                    || (self.spans().leaf_owner[r] == i && inside)),
    {
        let ghost w = self.spans();
        let ghost j = self.jumps@;
        let mut out: Vec<bool> = Vec::new();
        let mut r: usize = 0;
        while r < self.leaves.len()
            invariant
                r <= self.leaves@.len(),
                out@.len() == r,
            decreases self.leaves@.len() - r,
        {
            out.push(false);
            r += 1;
        }
        let mut x: usize = 0;
        while x < self.jumps.len()
            invariant
                self.inv(w),
                j == self.jumps@,
                gone@.len() == j.len(),
                x <= j.len(),
                out@.len() == self.leaves@.len(),
                forall|k: int|
                    0 <= k < x && (#[trigger] j[k]).next_major_node.leaf().is_some() ==> out@[j[k].next_major_node.leaf().unwrap()]
                        == (gone@[k] || (k == i && inside)),
            decreases j.len() - x,
        {
            match self.jumps[x].next_major_node.leaf_index() {
                Some(v) => {
                    proof {
                        reveal(inv_leaves);
                        assert forall|k: int|
                            0 <= k < x && (#[trigger] j[k]).next_major_node.leaf().is_some() implies j[k].next_major_node.leaf().unwrap()
                            != v by {
                            assert(j[k].next_major_node.leaf().unwrap()
                                < j[x as int].next_major_node.leaf().unwrap());
                        }
                    }
                    out.set(v, gone[x] || (x == i && inside));
                },
                None => {},
            }
            x += 1;
        }
        proof {
            assert forall|r: int| 0 <= r < out@.len() implies (#[trigger] out@[r]) == (gone@[w.leaf_owner[r]]
                || (w.leaf_owner[r] == i && inside)) by {
                reveal(inv_leaves);
                let k = w.leaf_owner[r];
                assert(0 <= k < j.len() && j[k].next_major_node.leaf() == Some(r));
            }
        }
        out
    }

    /// The record at index `x`, which stays, as it stands after the pruning.
    fn pruned_image(
        &self,
        x: usize,
        i: usize,
        pos: isize,
        e: isize,
        gone: &Vec<bool>,
        idx: &Vec<usize>,
        vidx: &Vec<usize>,
        Ghost(p): Ghost<Prune>,
        Ghost(w): Ghost<Spans>,
    ) -> (r: Jump)
        requires
            self.inv(w),
            p.fits(self.jumps@, self.nodes@.len() as int, self.leaves@.len() as int, w),
            p.i == i,
            p.pos == pos,
            p.e == e,
            gone@ == p.jt.gone,
            idx@.len() == self.jumps@.len() + 1,
            forall|k: int| 0 <= k <= self.jumps@.len() ==> (#[trigger] idx@[k]) == p.jt.idx[k],
            vidx@.len() == self.leaves@.len() + 1,
            forall|k: int| 0 <= k <= self.leaves@.len() ==> (#[trigger] vidx@[k]) == p.vt.idx[k],
            x < self.jumps@.len(),
            !gone@[x as int],
        ensures
            r == p.image(self.jumps@, x as int),
    {
        let ghost j = self.jumps@;
        let ghost nn = self.nodes@.len() as int;
        let ghost nl = self.leaves@.len() as int;
        let len: usize = self.jumps.len();
        let rec = self.jumps[x];
        proof {
            p.lemma_frame(j, nn, nl, w);
        }
        let host = self.jumps[i];
        let inside: bool = host.jump_to_node < pos;
        proof {
            p.lemma_mark(j, nn, nl, w, x as int);
            p.lemma_side(j, nn, nl, w, x as int);
            p.lemma_image(j, nn, nl, w, x as int);
            lemma_bounded(j, nn, nl, w, x as int);
            lemma_bounded(j, nn, nl, w, i as int);
            match rec.next_major_node.child() {
                Some(c) => {
                    p.lemma_mark(j, nn, nl, w, c);
                },
                None => {},
            }
        }
        let child: Option<usize> = match rec.next_major_node.child_index() {
            Some(c) => {
                if !gone[c] {
                    Some(idx[c])
                } else if x != i && c + 1 < len && self.jumps[c + 1].parent_jump_index
                    == x as isize {
                    Some(idx[c + 1])
                } else {
                    None
                }
            },
            None => None,
        };
        let leaf: Option<usize> = match rec.next_major_node.leaf_index() {
            Some(v) => {
                if x == i && inside {
                    None
                } else {
                    Some(vidx[v])
                }
            },
            None => None,
        };
        let count: isize = e - pos + 1;
        Jump {
            parent_jump_index: if rec.parent_jump_index < 0 {
                rec.parent_jump_index
            } else {
                idx[rec.parent_jump_index as usize] as isize
            },
            jump_to_node: if rec.jump_to_node > e {
                rec.jump_to_node - count
            } else {
                rec.jump_to_node
            },
            next_major_node_dist: if x == i && inside {
                (pos - 1 - rec.jump_to_node) as usize
            } else {
                rec.next_major_node_dist
            },
            next_major_node: make_major(leaf, child),
            depth: rec.depth,
        }
    }

    /// The pruning of the subtree of the node under `cursor`: the records
    /// that start in the subtree leave the table, and the values leave the
    /// store whose records leave, or whose record is the record of the
    /// cursor when that stays with a shorter run.
    pub open spec fn pruning(&self, cursor: RawCursor) -> Prune {
        let j = self.jumps@;
        let w = self.spans();
        let i = cursor.parent_jump_index as int;
        let pos = cursor.node_index as int;
        let e = subtree_end(self@, pos);
        let inside = j[i].jump_to_node < pos;
        Prune {
            i,
            pos,
            e,
            jt: Thin::of(Seq::new(j.len(), |x: int| pos <= j[x].jump_to_node <= e)),
            vt: Thin::of(
                Seq::new(
                    self.leaves@.len(),
                    |r: int|
                        pos <= j[w.leaf_owner[r]].jump_to_node <= e || (w.leaf_owner[r] == i
                            && inside),
                ),
            ),
        }
    }

    /// Cuts the node under `cursor` out of the trie, with its subtree and
    /// the values in it, and returns the cursor on its parent. Pruning the
    /// root empties the trie.
    pub fn prune_node(&mut self, cursor: RawCursor) -> (r: RawCursor)
        requires
            old(self).wf(),
            old(self).valid_cursor(cursor),
        ensures
            final(self).wf(),
            final(self).integrity(),
            final(self).valid_cursor(r),
            cursor.node_index == -1 ==> {
                &&& r == cursor
                &&& final(self)@ == Seq::<Entry<N, L>>::empty()
                &&& final(self).nodes@.len() == 0
                &&& final(self).leaves@.len() == 0
                &&& final(self).jumps@.len() == 1
            },
            cursor.node_index >= 0 ==> {
                &&& final(self)@ == pruned(old(self)@, cursor.node_index as int)
                &&& final(self).at_major(r)
                &&& is_parent(old(self)@, cursor.node_index as int, r.node_index as int)
                &&& r.depth == cursor.depth - 1
                &&& final(self).nodes@ == old(self).pruning(cursor).nodes(old(self).nodes@)
                &&& final(self).jumps@ == old(self).pruning(cursor).table(old(self).jumps@)
                &&& final(self).leaves@ == old(self).pruning(cursor).vt.thinned(
                    old(self).leaves@,
                )
            },
    {
        let ghost w = self.spans();
        let ghost j = self.jumps@;
        let ghost nodes0 = self.nodes@;
        let ghost leaves0 = self.leaves@;
        let ghost nn = nodes0.len() as int;
        let ghost nl = leaves0.len() as int;
        proof {
            self.lemma_cursor(w, cursor);
        }
        if cursor.node_index < 0 {
            self.nodes.clear();
            self.leaves.clear();
            self.jumps.clear();
            self.jumps.push(Jump::default_root());
            proof {
                self.lemma_empty();
                self.lemma_integrity();
            }
            return cursor;
        }
        let i: usize = cursor.parent_jump_index;
        let pos: isize = cursor.node_index;
        let parent = match self.node_parent(cursor) {
            Some(p) => p,
            None => cursor,
        };
        let last = self.last_child_node(cursor);
        let e: isize = last.node_index;
        let inside: bool = self.jumps[i].jump_to_node < pos;
        let gone = self.gone_records(pos, e);
        let vgone = self.gone_values(i, inside, &gone);
        let idx = new_indices(&gone);
        let vidx = new_indices(&vgone);
        let ghost p = Prune {
            i: i as int,
            pos: pos as int,
            e: e as int,
            jt: Thin::of(gone@),
            vt: Thin::of(vgone@),
        };
        proof {
            assert(gone@ =~= Seq::new(j.len(), |x: int| pos <= j[x].jump_to_node <= e));
            assert forall|r: int| 0 <= r < leaves0.len() implies vgone@[r] == (pos
                <= j[w.leaf_owner[r]].jump_to_node <= e || (w.leaf_owner[r] == i && inside)) by {
                reveal(inv_leaves);
                assert(0 <= w.leaf_owner[r] < j.len());
            }
            assert(vgone@ =~= Seq::new(
                leaves0.len(),
                |r: int|
                    pos <= j[w.leaf_owner[r]].jump_to_node <= e || (w.leaf_owner[r] == i
                        && inside),
            ));
            assert(p == self.pruning(cursor));
            Thin::lemma_of(gone@);
            Thin::lemma_of(vgone@);
            assert forall|x: int| 0 <= x < j.len() implies #[trigger] p.mark_ok(j, x) by {}
            assert forall|r: int| 0 <= r < nl implies #[trigger] p.value_mark_ok(j, w, r) by {
                reveal(inv_leaves);
            }
            assert(p.fits(j, nn, nl, w)) by {
                reveal(Prune::fits);
            }
            p.lemma_frame(j, nn, nl, w);
        }
        let mut images: Vec<Jump> = Vec::new();
        let mut x: usize = 0;
        while x < self.jumps.len()
            invariant
                self.inv(w),
                j == self.jumps@,
                nn == self.nodes@.len(),
                nl == self.leaves@.len(),
                p.fits(j, nn, nl, w),
                p.i == i,
                p.pos == pos,
                p.e == e,
                gone@ == p.jt.gone,
                gone@.len() == j.len(),
                idx@.len() == j.len() + 1,
                forall|k: int| 0 <= k <= j.len() ==> (#[trigger] idx@[k]) == p.jt.idx[k],
                vidx@.len() == nl + 1,
                forall|k: int| 0 <= k <= nl ==> (#[trigger] vidx@[k]) == p.vt.idx[k],
                x <= j.len(),
                images@.len() == x,
                forall|k: int|
                    0 <= k < x && !gone@[k] ==> (#[trigger] images@[k]) == p.image(j, k),
            decreases j.len() - x,
        {
            if gone[x] {
                images.push(self.jumps[x]);
            } else {
                let r = self.pruned_image(
                    x,
                    i,
                    pos,
                    e,
                    &gone,
                    &idx,
                    &vidx,
                    Ghost(p),
                    Ghost(w),
                );
                images.push(r);
            }
            x += 1;
        }
        let ghost marked = images@;
        let old_leaves = self.leaves.split_off(0);
        self.jumps = thin_out(images, &gone);
        self.leaves = thin_out(old_leaves, &vgone);
        let mut tail = self.nodes.split_off((e + 1) as usize);
        self.nodes.truncate(pos as usize);
        self.nodes.append(&mut tail);
        proof {
            assert(old_leaves@ =~= leaves0);
            assert(self.nodes@ =~= p.nodes(nodes0));
            assert(self.jumps@ =~= p.table(j)) by {
                assert forall|y: int| 0 <= y < p.jt.rest() implies p.jt.thinned(marked)[y]
                    == p.table(j)[y] by {
                    p.jt.lemma_org(y);
                }
            }
            p.lemma_prune(j, nn, nl, w);
            p.lemma_listing(nodes0, j, leaves0, w);
            p.lemma_parent_record(j, nn, nl, w);
            assert(self.inv(p.spans(j, nn, nl, w)));
            self.lemma_integrity();
        }
        parent
    }
}

} // verus!
