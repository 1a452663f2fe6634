//! Navigation from a cursor: children, siblings, values.

use vstd::prelude::*;
use vstd::std_specs::cmp::PartialEqSpec;
use crate::jump::{Jump, RawCursor};
use crate::layout::{encloses, inv_basic, inv_cover, inv_leaves, inv_links, inv_sorted, key_lt, lemma_bounded, lemma_child_inside, lemma_child_records, lemma_encloses_before, lemma_encloses_child, lemma_encloses_node, lemma_owner, lemma_position};
use crate::model::{ancestor_on, depth_at, is_child, is_descendant, lemma_ancestor_on, lemma_parent_holds, lemma_within_end, on_route, on_way, subtree_end, within};
use crate::raw::RawTrie;

verus! {

/// The first index from `k` on at which the records stop to have `x` for
/// their parent.
pub open spec fn block_end(j: Seq<Jump>, k: int, x: int) -> int
    decreases j.len() - k,
{
    if 0 <= k < j.len() && j[k].parent_jump_index == x {
        block_end(j, k + 1, x)
    } else {
        k
    }
}

impl<N, L> RawTrie<N, L> {
    /// The cursors on the children of the node under `cursor`, in their
    /// order: the next node where the cursor stands inside a run, else the
    /// first nodes of the child records of its record.
    pub open spec fn children(&self, cursor: RawCursor) -> Seq<RawCursor> {
        let j = self.jumps@;
        let i = cursor.parent_jump_index as int;
        if !self.at_major(cursor) {
            seq![
                RawCursor {
                    node_index: (cursor.node_index + 1) as isize,
                    parent_jump_index: cursor.parent_jump_index,
                    depth: (cursor.depth + 1) as isize,
                },
            ]
        } else {
            match j[i].next_major_node.child() {
                Some(c) => Seq::new(
                    (block_end(j, c, i) - c) as nat,
                    |k: int|
                        RawCursor {
                            node_index: j[c + k].jump_to_node,
                            parent_jump_index: (c + k) as usize,
                            depth: (cursor.depth + 1) as isize,
                        },
                ),
                None => Seq::empty(),
            }
        }
    }

    /// The cursors on the children of the node under `cursor`, in their order.
    pub fn node_direct_children(&self, cursor: RawCursor) -> (r: Vec<RawCursor>)
        requires
            self.wf(),
            self.valid_cursor(cursor),
        ensures
            r@ == self.children(cursor),
            forall|k: int, l: int|
                0 <= k < l < r@.len() ==> (#[trigger] r@[k]).node_index < (
                #[trigger] r@[l]).node_index,
            forall|c: int|
                is_child(self@, cursor.node_index as int, c) ==> exists|k: int|
                    0 <= k < r@.len() && (#[trigger] r@[k]).node_index == c,
            forall|k: int|
                0 <= k < r@.len() ==> self.valid_cursor(#[trigger] r@[k]) && is_child(
                    self@,
                    cursor.node_index as int,
                    r@[k].node_index as int,
                ),
            !self.at_major(cursor) ==> r@.len() == 1 && r@[0].parent_jump_index
                == cursor.parent_jump_index,
            self.at_major(cursor) ==> forall|k: int|
                0 <= k < r@.len() ==> (#[trigger] r@[k]).parent_jump_index
                    == self.jumps@[cursor.parent_jump_index as int].next_major_node.child().unwrap()
                    + k && self.at_run_start(r@[k]),
    {
        let ghost w = self.spans();
        let ghost j = self.jumps@;
        let ghost pos = cursor.node_index as int;
        let i: usize = cursor.parent_jump_index;
        let jump = self.jumps[i];
        let mut out: Vec<RawCursor> = Vec::new();
        proof {
            lemma_bounded(j, self.nodes@.len() as int, self.leaves@.len() as int, w, i as int);
            self.lemma_cursor(w, cursor);
        }
        if !jump.cursor_at_next_major_node(cursor) {
            let child = RawCursor {
                node_index: cursor.node_index + 1,
                parent_jump_index: i,
                depth: cursor.depth + 1,
            };
            out.push(child);
            proof {
                assert forall|c: int| is_child(self@, pos, c) implies exists|k: int|
                    0 <= k < out@.len() && (#[trigger] out@[k]).node_index == c by {
                    lemma_child_inside(self.nodes@, j, self.leaves@, w, i as int, pos, c);
                    assert(out@[0].node_index == c);
                }
                lemma_child_inside(self.nodes@, j, self.leaves@, w, i as int, pos, pos + 1);
                assert(out@ =~= self.children(cursor));
            }
            return out;
        }
        match jump.next_major_node.child_index() {
            None => {
                proof {
                    assert forall|c: int| !is_child(self@, pos, c) by {
                        lemma_child_records(self.nodes@, j, self.leaves@, w, i as int, c);
                        if is_child(self@, pos, c) {
                            reveal(inv_links);
                            let z = w.owner[c];
                            assert(j[i as int].next_major_node.child().is_some());
                        }
                    }
                }
            },
            Some(first) => {
                let mut k: usize = first;
                proof {
                    reveal(inv_links);
                    assert(i < first < j.len());
                    assert(j[first as int].parent_jump_index == i);
                }
                while k < self.jumps.len() && self.jumps[k].parent_jump_index == i as isize
                    invariant
                        self.inv(w),
                        j == self.jumps@,
                        self.valid_cursor(cursor),
                        pos == cursor.node_index,
                        i == cursor.parent_jump_index,
                        pos == j[i as int].major(),
                        j[i as int].next_major_node.child() == Some(first as int),
                        i < first <= k <= j.len(),
                        out@.len() == k - first,
                        forall|y: int| first <= y < k ==> (#[trigger] j[y]).parent_jump_index == i,
                        forall|n: int|
                            0 <= n < out@.len() ==> (#[trigger] out@[n]) == (RawCursor {
                                node_index: j[first + n].jump_to_node,
                                parent_jump_index: (first + n) as usize,
                                depth: (cursor.depth + 1) as isize,
                            }),
                        cursor.depth + 1 < isize::MAX,
                        j.len() < isize::MAX,
                        block_end(j, k as int, i as int) == block_end(j, first as int, i as int),
                    decreases j.len() - k,
                {
                    let rec = self.jumps[k];
                    out.push(
                        RawCursor {
                            node_index: rec.jump_to_node,
                            parent_jump_index: k,
                            depth: cursor.depth + 1,
                        },
                    );
                    k += 1;
                }
                proof {
                    let nodes = self.nodes@;
                    let leaves = self.leaves@;
                    assert(block_end(j, k as int, i as int) == k);
                    assert(out@ =~= self.children(cursor));
                    assert forall|n: int| 0 <= n < out@.len() implies self.valid_cursor(
                        #[trigger] out@[n],
                    ) && is_child(self@, pos, out@[n].node_index as int) by {
                        let y = first + n;
                        assert(j[y].parent_jump_index == i);
                        assert(j[y].depth == j[i as int].depth + j[i as int].next_major_node_dist
                            + 1 && j[i as int].major() < j[y].jump_to_node) by {
                            reveal(inv_links);
                        }
                        lemma_bounded(j, nodes.len() as int, leaves.len() as int, w, y);
                        let c = j[y].jump_to_node as int;
                        lemma_owner(j, nodes.len() as int, leaves.len() as int, w, y, c);
                        assert(w.owner[c] == y) by {
                            reveal(inv_cover);
                            lemma_owner(
                                j,
                                nodes.len() as int,
                                leaves.len() as int,
                                w,
                                w.owner[c],
                                c,
                            );
                        }
                        lemma_child_records(nodes, j, leaves, w, i as int, c);
                    }
                    assert forall|a: int, b: int| 0 <= a < b < out@.len() implies (
                    #[trigger] out@[a]).node_index < (#[trigger] out@[b]).node_index by {
                        assert(key_lt(j[first + a], j[first + b])) by {
                            reveal(inv_sorted);
                        }
                    }
                    assert forall|c: int| is_child(self@, pos, c) implies exists|n: int|
                        0 <= n < out@.len() && (#[trigger] out@[n]).node_index == c by {
                        lemma_child_records(nodes, j, leaves, w, i as int, c);
                        let z = w.owner[c];
                        assert(first <= z) by {
                            reveal(inv_links);
                        }
                        if z >= k {
                            assert(key_lt(j[k as int], j[z]) || k == z) by {
                                reveal(inv_sorted);
                            }
                            assert(key_lt(j[k - 1], j[k as int])) by {
                                reveal(inv_sorted);
                            }
                            assert(false);
                        }
                        assert(out@[z - first].node_index == c);
                    }
                }
            },
        }
        out
    }

    /// The cursor `dist` records further among the children of the same
    /// parent, for a cursor on the first node of a run; none otherwise, and
    /// none where there is no such child.
    pub open spec fn sibling(&self, cursor: RawCursor, dist: int) -> Option<RawCursor> {
        let j = self.jumps@;
        let i = cursor.parent_jump_index as int;
        let s = i + dist;
        if self.at_run_start(cursor) && 0 <= s < j.len() && j[s].parent_jump_index
            == j[i].parent_jump_index {
            Some(
                RawCursor {
                    node_index: j[s].jump_to_node,
                    parent_jump_index: s as usize,
                    depth: cursor.depth,
                },
            )
        } else {
            None
        }
    }

    /// The sibling `dist` places after the node under `cursor`, or before it
    /// where `dist` is negative.
    pub fn get_sibling(&self, cursor: RawCursor, dist: isize) -> (r: Option<RawCursor>)
        requires
            self.wf(),
            self.valid_cursor(cursor),
        ensures
            r == self.sibling(cursor, dist as int),
            r matches Some(c) ==> self.valid_cursor(c) && self.at_run_start(c),
    {
        let ghost w = self.spans();
        let ghost j = self.jumps@;
        let i: usize = cursor.parent_jump_index;
        let parent_jump = self.jumps[i];
        proof {
            lemma_bounded(j, self.nodes@.len() as int, self.leaves@.len() as int, w, i as int);
        }
        if parent_jump.jump_to_node != cursor.node_index {
            return None;
        }
        let len: usize = self.jumps.len();
        let s: usize = if dist >= 0 {
            let d: usize = dist as usize;
            if d >= len - i {
                return None;
            }
            i + d
        } else {
            let t: isize = i as isize + dist;
            if t < 0 {
                return None;
            }
            t as usize
        };
        let other = self.jumps[s];
        if other.parent_jump_index == parent_jump.parent_jump_index {
            proof {
                lemma_bounded(j, self.nodes@.len() as int, self.leaves@.len() as int, w, s as int);
                if s >= 1 && i >= 1 {
                    let p = parent_jump.parent_jump_index as int;
                    assert(0 <= p < i) by {
                        reveal(inv_basic);
                    }
                    assert(j[s as int].depth == j[p].depth + j[p].next_major_node_dist + 1
                        && j[i as int].depth == j[p].depth + j[p].next_major_node_dist + 1) by {
                        reveal(inv_links);
                    }
                } else {
                    assert(s == 0 && i == 0) by {
                        reveal(inv_basic);
                    }
                }
            }
            Some(RawCursor { node_index: other.jump_to_node, parent_jump_index: s, depth: cursor.depth })
        } else {
            None
        }
    }

    /// The rank of the value of the node under `cursor`, if it carries one.
    pub open spec fn leaf_index(&self, cursor: RawCursor) -> Option<int> {
        if self.at_major(cursor) {
            self.jumps@[cursor.parent_jump_index as int].next_major_node.leaf()
        } else {
            None
        }
    }

    /// What the rank of the value under a cursor says of the listing.
    pub proof fn lemma_leaf(&self, cursor: RawCursor)
        requires
            self.wf(),
            self.valid_cursor(cursor),
        ensures
            match self.leaf_index(cursor) {
                Some(v) => 0 <= v < self.leaves@.len() && cursor.node_index >= 0
                    && self@[cursor.node_index as int].value == Some(self.leaves@[v]),
                None => cursor.node_index >= 0 ==> self@[cursor.node_index as int].value.is_none(),
            },
    {
        let w = self.spans();
        let j = self.jumps@;
        let i = cursor.parent_jump_index as int;
        self.lemma_cursor(w, cursor);
        if cursor.node_index >= 0 {
            lemma_owner(
                j,
                self.nodes@.len() as int,
                self.leaves@.len() as int,
                w,
                i,
                cursor.node_index as int,
            );
        } else {
            assert(j[0].next_major_node_dist == 0 ==> j[0].next_major_node.leaf().is_none()) by {
                reveal(inv_leaves);
            }
        }
        lemma_bounded(j, self.nodes@.len() as int, self.leaves@.len() as int, w, i);
    }

    /// The rank of the value of the node under `cursor`, if it carries one.
    pub fn get_leaf_index(&self, cursor: RawCursor) -> (r: Option<usize>)
        requires
            self.wf(),
            self.valid_cursor(cursor),
        ensures
            r.is_some() == self.leaf_index(cursor).is_some(),
            r matches Some(v) ==> self.leaf_index(cursor) == Some(v as int) && v
                < self.leaves@.len(),
    {
        let ghost w = self.spans();
        let parent_jump = self.jumps[cursor.parent_jump_index];
        proof {
            lemma_bounded(
                self.jumps@,
                self.nodes@.len() as int,
                self.leaves@.len() as int,
                w,
                cursor.parent_jump_index as int,
            );
        }
        if parent_jump.cursor_at_next_major_node(cursor) {
            parent_jump.next_major_node.leaf_index()
        } else {
            None
        }
    }

    /// The value of the node under `cursor`, if it carries one.
    pub fn get_leaf(&self, cursor: RawCursor) -> (r: Option<&L>)
        requires
            self.wf(),
            self.valid_cursor(cursor),
        ensures
            r.is_some() == self.leaf_index(cursor).is_some(),
            r matches Some(v) ==> *v == self.leaves@[self.leaf_index(cursor).unwrap()],
            cursor.node_index >= 0 ==> match r {
                Some(v) => self@[cursor.node_index as int].value == Some(*v),
                None => self@[cursor.node_index as int].value.is_none(),
            },
            cursor.node_index < 0 ==> r.is_none(),
    {
        proof {
            self.lemma_leaf(cursor);
        }
        match self.get_leaf_index(cursor) {
            Some(v) => Some(&self.leaves[v]),
            None => None,
        }
    }

    /// The value of the node under `cursor`, to be changed in place, if the
    /// node carries one. The tree stays as it is but for that value.
    pub fn get_leaf_mut(&mut self, cursor: RawCursor) -> (r: Option<&mut L>)
        requires
            old(self).wf(),
            old(self).valid_cursor(cursor),
        ensures
            r.is_some() == old(self).leaf_index(cursor).is_some(),
            final(self).nodes@ == old(self).nodes@,
            final(self).jumps@ == old(self).jumps@,
            match r {
                Some(v) => *v == old(self).leaves@[old(self).leaf_index(cursor).unwrap()]
                    && final(self).leaves@ == old(self).leaves@.update(
                    old(self).leaf_index(cursor).unwrap(),
                    *final(v),
                ),
                None => final(self).leaves@ == old(self).leaves@,
            },
    {
        match self.get_leaf_index(cursor) {
            Some(v) => Some(&mut self.leaves[v]),
            None => None,
        }
    }

    /// The subtree of the first node of record `x` holds the node at `pos`.
    pub open spec fn holds(&self, x: int, pos: int) -> bool {
        is_descendant(self@, self.jumps@[x].jump_to_node as int, pos)
    }

    /// The cursor on the major node of the innermost record whose subtree
    /// holds both the node under `left` and the node under `right`.
    pub fn common_ancestor(&self, left: RawCursor, right: RawCursor) -> (r: RawCursor)
        requires
            self.wf(),
            self.valid_cursor(left),
            self.valid_cursor(right),
        ensures
            self.valid_cursor(r),
            self.at_major(r),
            self.holds(r.parent_jump_index as int, left.node_index as int),
            self.holds(r.parent_jump_index as int, right.node_index as int),
            forall|y: int|
                0 <= y < self.jumps@.len() && #[trigger] self.holds(y, left.node_index as int)
                    && self.holds(y, right.node_index as int) ==> self.holds(
                    y,
                    self.jumps@[r.parent_jump_index as int].jump_to_node as int,
                ),
    {
        let ghost w = self.spans();
        let ghost j = self.jumps@;
        let ghost nn = self.nodes@.len() as int;
        let ghost nl = self.leaves@.len() as int;
        let ghost lpos = left.node_index as int;
        let ghost rpos = right.node_index as int;
        let mut l: usize = left.parent_jump_index;
        let mut r: usize = right.parent_jump_index;
        proof {
            assert forall|y: int| 0 <= y < j.len() implies ((j[y].jump_to_node <= lpos
                <= w.ends[y] && j[y].jump_to_node <= rpos <= w.ends[y]) <==> (encloses(
                j,
                w,
                y,
                l as int,
            ) && encloses(j, w, y, r as int))) by {
                lemma_encloses_node(j, nn, nl, w, y, l as int, lpos);
                lemma_encloses_node(j, nn, nl, w, y, r as int, rpos);
            }
        }
        while l != r
            invariant
                self.inv(w),
                j == self.jumps@,
                nn == self.nodes@.len(),
                nl == self.leaves@.len(),
                l < j.len(),
                r < j.len(),
                forall|y: int|
                    0 <= y < j.len() ==> ((j[y].jump_to_node <= lpos <= w.ends[y]
                        && j[y].jump_to_node <= rpos <= w.ends[y]) <==> (#[trigger] encloses(
                        j,
                        w,
                        y,
                        l as int,
                    ) && encloses(j, w, y, r as int))),
            decreases l + r,
        {
            if l < r {
                let p: isize = self.jumps[r].parent_jump_index;
                proof {
                    lemma_encloses_child(j, nn, nl, w, r as int);
                    assert forall|y: int| 0 <= y < j.len() implies ((encloses(j, w, y, l as int)
                        && encloses(j, w, y, r as int)) <==> (encloses(j, w, y, l as int)
                        && encloses(j, w, y, p as int))) by {
                        if y != r {
                            if encloses(j, w, y, r as int) {
                                lemma_encloses_before(j, nn, nl, w, y, r as int);
                            }
                        } else {
                            if encloses(j, w, y, l as int) {
                                lemma_encloses_before(j, nn, nl, w, y, l as int);
                            }
                            if encloses(j, w, y, p as int) {
                                lemma_encloses_before(j, nn, nl, w, y, p as int);
                            }
                        }
                    }
                }
                r = p as usize;
            } else {
                let p: isize = self.jumps[l].parent_jump_index;
                proof {
                    lemma_encloses_child(j, nn, nl, w, l as int);
                    assert forall|y: int| 0 <= y < j.len() implies ((encloses(j, w, y, l as int)
                        && encloses(j, w, y, r as int)) <==> (encloses(j, w, y, p as int)
                        && encloses(j, w, y, r as int))) by {
                        if y != l {
                            if encloses(j, w, y, l as int) {
                                lemma_encloses_before(j, nn, nl, w, y, l as int);
                            }
                        } else {
                            if encloses(j, w, y, r as int) {
                                lemma_encloses_before(j, nn, nl, w, y, r as int);
                            }
                            if encloses(j, w, y, p as int) {
                                lemma_encloses_before(j, nn, nl, w, y, p as int);
                            }
                        }
                    }
                }
                l = p as usize;
            }
        }
        let jump = self.jumps[l];
        proof {
            lemma_bounded(j, nn, nl, w, l as int);
            assert(encloses(j, w, l as int, l as int));
            lemma_position(self.nodes@, j, self.leaves@, w, l as int, j[l as int].jump_to_node as int);
            assert(self.holds(l as int, lpos) && self.holds(l as int, rpos));
            assert forall|y: int|
                0 <= y < j.len() && #[trigger] self.holds(y, lpos) && self.holds(
                    y,
                    rpos,
                ) implies self.holds(y, j[l as int].jump_to_node as int) by {
                lemma_bounded(j, nn, nl, w, y);
                lemma_position(self.nodes@, j, self.leaves@, w, y, j[y].jump_to_node as int);
                lemma_encloses_node(j, nn, nl, w, y, l as int, j[l as int].jump_to_node as int);
                assert(j[y].jump_to_node <= lpos <= w.ends[y]);
                assert(j[y].jump_to_node <= rpos <= w.ends[y]);
                assert(encloses(j, w, y, l as int));
            }
        }
        RawCursor {
            node_index: jump.jump_to_node + jump.next_major_node_dist as isize,
            parent_jump_index: l,
            depth: jump.depth + jump.next_major_node_dist as isize,
        }
    }

    /// Whether the node under `descendant` lies in the subtree of the node
    /// under `node`.
    pub fn node_is_descendant(&self, node: RawCursor, descendant: RawCursor) -> (b: bool)
        requires
            self.wf(),
            self.valid_cursor(node),
            self.valid_cursor(descendant),
        ensures
            b == is_descendant(self@, node.node_index as int, descendant.node_index as int),
    {
        let last = self.last_child_node(node);
        node.node_index <= descendant.node_index && descendant.node_index <= last.node_index
    }

    /// The keys on the way from the node under `node` down to the node under
    /// `descendant`, which lies in its subtree: the keys of the nodes
    /// strictly between the two, from the top down.
    pub fn route_to_descendant(&self, node: RawCursor, descendant: RawCursor) -> (r: Vec<&N>)
        requires
            self.wf(),
            self.valid_cursor(node),
            self.valid_cursor(descendant),
            is_descendant(self@, node.node_index as int, descendant.node_index as int),
        ensures
            r@.len() == if descendant.node_index == node.node_index {
                0
            } else {
                descendant.depth - node.depth - 1
            },
            forall|k: int|
                0 <= k < r@.len() ==> on_route(
                    self@,
                    node.node_index as int,
                    descendant.node_index as int,
                    node.depth + 1 + k,
                    *#[trigger] r@[k],
                ),
    {
        let ghost w = self.spans();
        let ghost s = self@;
        let ghost apos = node.node_index as int;
        let ghost dpos = descendant.node_index as int;
        let mut up: Vec<&N> = Vec::new();
        proof {
            self.lemma_cursor(w, node);
            self.lemma_cursor(w, descendant);
        }
        if descendant.node_index == node.node_index {
            return up;
        }
        let mut c = match self.node_parent(descendant) {
            Some(p) => p,
            None => vstd::pervasive::unreached(),
        };
        proof {
            self.lemma_cursor(w, c);
            lemma_within_end(s, apos, dpos, subtree_end(s, apos));
            assert(within(s, apos, dpos));
            assert(within(s, dpos, dpos));
            lemma_parent_holds(s, apos, dpos, c.node_index as int, dpos);
        }
        while c.node_index != node.node_index
            invariant
                self.wf(),
                self.inv(w),
                s == self@,
                self.valid_cursor(node),
                self.valid_cursor(c),
                apos == node.node_index,
                dpos == descendant.node_index,
                -1 <= apos <= c.node_index < dpos < s.len(),
                within(s, apos, c.node_index as int),
                within(s, c.node_index as int, dpos),
                depth_at(s, apos) == node.depth,
                depth_at(s, dpos) == descendant.depth,
                c.depth == descendant.depth - 1 - up@.len(),
                c.depth >= node.depth,
                c.node_index == apos <==> c.depth == node.depth,
                forall|k: int|
                    0 <= k < up@.len() ==> on_way(
                        s,
                        apos,
                        dpos,
                        descendant.depth - 1 - k,
                        *#[trigger] up@[k],
                    ),
            decreases c.node_index + 2,
        {
            proof {
                self.lemma_cursor(w, c);
                lemma_ancestor_on(s, dpos, c.depth as int, c.node_index as int);
            }
            let key = match self.get_node(c) {
                Some(k) => k,
                None => vstd::pervasive::unreached(),
            };
            let ghost before = up@;
            up.push(key);
            let p = match self.node_parent(c) {
                Some(p) => p,
                None => vstd::pervasive::unreached(),
            };
            proof {
                self.lemma_cursor(w, p);
                lemma_parent_holds(s, apos, c.node_index as int, p.node_index as int, dpos);
                assert forall|k: int| 0 <= k < up@.len() implies on_way(
                    s,
                    apos,
                    dpos,
                    descendant.depth - 1 - k,
                    *#[trigger] up@[k],
                ) by {
                    if k < before.len() {
                        assert(up@[k] == before[k]);
                        assert(on_way(s, apos, dpos, descendant.depth - 1 - k, *before[k]));
                    } else {
                        assert(up@[k] == key);
                        assert(descendant.depth - 1 - k == c.depth);
                        assert(ancestor_on(s, dpos, c.depth as int) == c.node_index);
                    }
                }
            }
            c = p;
        }
        let ghost rising = up@;
        let mut out: Vec<&N> = Vec::new();
        let total: usize = up.len();
        let mut k: usize = 0;
        while k < total
            invariant
                rising == up@,
                total == rising.len(),
                k <= total,
                out@.len() == k,
                forall|n: int| 0 <= n < k ==> (#[trigger] out@[n]) == rising[total - 1 - n],
            decreases total - k,
        {
            out.push(up[total - 1 - k]);
            k += 1;
        }
        proof {
            assert forall|n: int| 0 <= n < out@.len() implies on_route(
                s,
                apos,
                dpos,
                node.depth + 1 + n,
                *#[trigger] out@[n],
            ) by {
                let q = total - 1 - n;
                assert(out@[n] == rising[q]);
                assert(total == descendant.depth - node.depth - 1);
                assert(descendant.depth - 1 - q == node.depth + 1 + n);
                assert(on_way(s, apos, dpos, descendant.depth - 1 - q, *rising[q]));
                let m = ancestor_on(s, dpos, descendant.depth - 1 - q);
                self.lemma_holds(m, dpos);
            }
        }
        out
    }

    /// A node that follows a position through deeper nodes only lies in the
    /// subtree of that position.
    pub proof fn lemma_holds(&self, m: int, d: int)
        requires
            self.wf(),
            within(self@, m, d),
        ensures
            is_descendant(self@, m, d),
    {
        let w = self.spans();
        let j = self.jumps@;
        let nn = self.nodes@.len() as int;
        let nl = self.leaves@.len() as int;
        if m >= 0 {
            let x = w.owner[m];
            assert(0 <= x < j.len() && j[x].covers(m)) by {
                reveal(inv_cover);
            }
            lemma_position(self.nodes@, j, self.leaves@, w, x, m);
            lemma_within_end(self@, m, d, w.ends[x]);
        } else {
            assert(j.len() >= 1 && j[0].jump_to_node == -1) by {
                reveal(inv_basic);
            }
            assert(j[0].covers(-1));
            lemma_position(self.nodes@, j, self.leaves@, w, 0, m);
            lemma_within_end(self@, m, d, w.ends[0]);
        }
    }

    /// The index of the first cursor of `cs`, from index `n` on, whose node
    /// has a key equal to `key`.
    pub open spec fn first_with_key<O>(&self, cs: Seq<RawCursor>, key: O, n: int) -> Option<
        int,
    > where N: PartialEq<O>
        decreases cs.len() - n,
    {
        if n < 0 || n >= cs.len() {
            None
        } else if self.nodes@[cs[n].node_index as int].eq_spec(&key) {
            Some(n)
        } else {
            self.first_with_key(cs, key, n + 1)
        }
    }

    /// The cursor on the first child of the node under `cursor` whose key is
    /// equal to `key`.
    pub open spec fn child_with_key<O>(&self, cursor: RawCursor, key: O) -> Option<
        RawCursor,
    > where N: PartialEq<O> {
        match self.first_with_key(self.children(cursor), key, 0) {
            Some(n) => Some(self.children(cursor)[n]),
            None => None,
        }
    }

    /// The cursor on the first child of the node under `cursor` whose key is
    /// equal to `key`, if there is one.
    pub fn child_by_key<O>(&self, cursor: RawCursor, key: &O) -> (r: Option<RawCursor>) where
        N: PartialEq<O>,

        requires
            self.wf(),
            self.valid_cursor(cursor),
        ensures
            <N as PartialEqSpec<O>>::obeys_eq_spec() ==> r == self.child_with_key(cursor, *key),
            r matches Some(c) ==> self.valid_cursor(c) && is_child(
                self@,
                cursor.node_index as int,
                c.node_index as int,
            ) && c.depth == cursor.depth + 1 && (<N as PartialEqSpec<O>>::obeys_eq_spec()
                ==> self@[c.node_index as int].key.eq_spec(key)),
            r.is_none() && <N as PartialEqSpec<O>>::obeys_eq_spec() ==> forall|c: int|
                is_child(self@, cursor.node_index as int, c) ==> !(#[trigger] self@[c]).key.eq_spec(
                    key,
                ),
    {
        let ghost w = self.spans();
        proof {
            self.lemma_cursor(w, cursor);
        }
        let children = self.node_direct_children(cursor);
        let ghost cs = children@;
        let mut k: usize = 0;
        while k < children.len()
            invariant
                self.wf(),
                self.valid_cursor(cursor),
                cs == children@,
                cs == self.children(cursor),
                cursor.node_index >= -1,
                forall|n: int|
                    0 <= n < cs.len() ==> self.valid_cursor(#[trigger] cs[n]) && is_child(
                        self@,
                        cursor.node_index as int,
                        cs[n].node_index as int,
                    ),
                k <= cs.len(),
                <N as PartialEqSpec<O>>::obeys_eq_spec() ==> self.first_with_key(cs, *key, 0)
                    == self.first_with_key(cs, *key, k as int),
                <N as PartialEqSpec<O>>::obeys_eq_spec() ==> forall|n: int|
                    0 <= n < k ==> !self.nodes@[(#[trigger] cs[n]).node_index as int].eq_spec(key),
            decreases cs.len() - k,
        {
            let child = children[k];
            proof {
                self.lemma_cursor(self.spans(), child);
            }
            match self.get_node(child) {
                Some(found) => {
                    if found.eq(key) {
                        proof {
                            self.lemma_child_depth(cursor, child);
                        }
                        return Some(child);
                    }
                },
                None => {
                    vstd::pervasive::unreached::<()>();
                },
            }
            k += 1;
        }
        proof {
            if <N as PartialEqSpec<O>>::obeys_eq_spec() {
                assert forall|c: int| is_child(self@, cursor.node_index as int, c) implies !(
                #[trigger] self@[c]).key.eq_spec(key) by {
                    let n = choose|n: int| 0 <= n < cs.len() && (#[trigger] cs[n]).node_index == c;
                    assert(!self.nodes@[cs[n].node_index as int].eq_spec(key));
                }
            }
        }
        None
    }

    /// A child lies one level below its parent.
    pub proof fn lemma_child_depth(&self, cursor: RawCursor, child: RawCursor)
        requires
            self.wf(),
            self.valid_cursor(cursor),
            self.valid_cursor(child),
            is_child(self@, cursor.node_index as int, child.node_index as int),
        ensures
            child.depth == cursor.depth + 1,
    {
        let w = self.spans();
        self.lemma_cursor(w, cursor);
        self.lemma_cursor(w, child);
    }
}

impl<N: PartialEq, L> RawTrie<N, L> {
    /// Where a walk down from `cursor` comes that follows the keys `keys`
    /// from index `k` on, child by child: the cursor on the last node, or
    /// the cursor on the node that has no child with the next key, together
    /// with the index of that key.
    pub open spec fn entered(&self, cursor: RawCursor, keys: Seq<N>, k: int) -> Result<
        RawCursor,
        (RawCursor, int),
    >
        decreases keys.len() - k,
    {
        if k < 0 || k >= keys.len() {
            Ok(cursor)
        } else {
            match self.child_with_key(cursor, keys[k]) {
                Some(c) => self.entered(c, keys, k + 1),
                None => Err((cursor, k)),
            }
        }
    }

    /// Walks down from `cursor` along the keys `children`, child by child.
    /// Returns the cursor on the last node, or the cursor on the node that
    /// has no child with the next key, together with the number of keys
    /// that were followed.
    pub fn node_enter_children(&self, cursor: RawCursor, children: &Vec<N>) -> (r: Result<
        RawCursor,
        (RawCursor, usize),
    >)
        requires
            self.wf(),
            self.valid_cursor(cursor),
        ensures
            match r {
                Ok(c) => self.valid_cursor(c) && c.depth == cursor.depth + children@.len() && (
                N::obeys_eq_spec() ==> self.entered(cursor, children@, 0) == Ok::<
                    RawCursor,
                    (RawCursor, int),
                >(c)),
                Err((c, n)) => self.valid_cursor(c) && n < children@.len() && c.depth
                    == cursor.depth + n && (N::obeys_eq_spec() ==> self.entered(
                    cursor,
                    children@,
                    0,
                ) == Err::<RawCursor, (RawCursor, int)>((c, n as int))),
            },
    {
        let mut at = cursor;
        let mut k: usize = 0;
        while k < children.len()
            invariant
                self.wf(),
                self.valid_cursor(at),
                k <= children@.len(),
                at.depth == cursor.depth + k,
                N::obeys_eq_spec() ==> self.entered(cursor, children@, 0) == self.entered(
                    at,
                    children@,
                    k as int,
                ),
            decreases children@.len() - k,
        {
            match self.child_by_key(at, &children[k]) {
                Some(c) => {
                    at = c;
                },
                None => {
                    return Err((at, k));
                },
            }
            k += 1;
        }
        Ok(at)
    }
}

} // verus!
