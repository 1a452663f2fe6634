//! How the jump table changes when the subtree of a node is cut out, and why
//! the result is again a valid layout.

use vstd::prelude::*;
use crate::jump::{Jump, MajorNode};
use crate::layout::{depth_of, inv, inv_basic, inv_cover, inv_depths, inv_leaves, inv_links, inv_nested, inv_sorted, key_lt, lemma_bounded, lemma_owner, lemma_position, listing, Spans};
use crate::model::{pruned, subtree_end};
use crate::thin::Thin;

verus! {

/// The major node that carries `leaf` and has its first child at `child`.
pub open spec fn major_of(leaf: Option<int>, child: Option<int>) -> MajorNode {
    match (leaf, child) {
        (Some(v), Some(c)) => MajorNode::LeafJump {
            leaf_index: v as usize,
            child_jump_index: c as usize,
        },
        (Some(v), None) => MajorNode::Leaf { leaf_index: Some(v as usize) },
        (None, Some(c)) => MajorNode::Jump { child_jump_index: c as usize },
        (None, None) => MajorNode::Leaf { leaf_index: None },
    }
}

/// One pruning: the nodes `pos ..= e`, the subtree of the node at `pos` on
/// the run of record `i`, leave the trie. `jt` thins the jump table and `vt`
/// the value store.
pub struct Prune {
    pub i: int,
    pub pos: int,
    pub e: int,
    pub jt: Thin,
    pub vt: Thin,
}

impl Prune {
    /// The number of nodes that leave.
    pub open spec fn count(self) -> int {
        self.e - self.pos + 1
    }

    /// The run of the record at `x` starts among the nodes that leave.
    pub open spec fn gone(self, j: Seq<Jump>, x: int) -> bool {
        self.pos <= j[x].jump_to_node <= self.e
    }

    /// The run of `i` starts before `pos`: the record stays, with a shorter run.
    pub open spec fn inside(self, j: Seq<Jump>) -> bool {
        j[self.i].jump_to_node < self.pos
    }

    /// The value of rank `r` leaves with its node.
    pub open spec fn value_gone(self, j: Seq<Jump>, w: Spans, r: int) -> bool {
        self.gone(j, w.leaf_owner[r]) || (w.leaf_owner[r] == self.i && self.inside(j))
    }

    /// The record at `x` leaves exactly if `jt` says so.
    pub open spec fn mark_ok(self, j: Seq<Jump>, x: int) -> bool {
        self.jt.gone[x] == self.gone(j, x)
    }

    /// The value of rank `r` leaves exactly if `vt` says so.
    pub open spec fn value_mark_ok(self, j: Seq<Jump>, w: Spans, r: int) -> bool {
        self.vt.gone[r] == self.value_gone(j, w, r)
    }

    /// The pruning is possible on table `j`, certified by `w`.
    #[verifier::opaque]
    pub open spec fn fits(self, j: Seq<Jump>, n_nodes: int, n_leaves: int, w: Spans) -> bool {
        &&& 0 <= self.i < j.len()
        &&& 0 <= self.pos
        &&& j[self.i].covers(self.pos)
        &&& self.e == w.ends[self.i]
        &&& self.jt.wf()
        &&& self.jt.gone.len() == j.len()
        &&& self.vt.wf()
        &&& self.vt.gone.len() == n_leaves
        &&& forall|x: int| 0 <= x < j.len() ==> #[trigger] self.mark_ok(j, x)
        &&& forall|r: int| 0 <= r < n_leaves ==> #[trigger] self.value_mark_ok(j, w, r)
    }

    /// `v`, lowered by the number of nodes that leave where it lies behind them.
    pub open spec fn lowered(self, v: int) -> int {
        if v > self.e {
            v - self.count()
        } else {
            v
        }
    }

    /// The first child of the record at `x` after the pruning.
    pub open spec fn child_after(self, j: Seq<Jump>, x: int) -> Option<int> {
        match j[x].next_major_node.child() {
            Some(c) => if !self.gone(j, c) {
                Some(self.jt.idx[c])
            } else if x != self.i && c + 1 < j.len() && j[c + 1].parent_jump_index == x {
                Some(self.jt.idx[c + 1])
            } else {
                None
            },
            None => None,
        }
    }

    /// The rank of the value of the record at `x` after the pruning.
    pub open spec fn leaf_after(self, j: Seq<Jump>, x: int) -> Option<int> {
        match j[x].next_major_node.leaf() {
            Some(v) => if x == self.i && self.inside(j) {
                None
            } else {
                Some(self.vt.idx[v])
            },
            None => None,
        }
    }

    /// The record at old index `x` as it stands after the pruning.
    pub open spec fn image(self, j: Seq<Jump>, x: int) -> Jump {
        Jump {
            parent_jump_index: if j[x].parent_jump_index < 0 {
                j[x].parent_jump_index
            } else {
                self.jt.idx[j[x].parent_jump_index as int] as isize
            },
            jump_to_node: self.lowered(j[x].jump_to_node as int) as isize,
            next_major_node_dist: if x == self.i && self.inside(j) {
                (self.pos - 1 - j[x].jump_to_node) as usize
            } else {
                j[x].next_major_node_dist
            },
            next_major_node: major_of(self.leaf_after(j, x), self.child_after(j, x)),
            depth: j[x].depth,
        }
    }

    /// The jump table after the pruning.
    pub open spec fn table(self, j: Seq<Jump>) -> Seq<Jump> {
        Seq::new(self.jt.org.len(), |y: int| self.image(j, self.jt.org[y]))
    }

    /// The node sequence after the pruning.
    pub open spec fn nodes<N>(self, nodes: Seq<N>) -> Seq<N> {
        nodes.subrange(0, self.pos) + nodes.subrange(self.e + 1, nodes.len() as int)
    }

    /// The end of the subtree of the record at old index `x` after the pruning.
    pub open spec fn end_after(self, w: Spans, x: int) -> int {
        if w.ends[x] >= self.e {
            w.ends[x] - self.count()
        } else {
            w.ends[x]
        }
    }

    /// The certificate of the table after the pruning.
    pub open spec fn spans(self, j: Seq<Jump>, n_nodes: int, n_leaves: int, w: Spans) -> Spans {
        Spans {
            ends: Seq::new(self.jt.org.len(), |y: int| self.end_after(w, self.jt.org[y])),
            owner: Seq::new(
                (n_nodes - self.count()) as nat,
                |n: int|
                    self.jt.idx[w.owner[if n < self.pos {
                        n
                    } else {
                        n + self.count()
                    }]],
            ),
            leaf_owner: Seq::new(
                self.vt.org.len(),
                |r: int| self.jt.idx[w.leaf_owner[self.vt.org[r]]],
            ),
        }
    }

    /// What the pruning asks of the table, and where the nodes that leave lie.
    pub proof fn lemma_frame(self, j: Seq<Jump>, n_nodes: int, n_leaves: int, w: Spans)
        requires
            inv(j, n_nodes, n_leaves, w),
            self.fits(j, n_nodes, n_leaves, w),
        ensures
            0 <= self.i < j.len(),
            0 <= self.pos <= j[self.i].major() <= self.e < n_nodes,
            j[self.i].jump_to_node <= self.pos,
            self.e == w.ends[self.i],
            self.count() >= 1,
            self.jt.wf(),
            self.jt.len() == j.len(),
            self.vt.wf(),
            self.vt.len() == n_leaves,
            j.len() < isize::MAX,
            n_nodes < isize::MAX,
            self.inside(j) ==> self.i >= 0 && !self.gone(j, self.i),
            !self.inside(j) ==> self.gone(j, self.i) && self.i >= 1,
    {
        reveal(Prune::fits);
        reveal(inv_basic);
        reveal(inv_links);
        assert(j[self.i].major() <= w.ends[self.i] < n_nodes);
    }

    /// A record leaves exactly if its run starts among the nodes that leave.
    pub proof fn lemma_mark(self, j: Seq<Jump>, n_nodes: int, n_leaves: int, w: Spans, x: int)
        requires
            self.fits(j, n_nodes, n_leaves, w),
            0 <= x < j.len(),
        ensures
            self.jt.gone[x] == self.gone(j, x),
    {
        reveal(Prune::fits);
        assert(self.mark_ok(j, x));
    }

    /// Where a record lies that leaves, and where one lies that stays.
    pub proof fn lemma_side(self, j: Seq<Jump>, n_nodes: int, n_leaves: int, w: Spans, x: int)
        requires
            inv(j, n_nodes, n_leaves, w),
            self.fits(j, n_nodes, n_leaves, w),
            0 <= x < j.len(),
        ensures
            -1 <= j[x].jump_to_node <= j[x].major() <= w.ends[x] < n_nodes,
            self.gone(j, x) ==> {
                &&& w.ends[x] <= self.e
                &&& x == self.i || (j[self.i].major() < j[x].jump_to_node && x != self.i)
            },
            !self.gone(j, x) ==> {
                &&& j[x].jump_to_node < self.pos || j[x].jump_to_node > self.e
                &&& w.ends[x] < self.pos || w.ends[x] >= self.e
                &&& j[x].jump_to_node > self.e ==> w.ends[x] > self.e
                &&& x != self.i ==> (j[x].major() < self.pos || j[x].jump_to_node > self.e)
                &&& x == self.i ==> self.inside(j)
            },
    {
        self.lemma_frame(j, n_nodes, n_leaves, w);
        reveal(inv_basic);
        reveal(inv_links);
        reveal(inv_nested);
        assert(j[x].major() <= w.ends[x] < n_nodes);
        if x != self.i {
            if j[x].jump_to_node <= j[self.i].jump_to_node {
                assert(j[x].jump_to_node < j[self.i].jump_to_node);
            } else {
                assert(j[self.i].jump_to_node < j[x].jump_to_node);
            }
        }
    }

    /// A child leaves with its parent; where a child leaves and its parent
    /// stays, the child is the root of the subtree that leaves, or the parent
    /// is the record whose run is cut short.
    pub proof fn lemma_family(self, j: Seq<Jump>, n_nodes: int, n_leaves: int, w: Spans, y: int)
        requires
            inv(j, n_nodes, n_leaves, w),
            self.fits(j, n_nodes, n_leaves, w),
            1 <= y < j.len(),
        ensures
            ({
                let x = j[y].parent_jump_index as int;
                &&& 0 <= x < y
                &&& self.gone(j, x) ==> self.gone(j, y)
                &&& !self.gone(j, x) && self.gone(j, y) ==> (y == self.i && !self.inside(j)) || (x
                    == self.i && self.inside(j))
                &&& j[x].major() < j[y].jump_to_node
                &&& w.ends[y] <= w.ends[x]
                &&& j[y].depth == j[x].depth + j[x].next_major_node_dist + 1
                &&& j[x].next_major_node.child().is_some()
                &&& j[x].next_major_node.child().unwrap() <= y
            }),
    {
        let x = j[y].parent_jump_index as int;
        assert(0 <= x < y) by {
            reveal(inv_basic);
        }
        assert({
            &&& j[x].major() < j[y].jump_to_node
            &&& w.ends[y] <= w.ends[x]
            &&& j[y].depth == j[x].depth + j[x].next_major_node_dist + 1
            &&& j[x].next_major_node.child().is_some()
            &&& j[x].next_major_node.child().unwrap() <= y
        }) by {
            reveal(inv_links);
        }
        self.lemma_frame(j, n_nodes, n_leaves, w);
        self.lemma_side(j, n_nodes, n_leaves, w, x);
        self.lemma_side(j, n_nodes, n_leaves, w, y);
        if !self.gone(j, x) && self.gone(j, y) && y != self.i {
            if j[x].jump_to_node > j[self.i].jump_to_node {
                assert(false) by {
                    reveal(inv_nested);
                    reveal(inv_links);
                }
            }
            assert(x == self.i) by {
                reveal(inv_nested);
                reveal(inv_depths);
                reveal(inv_links);
                if x != self.i {
                    assert(j[x].jump_to_node < j[self.i].jump_to_node);
                    assert(j[self.i].depth > j[x].depth + j[x].next_major_node_dist);
                    assert(j[y].depth > j[self.i].depth + j[self.i].next_major_node_dist);
                }
            }
        }
    }

    /// The records that leave stand behind `i`, or are `i`.
    pub proof fn lemma_gone_after(
        self,
        j: Seq<Jump>,
        n_nodes: int,
        n_leaves: int,
        w: Spans,
        y: int,
    )
        requires
            inv(j, n_nodes, n_leaves, w),
            self.fits(j, n_nodes, n_leaves, w),
            0 <= y < j.len(),
            self.gone(j, y),
        ensures
            y >= self.i,
        decreases y,
    {
        self.lemma_frame(j, n_nodes, n_leaves, w);
        self.lemma_side(j, n_nodes, n_leaves, w, y);
        if y != self.i {
            assert(y >= 1) by {
                reveal(inv_basic);
            }
            self.lemma_family(j, n_nodes, n_leaves, w, y);
            let x = j[y].parent_jump_index as int;
            if self.gone(j, x) {
                self.lemma_gone_after(j, n_nodes, n_leaves, w, x);
            }
        }
    }

    /// The records up to `i` keep their indices.
    pub proof fn lemma_low(self, j: Seq<Jump>, n_nodes: int, n_leaves: int, w: Spans, x: int)
        requires
            inv(j, n_nodes, n_leaves, w),
            self.fits(j, n_nodes, n_leaves, w),
            0 <= x <= self.i,
        ensures
            self.jt.idx[x] == x,
            x < self.i ==> !self.gone(j, x),
    {
        self.lemma_frame(j, n_nodes, n_leaves, w);
        assert forall|z: int| 0 <= z < x implies !(#[trigger] self.jt.gone[z]) by {
            self.lemma_mark(j, n_nodes, n_leaves, w, z);
            if self.gone(j, z) {
                self.lemma_gone_after(j, n_nodes, n_leaves, w, z);
            }
        }
        self.jt.lemma_all_kept(x);
        if x < self.i && self.gone(j, x) {
            self.lemma_gone_after(j, n_nodes, n_leaves, w, x);
        }
    }

    /// The record at old index `x`, which stays, and its new index.
    pub proof fn lemma_stays(self, j: Seq<Jump>, n_nodes: int, n_leaves: int, w: Spans, x: int)
        requires
            inv(j, n_nodes, n_leaves, w),
            self.fits(j, n_nodes, n_leaves, w),
            0 <= x < j.len(),
            !self.gone(j, x),
        ensures
            0 <= self.jt.idx[x] < self.jt.rest(),
            self.jt.idx[x] <= x,
            self.jt.org[self.jt.idx[x]] == x,
            self.table(j)[self.jt.idx[x]] == self.image(j, x),
            self.table(j).len() == self.jt.rest(),
            self.jt.rest() <= j.len(),
    {
        self.lemma_frame(j, n_nodes, n_leaves, w);
        self.lemma_mark(j, n_nodes, n_leaves, w, x);
        self.jt.lemma_kept(x);
        self.jt.lemma_mono(x, j.len() as int);
        self.jt.lemma_mono(j.len() as int, j.len() as int);
    }

    /// The record at new index `y` and the old index it came from.
    pub proof fn lemma_came(self, j: Seq<Jump>, n_nodes: int, n_leaves: int, w: Spans, y: int)
        requires
            inv(j, n_nodes, n_leaves, w),
            self.fits(j, n_nodes, n_leaves, w),
            0 <= y < self.jt.rest(),
        ensures
            0 <= self.jt.org[y] < j.len(),
            !self.gone(j, self.jt.org[y]),
            self.jt.idx[self.jt.org[y]] == y,
            self.table(j)[y] == self.image(j, self.jt.org[y]),
            self.table(j).len() == self.jt.rest(),
            y == 0 <==> self.jt.org[y] == 0,
    {
        self.lemma_frame(j, n_nodes, n_leaves, w);
        self.jt.lemma_org(y);
        let x = self.jt.org[y];
        self.lemma_mark(j, n_nodes, n_leaves, w, x);
        assert(!self.gone(j, 0)) by {
            reveal(inv_basic);
        }
        self.lemma_stays(j, n_nodes, n_leaves, w, 0);
        self.lemma_low(j, n_nodes, n_leaves, w, 0);
        if x > 0 {
            self.jt.lemma_mono(0, x);
        }
    }

    /// The fields of the record that came from old index `x`.
    pub open spec fn carried(self, j: Seq<Jump>, x: int, r: Jump) -> bool {
        &&& r.parent_jump_index == if x == 0 {
            -1
        } else {
            self.jt.idx[j[x].parent_jump_index as int]
        }
        &&& r.jump_to_node == self.lowered(j[x].jump_to_node as int)
        &&& r.major() == if x == self.i {
            self.pos - 1
        } else {
            self.lowered(j[x].major())
        }
        &&& r.depth == j[x].depth
        &&& r.next_major_node.child() == self.child_after(j, x)
        &&& r.next_major_node.leaf() == self.leaf_after(j, x)
    }

    /// What the image of a record that stays holds.
    pub proof fn lemma_image(self, j: Seq<Jump>, n_nodes: int, n_leaves: int, w: Spans, x: int)
        requires
            inv(j, n_nodes, n_leaves, w),
            self.fits(j, n_nodes, n_leaves, w),
            0 <= x < j.len(),
            !self.gone(j, x),
        ensures
            self.carried(j, x, self.image(j, x)),
            x >= 1 ==> !self.gone(j, j[x].parent_jump_index as int),
    {
        let len = j.len() as int;
        self.lemma_frame(j, n_nodes, n_leaves, w);
        self.lemma_side(j, n_nodes, n_leaves, w, x);
        lemma_bounded(j, n_nodes, n_leaves, w, x);
        assert(j[0].parent_jump_index == -1 && (x >= 1 ==> 0 <= j[x].parent_jump_index < x)) by {
            reveal(inv_basic);
        }
        if x >= 1 {
            self.lemma_family(j, n_nodes, n_leaves, w, x);
            let p = j[x].parent_jump_index as int;
            self.jt.lemma_mono(p, x);
        }
        match j[x].next_major_node.child() {
            Some(c) => {
                self.jt.lemma_mono(c, len);
                if c + 1 < len {
                    self.jt.lemma_mono(c + 1, len);
                }
            },
            None => {},
        }
        match j[x].next_major_node.leaf() {
            Some(v) => {
                self.vt.lemma_mono(v, n_leaves);
            },
            None => {},
        }
    }

    /// The subtree ends after the pruning.
    pub open spec fn ends(self, w: Spans) -> Seq<int> {
        Seq::new(self.jt.org.len(), |y: int| self.end_after(w, self.jt.org[y]))
    }

    /// A record that stays lies no deeper than its first node stands after
    /// the pruning.
    proof fn lemma_depth(self, j: Seq<Jump>, n_nodes: int, n_leaves: int, w: Spans, x: int)
        requires
            inv(j, n_nodes, n_leaves, w),
            self.fits(j, n_nodes, n_leaves, w),
            0 <= x < j.len(),
            !self.gone(j, x),
        ensures
            j[x].depth <= self.lowered(j[x].jump_to_node as int),
            x >= 1 ==> 0 <= j[x].depth,
        decreases x,
    {
        self.lemma_frame(j, n_nodes, n_leaves, w);
        self.lemma_side(j, n_nodes, n_leaves, w, x);
        if x >= 1 {
            self.lemma_family(j, n_nodes, n_leaves, w, x);
            let p = j[x].parent_jump_index as int;
            self.lemma_depth(j, n_nodes, n_leaves, w, p);
            self.lemma_side(j, n_nodes, n_leaves, w, p);
            assert(0 <= j[x].depth) by {
                reveal(inv_basic);
            }
        } else {
            assert(j[0].depth == -1 && j[0].jump_to_node == -1) by {
                reveal(inv_basic);
            }
        }
    }

    /// Where the record at new index `y` lies: its run, its depth and the
    /// end of its subtree.
    pub proof fn lemma_place(self, j: Seq<Jump>, n_nodes: int, n_leaves: int, w: Spans, y: int)
        requires
            inv(j, n_nodes, n_leaves, w),
            self.fits(j, n_nodes, n_leaves, w),
            0 <= y < self.jt.rest(),
        ensures
            ({
                let t = self.table(j);
                let x = self.jt.org[y];
                &&& 0 <= x < j.len()
                &&& !self.gone(j, x)
                &&& self.jt.idx[x] == y
                &&& t.len() == self.jt.rest()
                &&& t[y] == self.image(j, x)
                &&& self.carried(j, x, t[y])
                &&& self.ends(w)[y] == self.end_after(w, x)
                &&& self.spans(j, n_nodes, n_leaves, w).ends == self.ends(w)
                &&& t[y].jump_to_node <= t[y].major() <= self.ends(w)[y] < n_nodes - self.count()
                &&& -1 <= t[y].jump_to_node
                &&& x == self.i ==> self.inside(j) && self.ends(w)[y] == self.pos - 1
                &&& x != self.i ==> t[y].next_major_node_dist == j[x].next_major_node_dist
                &&& x == self.i ==> t[y].next_major_node_dist == self.pos - 1
                    - j[x].jump_to_node
            }),
    {
        self.lemma_frame(j, n_nodes, n_leaves, w);
        self.lemma_came(j, n_nodes, n_leaves, w, y);
        let x = self.jt.org[y];
        self.lemma_image(j, n_nodes, n_leaves, w, x);
        self.lemma_side(j, n_nodes, n_leaves, w, x);
        assert(self.spans(j, n_nodes, n_leaves, w).ends =~= self.ends(w));
    }

    /// Record `0` is the root of the new table, and every other record
    /// follows its parent.
    proof fn lemma_basic(self, j: Seq<Jump>, n_nodes: int, n_leaves: int, w: Spans)
        requires
            inv(j, n_nodes, n_leaves, w),
            self.fits(j, n_nodes, n_leaves, w),
        ensures
            inv_basic(self.table(j), n_nodes - self.count()),
    {
        let t = self.table(j);
        self.lemma_frame(j, n_nodes, n_leaves, w);
        assert(!self.gone(j, 0) && j[0].depth == -1) by {
            reveal(inv_basic);
        }
        self.lemma_stays(j, n_nodes, n_leaves, w, 0);
        self.lemma_low(j, n_nodes, n_leaves, w, 0);
        self.lemma_place(j, n_nodes, n_leaves, w, 0);
        self.lemma_side(j, n_nodes, n_leaves, w, 0);
        assert forall|y: int| 1 <= y < t.len() implies {
            &&& 0 <= (#[trigger] t[y]).parent_jump_index < y
            &&& 0 <= t[y].depth <= t[y].jump_to_node
            &&& t[y].major() < n_nodes - self.count()
        } by {
            self.lemma_place(j, n_nodes, n_leaves, w, y);
            let x = self.jt.org[y];
            self.lemma_depth(j, n_nodes, n_leaves, w, x);
            self.lemma_family(j, n_nodes, n_leaves, w, x);
            let p = j[x].parent_jump_index as int;
            self.lemma_stays(j, n_nodes, n_leaves, w, p);
            self.jt.lemma_mono(p, x);
            self.lemma_mark(j, n_nodes, n_leaves, w, p);
        }
        reveal(inv_basic);
    }

    /// Two records of the new table stand in the order of their keys.
    proof fn lemma_sorted_at(
        self,
        j: Seq<Jump>,
        n_nodes: int,
        n_leaves: int,
        w: Spans,
        y: int,
        z: int,
    )
        requires
            inv(j, n_nodes, n_leaves, w),
            self.fits(j, n_nodes, n_leaves, w),
            0 <= y < z < self.jt.rest(),
        ensures
            key_lt(self.table(j)[y], self.table(j)[z]),
    {
        self.lemma_frame(j, n_nodes, n_leaves, w);
        self.lemma_place(j, n_nodes, n_leaves, w, y);
        self.lemma_place(j, n_nodes, n_leaves, w, z);
        let x = self.jt.org[y];
        let v = self.jt.org[z];
        if v <= x {
            self.jt.lemma_mono(v, x);
        }
        assert(x < v);
        assert(key_lt(j[x], j[v])) by {
            reveal(inv_sorted);
        }
        self.lemma_side(j, n_nodes, n_leaves, w, x);
        self.lemma_side(j, n_nodes, n_leaves, w, v);
        if x >= 1 {
            self.lemma_family(j, n_nodes, n_leaves, w, x);
            self.lemma_family(j, n_nodes, n_leaves, w, v);
            let p = j[x].parent_jump_index as int;
            let q = j[v].parent_jump_index as int;
            self.lemma_mark(j, n_nodes, n_leaves, w, p);
            self.lemma_mark(j, n_nodes, n_leaves, w, q);
            if p < q {
                self.jt.lemma_mono(p, q);
            }
        } else {
            self.lemma_family(j, n_nodes, n_leaves, w, v);
            let q = j[v].parent_jump_index as int;
            self.jt.lemma_mono(0, q);
        }
    }

    /// The new table is sorted.
    proof fn lemma_sorted(self, j: Seq<Jump>, n_nodes: int, n_leaves: int, w: Spans)
        requires
            inv(j, n_nodes, n_leaves, w),
            self.fits(j, n_nodes, n_leaves, w),
        ensures
            inv_sorted(self.table(j)),
    {
        let t = self.table(j);
        assert forall|y: int, z: int| 0 <= y < z < t.len() implies key_lt(
            #[trigger] t[y],
            #[trigger] t[z],
        ) by {
            self.lemma_sorted_at(j, n_nodes, n_leaves, w, y, z);
        }
        reveal(inv_sorted);
    }

    /// What the old table says of a record and its first child.
    proof fn lemma_old_child(j: Seq<Jump>, n_nodes: int, n_leaves: int, w: Spans, x: int)
        requires
            inv(j, n_nodes, n_leaves, w),
            0 <= x < j.len(),
        ensures
            match j[x].next_major_node.child() {
                Some(c) => x < c < j.len() && j[c].parent_jump_index == x && j[c].jump_to_node
                    == j[x].major() + 1,
                None => w.ends[x] == j[x].major(),
            },
    {
        reveal(inv_links);
        match j[x].next_major_node.child() {
            Some(c) => {
                assert(x < c < j.len());
                assert(j[c].parent_jump_index == x);
            },
            None => {},
        }
    }

    /// What the old table says of the record at `x` and the next one.
    proof fn lemma_old_next(j: Seq<Jump>, n_nodes: int, n_leaves: int, w: Spans, x: int)
        requires
            inv(j, n_nodes, n_leaves, w),
            1 <= x < j.len(),
        ensures
            x + 1 == j.len() ==> w.ends[x] == w.ends[j[x].parent_jump_index as int],
            x + 1 < j.len() ==> if j[x].parent_jump_index == j[x + 1].parent_jump_index {
                j[x + 1].jump_to_node == w.ends[x] + 1
            } else {
                w.ends[x] == w.ends[j[x].parent_jump_index as int]
            },
            x + 1 < j.len() ==> j[x].parent_jump_index <= j[x + 1].parent_jump_index,
    {
        reveal(inv_links);
        if x + 1 < j.len() {
            let z = x + 1;
            assert(if j[x].parent_jump_index == j[z].parent_jump_index {
                j[z].jump_to_node == w.ends[x] + 1
            } else {
                w.ends[x] == w.ends[j[x].parent_jump_index as int]
            });
            assert(key_lt(j[x], j[z])) by {
                reveal(inv_sorted);
            }
        }
    }

    /// The first child of the record at old index `x`, which stays, after
    /// the pruning: the old first child if it stays, else the next child.
    proof fn lemma_child_after(
        self,
        j: Seq<Jump>,
        n_nodes: int,
        n_leaves: int,
        w: Spans,
        x: int,
    )
        requires
            inv(j, n_nodes, n_leaves, w),
            self.fits(j, n_nodes, n_leaves, w),
            0 <= x < j.len(),
            !self.gone(j, x),
        ensures
            match self.child_after(j, x) {
                Some(d) => {
                    &&& 0 <= d < self.jt.rest()
                    &&& self.jt.idx[x] < d
                    &&& !self.gone(j, self.jt.org[d])
                    &&& j[self.jt.org[d]].parent_jump_index == x
                    &&& j[self.jt.org[d]].jump_to_node - (if self.jt.org[d]
                        == j[x].next_major_node.child().unwrap() {
                        0
                    } else {
                        self.count()
                    }) == j[x].major() + 1
                    &&& x != self.i || !self.inside(j)
                    &&& self.jt.org[d] != j[x].next_major_node.child().unwrap() ==> j[x].major()
                        + 1 == self.pos
                },
                None => self.end_after(w, x) == if x == self.i {
                    self.pos - 1
                } else {
                    self.lowered(j[x].major())
                },
            },
            x == self.i ==> self.child_after(j, x).is_none(),
    {
        let len = j.len() as int;
        self.lemma_frame(j, n_nodes, n_leaves, w);
        self.lemma_side(j, n_nodes, n_leaves, w, x);
        Self::lemma_old_child(j, n_nodes, n_leaves, w, x);
        match j[x].next_major_node.child() {
            Some(c) => {
                self.lemma_family(j, n_nodes, n_leaves, w, c);
                self.lemma_side(j, n_nodes, n_leaves, w, c);
                if !self.gone(j, c) {
                    self.lemma_stays(j, n_nodes, n_leaves, w, c);
                    self.jt.lemma_mono(x, c);
                    self.lemma_mark(j, n_nodes, n_leaves, w, x);
                } else if x != self.i {
                    assert(c == self.i && !self.inside(j));
                    Self::lemma_old_next(j, n_nodes, n_leaves, w, c);
                    if c + 1 < len && j[c + 1].parent_jump_index == x {
                        let u = c + 1;
                        self.lemma_side(j, n_nodes, n_leaves, w, u);
                        self.lemma_stays(j, n_nodes, n_leaves, w, u);
                        self.jt.lemma_mono(x, u);
                        self.lemma_mark(j, n_nodes, n_leaves, w, x);
                    }
                }
            },
            None => {},
        }
    }

    /// The major node of a record of the new table lies in its subtree, and
    /// its child reference within the table.
    proof fn lemma_links_single(self, j: Seq<Jump>, n_nodes: int, n_leaves: int, w: Spans, y: int)
        requires
            inv(j, n_nodes, n_leaves, w),
            self.fits(j, n_nodes, n_leaves, w),
            0 <= y < self.jt.rest(),
        ensures
            ({
                let t = self.table(j);
                let ends = self.ends(w);
                &&& t[y].major() <= ends[y] < n_nodes - self.count()
                &&& match t[y].next_major_node.child() {
                    Some(c) => y < c < t.len(),
                    None => ends[y] == t[y].major(),
                }
            }),
    {
        self.lemma_place(j, n_nodes, n_leaves, w, y);
        self.lemma_child_after(j, n_nodes, n_leaves, w, self.jt.org[y]);
    }

    /// A record of the new table lies below its parent, behind the major node
    /// of the parent.
    proof fn lemma_links_parent(
        self,
        j: Seq<Jump>,
        n_nodes: int,
        n_leaves: int,
        w: Spans,
        q: int,
        y: int,
    )
        requires
            inv(j, n_nodes, n_leaves, w),
            self.fits(j, n_nodes, n_leaves, w),
            0 <= q < self.jt.rest(),
            1 <= y < self.jt.rest(),
            self.table(j)[y].parent_jump_index == q,
        ensures
            ({
                let t = self.table(j);
                let ends = self.ends(w);
                &&& t[q].major() < t[y].jump_to_node
                &&& ends[y] <= ends[q]
                &&& t[y].depth == t[q].depth + t[q].next_major_node_dist + 1
                &&& t[q].next_major_node.child().is_some()
                &&& t[q].next_major_node.child().unwrap() <= y
            }),
    {
        let len = j.len() as int;
        self.lemma_frame(j, n_nodes, n_leaves, w);
        self.lemma_place(j, n_nodes, n_leaves, w, y);
        self.lemma_place(j, n_nodes, n_leaves, w, q);
        let x = self.jt.org[y];
        assert(x >= 1) by {
            self.lemma_came(j, n_nodes, n_leaves, w, y);
        }
        self.lemma_family(j, n_nodes, n_leaves, w, x);
        let p = j[x].parent_jump_index as int;
        self.lemma_stays(j, n_nodes, n_leaves, w, p);
        assert(self.jt.org[q] == p);
        self.lemma_side(j, n_nodes, n_leaves, w, x);
        self.lemma_side(j, n_nodes, n_leaves, w, p);
        self.lemma_child_after(j, n_nodes, n_leaves, w, p);
        Self::lemma_old_child(j, n_nodes, n_leaves, w, p);
        let c = j[p].next_major_node.child().unwrap();
        self.lemma_family(j, n_nodes, n_leaves, w, c);
        if !self.gone(j, c) {
            self.jt.lemma_mono(c, x);
        } else {
            // The first child leaves: it is the root of what leaves, and the
            // record at `x` is a later child.
            assert(p != self.i);
            assert(c == self.i);
            assert(x > c);
            let u = c + 1;
            Self::lemma_old_next(j, n_nodes, n_leaves, w, c);
            if u < x {
                assert(key_lt(j[u], j[x])) by {
                    reveal(inv_sorted);
                }
            }
            assert(j[u].parent_jump_index == p);
            self.jt.lemma_mono(u, x);
        }
    }

    /// The first child of a record of the new table names the record as its
    /// parent and follows its major node.
    proof fn lemma_links_child(
        self,
        j: Seq<Jump>,
        n_nodes: int,
        n_leaves: int,
        w: Spans,
        y: int,
        c: int,
    )
        requires
            inv(j, n_nodes, n_leaves, w),
            self.fits(j, n_nodes, n_leaves, w),
            0 <= y < self.jt.rest(),
            0 <= c < self.jt.rest(),
            self.table(j)[y].next_major_node.child() == Some(c),
        ensures
            ({
                let t = self.table(j);
                &&& t[c].parent_jump_index == y
                &&& t[c].jump_to_node == t[y].major() + 1
            }),
    {
        self.lemma_frame(j, n_nodes, n_leaves, w);
        self.lemma_place(j, n_nodes, n_leaves, w, y);
        self.lemma_place(j, n_nodes, n_leaves, w, c);
        let x = self.jt.org[y];
        self.lemma_child_after(j, n_nodes, n_leaves, w, x);
        let d = self.jt.org[c];
        self.lemma_side(j, n_nodes, n_leaves, w, x);
        self.lemma_side(j, n_nodes, n_leaves, w, d);
        assert(d >= 1) by {
            reveal(inv_basic);
        }
    }

    /// The record at old index `x`, which stays, has no record that stays
    /// between itself and the record at `v`. Then the two are children of
    /// one parent that follow each other, or the record at `x` is the last
    /// child of its parent after the pruning.
    proof fn lemma_links_gap(
        self,
        j: Seq<Jump>,
        n_nodes: int,
        n_leaves: int,
        w: Spans,
        x: int,
        v: int,
    )
        requires
            inv(j, n_nodes, n_leaves, w),
            self.fits(j, n_nodes, n_leaves, w),
            1 <= x < v <= j.len(),
            !self.gone(j, x),
            v < j.len() ==> !self.gone(j, v),
            forall|z: int| x < z < v ==> #[trigger] self.jt.gone[z],
        ensures
            ({
                let p = j[x].parent_jump_index as int;
                if v < j.len() && j[v].parent_jump_index == p {
                    self.lowered(j[v].jump_to_node as int) == self.end_after(w, x) + 1
                } else {
                    self.end_after(w, x) == self.end_after(w, p)
                }
            }),
    {
        let len = j.len() as int;
        let p = j[x].parent_jump_index as int;
        self.lemma_frame(j, n_nodes, n_leaves, w);
        self.lemma_side(j, n_nodes, n_leaves, w, x);
        self.lemma_family(j, n_nodes, n_leaves, w, x);
        self.lemma_side(j, n_nodes, n_leaves, w, p);
        Self::lemma_old_next(j, n_nodes, n_leaves, w, x);
        let u = x + 1;
        if v < len {
            self.lemma_side(j, n_nodes, n_leaves, w, v);
            assert(key_lt(j[x], j[v])) by {
                reveal(inv_sorted);
            }
        }
        if u < v {
            assert(self.jt.gone[u]);
            self.lemma_mark(j, n_nodes, n_leaves, w, u);
            self.lemma_family(j, n_nodes, n_leaves, w, u);
            self.lemma_side(j, n_nodes, n_leaves, w, u);
            if j[u].parent_jump_index == p {
                // The next child leaves: it is the root of what leaves.
                assert(u == self.i && !self.inside(j));
                Self::lemma_old_next(j, n_nodes, n_leaves, w, u);
                let s = u + 1;
                if s < len && j[s].parent_jump_index == p {
                    self.lemma_side(j, n_nodes, n_leaves, w, s);
                    assert(!self.gone(j, s));
                    self.lemma_mark(j, n_nodes, n_leaves, w, s);
                    assert(v == s);
                } else if v < len && j[v].parent_jump_index == p {
                    assert(s < v);
                    assert(key_lt(j[u], j[s]) && key_lt(j[s], j[v])) by {
                        reveal(inv_sorted);
                    }
                    assert(false);
                }
            } else if v < len && j[v].parent_jump_index == p {
                assert(key_lt(j[u], j[v])) by {
                    reveal(inv_sorted);
                }
                assert(false);
            }
        }
    }

    /// Of two records that follow each other in the new table, the second
    /// starts behind the subtree of the first where they have one parent;
    /// else the subtree of the first ends with that of its parent.
    proof fn lemma_links_next(
        self,
        j: Seq<Jump>,
        n_nodes: int,
        n_leaves: int,
        w: Spans,
        y: int,
        z: int,
    )
        requires
            inv(j, n_nodes, n_leaves, w),
            self.fits(j, n_nodes, n_leaves, w),
            1 <= y,
            z == y + 1,
            z <= self.jt.rest(),
        ensures
            ({
                let t = self.table(j);
                let ends = self.ends(w);
                if z < t.len() && t[y].parent_jump_index == t[z].parent_jump_index {
                    t[z].jump_to_node == ends[y] + 1
                } else {
                    ends[y] == ends[t[y].parent_jump_index as int]
                }
            }),
    {
        let len = j.len() as int;
        self.lemma_frame(j, n_nodes, n_leaves, w);
        self.lemma_place(j, n_nodes, n_leaves, w, y);
        let x = self.jt.org[y];
        assert(x >= 1) by {
            self.lemma_came(j, n_nodes, n_leaves, w, y);
        }
        self.jt.lemma_org(y);
        self.lemma_family(j, n_nodes, n_leaves, w, x);
        let p = j[x].parent_jump_index as int;
        self.lemma_stays(j, n_nodes, n_leaves, w, p);
        self.lemma_place(j, n_nodes, n_leaves, w, self.jt.idx[p]);
        self.lemma_mark(j, n_nodes, n_leaves, w, p);
        if z < self.jt.rest() {
            self.lemma_place(j, n_nodes, n_leaves, w, z);
            let v = self.jt.org[z];
            self.lemma_family(j, n_nodes, n_leaves, w, v);
            let q = j[v].parent_jump_index as int;
            self.lemma_mark(j, n_nodes, n_leaves, w, q);
            if p < q {
                self.jt.lemma_mono(p, q);
            }
            if q < p {
                self.jt.lemma_mono(q, p);
            }
            self.lemma_links_gap(j, n_nodes, n_leaves, w, x, v);
        } else {
            self.lemma_links_gap(j, n_nodes, n_leaves, w, x, len);
        }
    }

    /// Parent and child references of the new table agree with each other and
    /// with the node ranges.
    proof fn lemma_links(self, j: Seq<Jump>, n_nodes: int, n_leaves: int, w: Spans)
        requires
            inv(j, n_nodes, n_leaves, w),
            self.fits(j, n_nodes, n_leaves, w),
        ensures
            inv_links(self.table(j), n_nodes - self.count(), self.ends(w)),
    {
        let t = self.table(j);
        let ends = self.ends(w);
        self.lemma_frame(j, n_nodes, n_leaves, w);
        assert(!self.gone(j, 0) && w.ends[0] == n_nodes - 1) by {
            reveal(inv_basic);
            reveal(inv_links);
        }
        self.lemma_stays(j, n_nodes, n_leaves, w, 0);
        self.lemma_low(j, n_nodes, n_leaves, w, 0);
        self.lemma_place(j, n_nodes, n_leaves, w, 0);
        assert(ends[0] == n_nodes - self.count() - 1);
        if t.len() >= 2 {
            self.lemma_links_next(j, n_nodes, n_leaves, w, t.len() - 1, t.len() as int);
        }
        assert forall|x: int| 0 <= x < t.len() implies {
            &&& (#[trigger] t[x]).major() <= ends[x] < n_nodes - self.count()
            &&& match t[x].next_major_node.child() {
                Some(c) => x < c < t.len(),
                None => ends[x] == t[x].major(),
            }
        } by {
            self.lemma_links_single(j, n_nodes, n_leaves, w, x);
        }
        assert forall|x: int, y: int|
            0 <= x < t.len() && 1 <= y < t.len() && (#[trigger] t[y]).parent_jump_index
                == x implies {
            &&& (#[trigger] t[x]).major() < t[y].jump_to_node
            &&& ends[y] <= ends[x]
            &&& t[y].depth == t[x].depth + t[x].next_major_node_dist + 1
            &&& t[x].next_major_node.child().is_some()
            &&& t[x].next_major_node.child().unwrap() <= y
        } by {
            self.lemma_links_parent(j, n_nodes, n_leaves, w, x, y);
        }
        assert forall|x: int, c: int|
            0 <= x < t.len() && 0 <= c < t.len() && (#[trigger] t[x]).next_major_node.child()
                == Some(c) implies {
            &&& (#[trigger] t[c]).parent_jump_index == x
            &&& t[c].jump_to_node == t[x].major() + 1
        } by {
            self.lemma_links_child(j, n_nodes, n_leaves, w, x, c);
        }
        assert forall|y: int, z: int| 1 <= y && z == y + 1 && z < t.len() implies if (
        #[trigger] t[y]).parent_jump_index == (#[trigger] t[z]).parent_jump_index {
            t[z].jump_to_node == ends[y] + 1
        } else {
            ends[y] == ends[t[y].parent_jump_index as int]
        } by {
            self.lemma_links_next(j, n_nodes, n_leaves, w, y, z);
        }
        reveal(inv_links);
    }

    /// What the old table says of the places of two records.
    proof fn lemma_old_pair(j: Seq<Jump>, n_nodes: int, n_leaves: int, w: Spans, x: int, y: int)
        requires
            inv(j, n_nodes, n_leaves, w),
            0 <= x < j.len(),
            0 <= y < j.len(),
            x != y,
        ensures
            j[x].jump_to_node != j[y].jump_to_node,
            j[x].jump_to_node < j[y].jump_to_node ==> {
                &&& w.ends[x] < j[y].jump_to_node || (j[x].major() < j[y].jump_to_node
                    && w.ends[y] <= w.ends[x])
                &&& j[y].jump_to_node <= w.ends[x] ==> j[y].depth > j[x].depth
                    + j[x].next_major_node_dist
            },
            j[y].jump_to_node == w.ends[x] + 1 ==> j[y].depth <= j[x].depth,
            j[x].major() <= w.ends[x],
            j[y].major() <= w.ends[y],
    {
        reveal(inv_links);
        reveal(inv_nested);
        reveal(inv_depths);
        if j[x].jump_to_node <= j[y].jump_to_node {
            assert(j[x].jump_to_node < j[y].jump_to_node);
        } else {
            assert(j[y].jump_to_node < j[x].jump_to_node);
        }
    }

    /// The subtrees of two records of the new table are nested or apart, and
    /// their depths agree with it.
    proof fn lemma_pair(self, j: Seq<Jump>, n_nodes: int, n_leaves: int, w: Spans, y: int, z: int)
        requires
            inv(j, n_nodes, n_leaves, w),
            self.fits(j, n_nodes, n_leaves, w),
            0 <= y < self.jt.rest(),
            0 <= z < self.jt.rest(),
            y != z,
        ensures
            ({
                let t = self.table(j);
                let ends = self.ends(w);
                &&& t[y].jump_to_node <= t[z].jump_to_node ==> {
                    &&& t[y].jump_to_node < t[z].jump_to_node
                    &&& ends[y] < t[z].jump_to_node || (t[y].major() < t[z].jump_to_node
                        && ends[z] <= ends[y])
                }
                &&& t[y].jump_to_node < t[z].jump_to_node <= ends[y] ==> t[z].depth > t[y].depth
                    + t[y].next_major_node_dist
                &&& t[z].jump_to_node == ends[y] + 1 ==> t[z].depth <= t[y].depth
            }),
    {
        self.lemma_frame(j, n_nodes, n_leaves, w);
        self.lemma_place(j, n_nodes, n_leaves, w, y);
        self.lemma_place(j, n_nodes, n_leaves, w, z);
        let x = self.jt.org[y];
        let v = self.jt.org[z];
        assert(x != v);
        self.lemma_side(j, n_nodes, n_leaves, w, x);
        self.lemma_side(j, n_nodes, n_leaves, w, v);
        Self::lemma_old_pair(j, n_nodes, n_leaves, w, x, v);
        Self::lemma_old_pair(j, n_nodes, n_leaves, w, v, x);
        if x != self.i {
            Self::lemma_old_pair(j, n_nodes, n_leaves, w, self.i, x);
            Self::lemma_old_pair(j, n_nodes, n_leaves, w, x, self.i);
        }
        if v != self.i {
            Self::lemma_old_pair(j, n_nodes, n_leaves, w, self.i, v);
            Self::lemma_old_pair(j, n_nodes, n_leaves, w, v, self.i);
        }
    }

    /// The subtrees of the new table are nested or apart.
    proof fn lemma_nested(self, j: Seq<Jump>, n_nodes: int, n_leaves: int, w: Spans)
        requires
            inv(j, n_nodes, n_leaves, w),
            self.fits(j, n_nodes, n_leaves, w),
        ensures
            inv_nested(self.table(j), self.ends(w)),
            inv_depths(self.table(j), self.ends(w)),
    {
        let t = self.table(j);
        let ends = self.ends(w);
        assert forall|x: int, y: int|
            0 <= x < t.len() && 0 <= y < t.len() && x != y && (#[trigger] t[x]).jump_to_node <= (
            #[trigger] t[y]).jump_to_node implies {
            &&& t[x].jump_to_node < t[y].jump_to_node
            &&& ends[x] < t[y].jump_to_node || (t[x].major() < t[y].jump_to_node && ends[y]
                <= ends[x])
        } by {
            self.lemma_pair(j, n_nodes, n_leaves, w, x, y);
        }
        assert forall|x: int, y: int| 0 <= x < t.len() && 0 <= y < t.len() && x != y implies {
            &&& (#[trigger] t[x]).jump_to_node < (#[trigger] t[y]).jump_to_node <= ends[x]
                ==> t[y].depth > t[x].depth + t[x].next_major_node_dist
            &&& t[y].jump_to_node == ends[x] + 1 ==> t[y].depth <= t[x].depth
        } by {
            self.lemma_pair(j, n_nodes, n_leaves, w, x, y);
        }
        reveal(inv_nested);
        reveal(inv_depths);
    }

    /// The node that comes to stand at `n`.
    pub open spec fn node_before(self, n: int) -> int {
        if n < self.pos {
            n
        } else {
            n + self.count()
        }
    }

    /// The record that holds the node that comes to stand at `n`.
    proof fn lemma_cover_at(self, j: Seq<Jump>, n_nodes: int, n_leaves: int, w: Spans, n: int)
        requires
            inv(j, n_nodes, n_leaves, w),
            self.fits(j, n_nodes, n_leaves, w),
            0 <= n < n_nodes - self.count(),
        ensures
            ({
                let a = w.owner[self.node_before(n)];
                let y = self.spans(j, n_nodes, n_leaves, w).owner[n];
                &&& 0 <= a < j.len()
                &&& j[a].covers(self.node_before(n))
                &&& !self.gone(j, a)
                &&& y == self.jt.idx[a]
                &&& 0 <= y < self.jt.rest()
                &&& self.jt.org[y] == a
                &&& self.table(j)[y].covers(n)
                &&& a == self.i ==> n < self.pos
            }),
    {
        self.lemma_frame(j, n_nodes, n_leaves, w);
        let m = self.node_before(n);
        let a = w.owner[m];
        assert(0 <= a < j.len() && j[a].covers(m)) by {
            reveal(inv_cover);
        }
        self.lemma_side(j, n_nodes, n_leaves, w, a);
        if a != self.i {
            Self::lemma_old_pair(j, n_nodes, n_leaves, w, self.i, a);
            Self::lemma_old_pair(j, n_nodes, n_leaves, w, a, self.i);
        }
        assert(!self.gone(j, a));
        self.lemma_stays(j, n_nodes, n_leaves, w, a);
        self.lemma_place(j, n_nodes, n_leaves, w, self.jt.idx[a]);
    }

    /// Every node lies on the run of the record that the new certificate
    /// names for it.
    proof fn lemma_cover(self, j: Seq<Jump>, n_nodes: int, n_leaves: int, w: Spans)
        requires
            inv(j, n_nodes, n_leaves, w),
            self.fits(j, n_nodes, n_leaves, w),
        ensures
            inv_cover(
                self.table(j),
                n_nodes - self.count(),
                self.spans(j, n_nodes, n_leaves, w).owner,
            ),
    {
        let t = self.table(j);
        let owner = self.spans(j, n_nodes, n_leaves, w).owner;
        self.lemma_frame(j, n_nodes, n_leaves, w);
        assert forall|n: int| 0 <= n < n_nodes - self.count() implies 0 <= (#[trigger] owner[n])
            < t.len() && t[owner[n]].covers(n) by {
            self.lemma_cover_at(j, n_nodes, n_leaves, w, n);
        }
        reveal(inv_cover);
    }

    /// The value of rank `v`, carried by the record at old index `x`,
    /// stays exactly if its record stays with its major node.
    proof fn lemma_value(self, j: Seq<Jump>, n_nodes: int, n_leaves: int, w: Spans, x: int)
        requires
            inv(j, n_nodes, n_leaves, w),
            self.fits(j, n_nodes, n_leaves, w),
            0 <= x < j.len(),
            j[x].next_major_node.leaf().is_some(),
        ensures
            ({
                let v = j[x].next_major_node.leaf().unwrap();
                &&& 0 <= v < n_leaves
                &&& w.leaf_owner[v] == x
                &&& self.vt.gone[v] == (self.gone(j, x) || (x == self.i && self.inside(j)))
                &&& !self.vt.gone[v] ==> 0 <= self.vt.idx[v] < self.vt.rest()
                    && self.vt.org[self.vt.idx[v]] == v
            }),
    {
        let v = j[x].next_major_node.leaf().unwrap();
        self.lemma_frame(j, n_nodes, n_leaves, w);
        assert(0 <= v < n_leaves && 0 <= w.leaf_owner[v] < j.len()
            && j[w.leaf_owner[v]].next_major_node.leaf() == Some(v)) by {
            reveal(inv_leaves);
        }
        let a = w.leaf_owner[v];
        if a != x {
            assert(false) by {
                reveal(inv_leaves);
            }
        }
        assert(self.value_mark_ok(j, w, v)) by {
            reveal(Prune::fits);
        }
        if !self.vt.gone[v] {
            self.vt.lemma_kept(v);
        }
    }

    /// The ranks rise along the new table.
    proof fn lemma_leaf_order(
        self,
        j: Seq<Jump>,
        n_nodes: int,
        n_leaves: int,
        w: Spans,
        y: int,
        z: int,
    )
        requires
            inv(j, n_nodes, n_leaves, w),
            self.fits(j, n_nodes, n_leaves, w),
            0 <= y < z < self.jt.rest(),
            self.table(j)[y].next_major_node.leaf().is_some(),
            self.table(j)[z].next_major_node.leaf().is_some(),
        ensures
            self.table(j)[y].next_major_node.leaf().unwrap()
                < self.table(j)[z].next_major_node.leaf().unwrap(),
    {
        self.lemma_frame(j, n_nodes, n_leaves, w);
        self.lemma_place(j, n_nodes, n_leaves, w, y);
        self.lemma_place(j, n_nodes, n_leaves, w, z);
        let x = self.jt.org[y];
        let v = self.jt.org[z];
        if v <= x {
            self.jt.lemma_mono(v, x);
        }
        self.lemma_value(j, n_nodes, n_leaves, w, x);
        self.lemma_value(j, n_nodes, n_leaves, w, v);
        let a = j[x].next_major_node.leaf().unwrap();
        let b = j[v].next_major_node.leaf().unwrap();
        assert(a < b) by {
            reveal(inv_leaves);
        }
        self.vt.lemma_mono(a, b);
    }

    /// Every value of the new store is carried by the record that the new
    /// certificate names for it.
    proof fn lemma_leaf_owner(self, j: Seq<Jump>, n_nodes: int, n_leaves: int, w: Spans, r: int)
        requires
            inv(j, n_nodes, n_leaves, w),
            self.fits(j, n_nodes, n_leaves, w),
            0 <= r < self.vt.rest(),
        ensures
            ({
                let lo = self.spans(j, n_nodes, n_leaves, w).leaf_owner;
                &&& 0 <= lo[r] < self.jt.rest()
                &&& self.table(j)[lo[r]].next_major_node.leaf() == Some(r)
            }),
    {
        self.lemma_frame(j, n_nodes, n_leaves, w);
        self.vt.lemma_org(r);
        let v = self.vt.org[r];
        let x = w.leaf_owner[v];
        assert(0 <= x < j.len() && j[x].next_major_node.leaf() == Some(v)) by {
            reveal(inv_leaves);
        }
        self.lemma_value(j, n_nodes, n_leaves, w, x);
        assert(!self.gone(j, x));
        self.lemma_stays(j, n_nodes, n_leaves, w, x);
        self.lemma_place(j, n_nodes, n_leaves, w, self.jt.idx[x]);
    }

    /// The ranks of the new table number the new value store.
    proof fn lemma_leaves(self, j: Seq<Jump>, n_nodes: int, n_leaves: int, w: Spans)
        requires
            inv(j, n_nodes, n_leaves, w),
            self.fits(j, n_nodes, n_leaves, w),
        ensures
            inv_leaves(
                self.table(j),
                self.vt.rest(),
                self.spans(j, n_nodes, n_leaves, w).leaf_owner,
            ),
    {
        let t = self.table(j);
        let lo = self.spans(j, n_nodes, n_leaves, w).leaf_owner;
        self.lemma_frame(j, n_nodes, n_leaves, w);
        assert(!self.gone(j, 0)) by {
            reveal(inv_basic);
        }
        self.lemma_stays(j, n_nodes, n_leaves, w, 0);
        self.lemma_low(j, n_nodes, n_leaves, w, 0);
        self.lemma_place(j, n_nodes, n_leaves, w, 0);
        assert(t[0].next_major_node_dist == 0 ==> t[0].next_major_node.leaf().is_none()) by {
            reveal(inv_leaves);
        }
        assert forall|x: int| 0 <= x < t.len() implies match (
        #[trigger] t[x]).next_major_node.leaf() {
            Some(r) => 0 <= r < self.vt.rest(),
            None => true,
        } by {
            self.lemma_place(j, n_nodes, n_leaves, w, x);
            let a = self.jt.org[x];
            if j[a].next_major_node.leaf().is_some() {
                self.lemma_value(j, n_nodes, n_leaves, w, a);
            }
        }
        assert forall|x: int, y: int|
            0 <= x < y < t.len() && (#[trigger] t[x]).next_major_node.leaf().is_some() && (
            #[trigger] t[y]).next_major_node.leaf().is_some() implies t[x].next_major_node.leaf().unwrap()
            < t[y].next_major_node.leaf().unwrap() by {
            self.lemma_leaf_order(j, n_nodes, n_leaves, w, x, y);
        }
        assert forall|r: int| 0 <= r < self.vt.rest() implies 0 <= (#[trigger] lo[r]) < t.len()
            && t[lo[r]].next_major_node.leaf() == Some(r) by {
            self.lemma_leaf_owner(j, n_nodes, n_leaves, w, r);
        }
        reveal(inv_leaves);
    }

    /// A pruning that fits a valid layout gives a valid layout.
    pub proof fn lemma_prune(self, j: Seq<Jump>, n_nodes: int, n_leaves: int, w: Spans)
        requires
            inv(j, n_nodes, n_leaves, w),
            self.fits(j, n_nodes, n_leaves, w),
        ensures
            inv(
                self.table(j),
                n_nodes - self.count(),
                self.vt.rest(),
                self.spans(j, n_nodes, n_leaves, w),
            ),
    {
        self.lemma_frame(j, n_nodes, n_leaves, w);
        self.lemma_basic(j, n_nodes, n_leaves, w);
        self.lemma_sorted(j, n_nodes, n_leaves, w);
        self.lemma_links(j, n_nodes, n_leaves, w);
        self.lemma_nested(j, n_nodes, n_leaves, w);
        self.lemma_cover(j, n_nodes, n_leaves, w);
        self.lemma_leaves(j, n_nodes, n_leaves, w);
        assert(!self.gone(j, 0)) by {
            reveal(inv_basic);
        }
        self.lemma_stays(j, n_nodes, n_leaves, w, 0);
        self.lemma_place(j, n_nodes, n_leaves, w, 0);
    }

    /// One entry of the listing after the pruning.
    proof fn lemma_listing_at<N, L>(
        self,
        nodes: Seq<N>,
        j: Seq<Jump>,
        leaves: Seq<L>,
        w: Spans,
        n: int,
    )
        requires
            inv(j, nodes.len() as int, leaves.len() as int, w),
            self.fits(j, nodes.len() as int, leaves.len() as int, w),
            inv(
                self.table(j),
                nodes.len() - self.count(),
                self.vt.rest(),
                self.spans(j, nodes.len() as int, leaves.len() as int, w),
            ),
            0 <= n < nodes.len() - self.count(),
        ensures
            listing(self.nodes(nodes), self.table(j), self.vt.thinned(leaves))[n] == listing(
                nodes,
                j,
                leaves,
            )[self.node_before(n)],
    {
        let nn = nodes.len() as int;
        let nl = leaves.len() as int;
        let t = self.table(j);
        let w1 = self.spans(j, nn, nl, w);
        self.lemma_frame(j, nn, nl, w);
        self.lemma_cover_at(j, nn, nl, w, n);
        let m = self.node_before(n);
        let a = w.owner[m];
        let y = w1.owner[n];
        lemma_owner(j, nn, nl, w, a, m);
        lemma_owner(t, nn - self.count(), self.vt.rest(), w1, y, n);
        self.lemma_place(j, nn, nl, w, y);
        self.lemma_side(j, nn, nl, w, a);
        if j[a].next_major_node.leaf().is_some() {
            self.lemma_value(j, nn, nl, w, a);
        }
        assert(depth_of(t, n) == depth_of(j, m));
    }

    /// The listing after the pruning is the old one without the subtree.
    pub proof fn lemma_listing<N, L>(self, nodes: Seq<N>, j: Seq<Jump>, leaves: Seq<L>, w: Spans)
        requires
            inv(j, nodes.len() as int, leaves.len() as int, w),
            self.fits(j, nodes.len() as int, leaves.len() as int, w),
        ensures
            listing(self.nodes(nodes), self.table(j), self.vt.thinned(leaves)) == pruned(
                listing(nodes, j, leaves),
                self.pos,
            ),
    {
        let nn = nodes.len() as int;
        let nl = leaves.len() as int;
        self.lemma_frame(j, nn, nl, w);
        self.lemma_prune(j, nn, nl, w);
        lemma_position(nodes, j, leaves, w, self.i, self.pos);
        let s0 = listing(nodes, j, leaves);
        let s1 = listing(self.nodes(nodes), self.table(j), self.vt.thinned(leaves));
        let target = pruned(s0, self.pos);
        assert(subtree_end(s0, self.pos) == self.e);
        assert(s1.len() == target.len());
        assert forall|n: int| 0 <= n < s1.len() implies s1[n] == target[n] by {
            self.lemma_listing_at(nodes, j, leaves, w, n);
        }
        assert(s1 =~= target);
    }

    /// The record that holds the parent of the node at `pos`.
    pub open spec fn parent_record(self, j: Seq<Jump>) -> int {
        if self.inside(j) {
            self.i
        } else {
            j[self.i].parent_jump_index as int
        }
    }

    /// The record that holds the parent of the node at `pos` stays where it
    /// is, and the parent is its major node after the pruning.
    pub proof fn lemma_parent_record(self, j: Seq<Jump>, n_nodes: int, n_leaves: int, w: Spans)
        requires
            inv(j, n_nodes, n_leaves, w),
            self.fits(j, n_nodes, n_leaves, w),
        ensures
            ({
                let q = self.parent_record(j);
                let t = self.table(j);
                &&& 0 <= q < t.len()
                &&& q <= self.i
                &&& t[q].jump_to_node == j[q].jump_to_node
                &&& t[q].depth == j[q].depth
                &&& t[q].major() == if self.inside(j) {
                    self.pos - 1
                } else {
                    j[q].major()
                }
            }),
    {
        self.lemma_frame(j, n_nodes, n_leaves, w);
        let q = self.parent_record(j);
        if !self.inside(j) {
            self.lemma_family(j, n_nodes, n_leaves, w, self.i);
        }
        self.lemma_low(j, n_nodes, n_leaves, w, q);
        self.lemma_side(j, n_nodes, n_leaves, w, q);
        assert(!self.gone(j, q));
        self.lemma_stays(j, n_nodes, n_leaves, w, q);
        self.lemma_place(j, n_nodes, n_leaves, w, q);
    }
}

} // verus!
