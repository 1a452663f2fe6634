//! How the jump table changes when a chain of new nodes becomes the last
//! child of a major node, and why the result is again a valid layout.

use vstd::prelude::*;
use crate::cut::{first_above, rank_above};
use crate::jump::{Jump, MajorNode};
use crate::layout::{depth_of, inv, inv_basic, inv_cover, inv_depths, inv_leaves, inv_links, inv_nested, inv_sorted, key_lt, leaf_of, lemma_owner, lemma_position, listing, Spans};
use crate::model::{chain, depth_at, inserted, subtree_end};

verus! {

/// `v`, raised by `by` where it is `from` or more.
pub open spec fn bump(v: int, from: int, by: int) -> int {
    if v >= from {
        v + by
    } else {
        v
    }
}

/// One growth of the trie: `n` new nodes in a chain below the major node of
/// record `i`, whose subtree ended at node `e`.
///
/// With `branch` the chain gets a record of its own, placed at index `s`;
/// without it the run of `i` is extended. With `valued` the last new node
/// carries a value, which takes rank `rank` in the value store.
pub struct Growth {
    pub i: int,
    pub e: int,
    pub n: int,
    pub s: int,
    pub branch: bool,
    pub rank: int,
    pub valued: bool,
}

impl Growth {
    /// The growth of table `j` by `n` nodes below the major node of record
    /// `i`, whose subtree ends at node `e`: with a record of its own unless
    /// the major node has neither a value nor children.
    pub open spec fn at(j: Seq<Jump>, n_leaves: int, i: int, e: int, n: int, valued: bool) -> Growth {
        let branch = j[i].next_major_node != (MajorNode::Leaf { leaf_index: None });
        let s = if branch {
            first_above(j, i + 1)
        } else {
            j.len() as int
        };
        let cut = if branch {
            s
        } else {
            i + 1
        };
        Growth {
            i,
            e,
            n,
            s,
            branch,
            rank: if valued {
                rank_above(j, n_leaves, cut)
            } else {
                0
            },
            valued,
        }
    }

    /// One more record where the chain gets a record of its own.
    pub open spec fn by_index(self) -> int {
        if self.branch {
            1
        } else {
            0
        }
    }

    /// One more value where the chain carries one.
    pub open spec fn by_rank(self) -> int {
        if self.valued {
            1
        } else {
            0
        }
    }

    /// The records at this index or later come after the new value's carrier.
    pub open spec fn cut(self) -> int {
        if self.branch {
            self.s
        } else {
            self.i + 1
        }
    }

    /// New index of the record that carries the new nodes.
    pub open spec fn carrier(self) -> int {
        if self.branch {
            self.s
        } else {
            self.i
        }
    }

    /// New index of the record at old index `x`.
    pub open spec fn moved(self, x: int) -> int {
        bump(x, self.s, self.by_index())
    }

    /// The growth is possible on table `j`, certified by `w`.
    pub open spec fn fits(self, j: Seq<Jump>, n_nodes: int, n_leaves: int, w: Spans) -> bool {
        &&& 0 <= self.i < j.len()
        &&& self.e == w.ends[self.i]
        &&& 1 <= self.n
        &&& n_nodes + self.n < isize::MAX
        &&& j.len() + self.by_index() < isize::MAX
        &&& n_leaves + self.by_rank() <= usize::MAX
        &&& if self.branch {
            &&& self.i < self.s <= j.len()
            &&& forall|x: int| 1 <= x < self.s ==> (#[trigger] j[x]).parent_jump_index <= self.i
            &&& forall|x: int| self.s <= x < j.len() ==> (#[trigger] j[x]).parent_jump_index > self.i
        } else {
            &&& self.s == j.len()
            &&& j[self.i].next_major_node == (MajorNode::Leaf { leaf_index: None })
        }
        &&& self.valued ==> {
            &&& 0 <= self.rank <= n_leaves
            &&& forall|x: int|
                0 <= x < j.len() && (#[trigger] j[x]).next_major_node.leaf().is_some() ==> (x
                    < self.cut() <==> j[x].next_major_node.leaf().unwrap() < self.rank)
        }
    }

    /// The major node with its references renumbered.
    pub open spec fn shifted_major(self, m: MajorNode) -> MajorNode {
        match m {
            MajorNode::LeafJump { leaf_index, child_jump_index } => MajorNode::LeafJump {
                leaf_index: bump(leaf_index as int, self.rank, self.by_rank()) as usize,
                child_jump_index: self.moved(child_jump_index as int) as usize,
            },
            MajorNode::Leaf { leaf_index: Some(r) } => MajorNode::Leaf {
                leaf_index: Some(bump(r as int, self.rank, self.by_rank()) as usize),
            },
            MajorNode::Leaf { leaf_index: None } => m,
            MajorNode::Jump { child_jump_index } => MajorNode::Jump {
                child_jump_index: self.moved(child_jump_index as int) as usize,
            },
        }
    }

    /// A record with its references renumbered and its run moved behind the
    /// new nodes where it lay behind `e`.
    pub open spec fn shifted(self, rec: Jump) -> Jump {
        Jump {
            parent_jump_index: self.moved(rec.parent_jump_index as int) as isize,
            jump_to_node: bump(rec.jump_to_node as int, self.e + 1, self.n) as isize,
            next_major_node_dist: rec.next_major_node_dist,
            next_major_node: self.shifted_major(rec.next_major_node),
            depth: rec.depth,
        }
    }

    /// The record that takes the new nodes in: its run extended, or its major
    /// node made a branch point whose last child is the new record.
    pub open spec fn host(self, rec: Jump) -> Jump {
        let r = self.shifted(rec);
        if self.branch {
            Jump {
                next_major_node: match r.next_major_node {
                    MajorNode::Leaf { leaf_index: Some(v) } => MajorNode::LeafJump {
                        leaf_index: v,
                        child_jump_index: self.s as usize,
                    },
                    MajorNode::Leaf { leaf_index: None } => MajorNode::Jump {
                        child_jump_index: self.s as usize,
                    },
                    _ => r.next_major_node,
                },
                ..r
            }
        } else {
            Jump {
                next_major_node_dist: (rec.next_major_node_dist + self.n) as usize,
                next_major_node: MajorNode::Leaf {
                    leaf_index: if self.valued {
                        Some(self.rank as usize)
                    } else {
                        None
                    },
                },
                ..r
            }
        }
    }

    /// The record of the new chain.
    pub open spec fn fresh(self, j: Seq<Jump>) -> Jump {
        Jump {
            parent_jump_index: self.i as isize,
            jump_to_node: (self.e + 1) as isize,
            next_major_node_dist: (self.n - 1) as usize,
            next_major_node: MajorNode::Leaf {
                leaf_index: if self.valued {
                    Some(self.rank as usize)
                } else {
                    None
                },
            },
            depth: (j[self.i].depth + j[self.i].next_major_node_dist + 1) as isize,
        }
    }

    /// The old records, each as it stands after the growth.
    pub open spec fn updated(self, j: Seq<Jump>) -> Seq<Jump> {
        Seq::new(
            j.len(),
            |x: int|
                if x == self.i {
                    self.host(j[x])
                } else {
                    self.shifted(j[x])
                },
        )
    }

    /// The jump table after the growth.
    pub open spec fn table(self, j: Seq<Jump>) -> Seq<Jump> {
        if self.branch {
            self.updated(j).insert(self.s, self.fresh(j))
        } else {
            self.updated(j)
        }
    }

    /// Whether the subtree of the record at old index `x` takes the new nodes in.
    pub open spec fn widens(self, j: Seq<Jump>, w: Spans, x: int) -> bool {
        w.ends[x] > self.e || (w.ends[x] == self.e && j[x].jump_to_node <= j[self.i].jump_to_node)
    }

    /// The subtree ends after the growth.
    pub open spec fn ends(self, j: Seq<Jump>, w: Spans) -> Seq<int> {
        let old = Seq::new(
            j.len(),
            |x: int|
                if self.widens(j, w, x) {
                    w.ends[x] + self.n
                } else {
                    w.ends[x]
                },
        );
        if self.branch {
            old.insert(self.s, self.e + self.n)
        } else {
            old
        }
    }

    /// The certificate of the table after the growth.
    pub open spec fn spans(self, j: Seq<Jump>, n_nodes: int, n_leaves: int, w: Spans) -> Spans {
        Spans {
            ends: self.ends(j, w),
            owner: Seq::new(
                (n_nodes + self.n) as nat,
                |m: int|
                    if m <= self.e {
                        self.moved(w.owner[m])
                    } else if m <= self.e + self.n {
                        self.carrier()
                    } else {
                        self.moved(w.owner[m - self.n])
                    },
            ),
            leaf_owner: Seq::new(
                (n_leaves + self.by_rank()) as nat,
                |r: int|
                    if self.valued && r == self.rank {
                        self.carrier()
                    } else if self.valued && r > self.rank {
                        self.moved(w.leaf_owner[r - 1])
                    } else {
                        self.moved(w.leaf_owner[r])
                    },
            ),
        }
    }

    /// Old index of the record at new index `y`, which is not the new record.
    pub open spec fn origin(self, y: int) -> int {
        if self.branch && y > self.s {
            y - 1
        } else {
            y
        }
    }

    /// Each record of the new table is the new record or an old one, updated.
    pub proof fn lemma_table(self, j: Seq<Jump>, n_nodes: int, n_leaves: int, w: Spans)
        requires
            inv(j, n_nodes, n_leaves, w),
            self.fits(j, n_nodes, n_leaves, w),
        ensures
            self.table(j).len() == j.len() + self.by_index(),
            self.ends(j, w).len() == j.len() + self.by_index(),
            forall|y: int|
                0 <= y < self.table(j).len() && !(self.branch && y == self.s) ==> {
                    &&& 0 <= self.origin(y) < j.len()
                    &&& self.moved(self.origin(y)) == y
                    &&& #[trigger] self.table(j)[y] == self.updated(j)[self.origin(y)]
                    &&& self.ends(j, w)[y] == if self.widens(j, w, self.origin(y)) {
                        w.ends[self.origin(y)] + self.n
                    } else {
                        w.ends[self.origin(y)]
                    }
                },
            self.branch ==> self.table(j)[self.s] == self.fresh(j) && self.ends(j, w)[self.s]
                == self.e + self.n,
    {
    }

    /// The fields of the record that came from old index `x`.
    pub open spec fn carried(self, j: Seq<Jump>, x: int, r: Jump) -> bool {
        &&& r.parent_jump_index == self.moved(j[x].parent_jump_index as int)
        &&& r.jump_to_node == bump(j[x].jump_to_node as int, self.e + 1, self.n)
        &&& r.depth == j[x].depth
        &&& r.next_major_node_dist == j[x].next_major_node_dist + if x == self.i && !self.branch {
            self.n
        } else {
            0
        }
        &&& r.major() == if x == self.i && !self.branch {
            self.e + self.n
        } else {
            bump(j[x].major(), self.e + 1, self.n)
        }
        &&& r.next_major_node.child() == match j[x].next_major_node.child() {
            Some(c) => Some(self.moved(c)),
            None => if x == self.i && self.branch {
                Some(self.s)
            } else {
                None
            },
        }
        &&& r.next_major_node.leaf() == match j[x].next_major_node.leaf() {
            Some(v) => Some(bump(v, self.rank, self.by_rank())),
            None => if x == self.i && !self.branch && self.valued {
                Some(self.rank)
            } else {
                None
            },
        }
    }

    /// What each record of the new table holds.
    pub proof fn lemma_fields(self, j: Seq<Jump>, n_nodes: int, n_leaves: int, w: Spans)
        requires
            inv(j, n_nodes, n_leaves, w),
            self.fits(j, n_nodes, n_leaves, w),
        ensures
            self.table(j).len() == j.len() + self.by_index(),
            self.ends(j, w).len() == j.len() + self.by_index(),
            -1 <= self.e < n_nodes,
            j[self.i].major() <= self.e,
            forall|y: int|
                0 <= y < self.table(j).len() && !(self.branch && y == self.s) ==> {
                    &&& 0 <= self.origin(y) < j.len()
                    &&& self.moved(self.origin(y)) == y
                    &&& self.carried(j, self.origin(y), #[trigger] self.table(j)[y])
                    &&& self.ends(j, w)[y] == if self.widens(j, w, self.origin(y)) {
                        w.ends[self.origin(y)] + self.n
                    } else {
                        w.ends[self.origin(y)]
                    }
                },
            self.branch ==> {
                let r = self.table(j)[self.s];
                &&& r.parent_jump_index == self.i
                &&& r.jump_to_node == self.e + 1
                &&& r.next_major_node_dist == self.n - 1
                &&& r.major() == self.e + self.n
                &&& r.depth == j[self.i].depth + j[self.i].next_major_node_dist + 1
                &&& r.next_major_node.child().is_none()
                &&& r.next_major_node.leaf() == if self.valued {
                    Some(self.rank)
                } else {
                    None::<int>
                }
                &&& self.ends(j, w)[self.s] == self.e + self.n
            },
    {
        reveal(inv_basic);
        reveal(inv_links);
        reveal(inv_nested);
        reveal(inv_cover);
        reveal(inv_leaves);
        self.lemma_table(j, n_nodes, n_leaves, w);
        let t = self.table(j);
        assert(j[self.i].major() <= w.ends[self.i] < n_nodes);
        assert forall|y: int|
            0 <= y < t.len() && !(self.branch && y == self.s) implies self.carried(
            j,
            self.origin(y),
            #[trigger] t[y],
        ) by {
            let x = self.origin(y);
            assert(t[y] == self.updated(j)[x]);
            assert(j[x].major() <= w.ends[x] < n_nodes);
            if x >= 1 {
                assert(0 <= j[x].parent_jump_index < x);
            }
            if x != self.i {
                // A run does not reach across the end of a subtree.
                if j[x].jump_to_node <= j[self.i].jump_to_node {
                    assert(j[x].jump_to_node < j[self.i].jump_to_node);
                } else {
                    assert(j[self.i].jump_to_node < j[x].jump_to_node);
                }
                assert(!(j[x].jump_to_node <= self.e < j[x].major()));
            }
        }
    }

    /// Record `0` is the root of the new table, and every other record
    /// follows its parent.
    proof fn lemma_basic(self, j: Seq<Jump>, n_nodes: int, n_leaves: int, w: Spans)
        requires
            inv(j, n_nodes, n_leaves, w),
            self.fits(j, n_nodes, n_leaves, w),
        ensures
            inv_basic(self.table(j), n_nodes + self.n),
    {
        reveal(inv_basic);
        self.lemma_fields(j, n_nodes, n_leaves, w);
        let t = self.table(j);
        assert(self.origin(0) == 0);
        assert(self.carried(j, 0, t[0]));
        assert forall|y: int| 1 <= y < t.len() implies {
            &&& 0 <= (#[trigger] t[y]).parent_jump_index < y
            &&& 0 <= t[y].depth <= t[y].jump_to_node
            &&& t[y].major() < n_nodes + self.n
        } by {
            if !(self.branch && y == self.s) {
                let x = self.origin(y);
                assert(self.carried(j, x, t[y]));
                assert(0 <= j[x].parent_jump_index < x);
            }
        }
    }

    /// The new table is sorted.
    proof fn lemma_sorted(self, j: Seq<Jump>, n_nodes: int, n_leaves: int, w: Spans)
        requires
            inv(j, n_nodes, n_leaves, w),
            self.fits(j, n_nodes, n_leaves, w),
        ensures
            inv_sorted(self.table(j)),
    {
        reveal(inv_basic);
        reveal(inv_sorted);
        reveal(inv_links);
        self.lemma_fields(j, n_nodes, n_leaves, w);
        let t = self.table(j);
        assert forall|y: int, z: int| 0 <= y < z < t.len() implies key_lt(
            #[trigger] t[y],
            #[trigger] t[z],
        ) by {
            if self.branch && y == self.s {
                let x = self.origin(z);
                assert(self.carried(j, x, t[z]));
            } else if self.branch && z == self.s {
                let x = self.origin(y);
                assert(self.carried(j, x, t[y]));
                if x >= 1 && j[x].parent_jump_index == self.i {
                    assert(w.ends[x] <= w.ends[self.i]);
                    assert(j[x].major() <= w.ends[x]);
                }
            } else {
                let x = self.origin(y);
                let v = self.origin(z);
                assert(self.carried(j, x, t[y]));
                assert(self.carried(j, v, t[z]));
                assert(key_lt(j[x], j[v]));
                if j[x].parent_jump_index == j[v].parent_jump_index && x >= 1 {
                    // Siblings lie on the same side of the new nodes or the
                    // earlier one before them.
                    assert(j[x].jump_to_node < j[v].jump_to_node);
                }
            }
        }
    }

    /// A child that starts inside the subtree of `i` has `i` for its parent,
    /// unless its parent starts inside that subtree too.
    proof fn lemma_parent_inside(
        j: Seq<Jump>,
        n_nodes: int,
        n_leaves: int,
        w: Spans,
        i: int,
        y: int,
    )
        requires
            inv(j, n_nodes, n_leaves, w),
            0 <= i < j.len(),
            1 <= y < j.len(),
            j[i].jump_to_node < j[y].jump_to_node <= w.ends[i],
            j[j[y].parent_jump_index as int].jump_to_node <= j[i].jump_to_node,
        ensures
            j[y].parent_jump_index == i,
    {
        reveal(inv_basic);
        reveal(inv_links);
        reveal(inv_nested);
        reveal(inv_depths);
        reveal(inv_leaves);
        let p = j[y].parent_jump_index as int;
        assert(0 <= p < y);
        assert(j[p].major() < j[y].jump_to_node && w.ends[y] <= w.ends[p]);
        assert(j[y].major() <= w.ends[y]);
        if p != i {
            assert(j[p].jump_to_node < j[i].jump_to_node);
            assert(j[i].depth > j[p].depth + j[p].next_major_node_dist);
            assert(j[y].depth > j[i].depth + j[i].next_major_node_dist);
        }
    }

    /// A last child widens exactly when its parent does, unless the parent
    /// is the record that takes the new nodes in.
    proof fn lemma_widens_last(self, j: Seq<Jump>, n_nodes: int, n_leaves: int, w: Spans, y: int)
        requires
            inv(j, n_nodes, n_leaves, w),
            self.fits(j, n_nodes, n_leaves, w),
            1 <= y < j.len(),
            w.ends[y] == w.ends[j[y].parent_jump_index as int],
            j[y].parent_jump_index != self.i,
        ensures
            self.widens(j, w, y) == self.widens(j, w, j[y].parent_jump_index as int),
    {
        reveal(inv_basic);
        reveal(inv_links);
        let p = j[y].parent_jump_index as int;
        assert(0 <= p < y);
        assert(j[p].major() < j[y].jump_to_node);
        assert(j[self.i].major() <= w.ends[self.i]);
        if w.ends[y] == self.e && j[p].jump_to_node <= j[self.i].jump_to_node && j[y].jump_to_node
            > j[self.i].jump_to_node {
            Self::lemma_parent_inside(j, n_nodes, n_leaves, w, self.i, y);
        }
    }

    /// The major node of a record of the new table lies in its subtree, and
    /// its child reference within the table.
    proof fn lemma_links_single(self, j: Seq<Jump>, n_nodes: int, n_leaves: int, w: Spans)
        requires
            inv(j, n_nodes, n_leaves, w),
            self.fits(j, n_nodes, n_leaves, w),
        ensures
            ({
                let t = self.table(j);
                let ends = self.ends(j, w);
                &&& ends.len() == t.len()
                &&& ends[0] == n_nodes + self.n - 1
                &&& t.len() >= 2 ==> ends[t.len() - 1] == ends[t[t.len() - 1].parent_jump_index as int]
                &&& forall|x: int|
                    0 <= x < t.len() ==> {
                        &&& (#[trigger] t[x]).major() <= ends[x] < n_nodes + self.n
                        &&& match t[x].next_major_node.child() {
                            Some(c) => x < c < t.len(),
                            None => ends[x] == t[x].major(),
                        }
                    }
            }),
    {
        reveal(inv_basic);
        reveal(inv_links);
        reveal(inv_nested);
        self.lemma_fields(j, n_nodes, n_leaves, w);
        let t = self.table(j);
        let ends = self.ends(j, w);
        assert(self.origin(0) == 0);
        assert(self.carried(j, 0, t[0]));
        assert(j[0].major() <= w.ends[0]);
        assert(j[self.i].major() <= w.ends[self.i]);
        assert(self.origin(self.i) == self.i);
        assert(self.carried(j, self.i, t[self.i]));
        if t.len() >= 2 {
            let l = t.len() - 1;
            if self.branch && l == self.s {
            } else {
                let x = self.origin(l);
                assert(x == j.len() - 1);
                assert(self.carried(j, x, t[l]));
                let p = j[x].parent_jump_index as int;
                assert(0 <= p < x);
                assert(self.origin(p) == p || self.origin(p + 1) == p);
                if p == self.i {
                    assert(self.branch);
                    assert(false);
                }
                self.lemma_widens_last(j, n_nodes, n_leaves, w, x);
                assert(self.origin(self.moved(p)) == p);
            }
        }
        assert forall|y: int| 0 <= y < t.len() implies {
            &&& (#[trigger] t[y]).major() <= ends[y] < n_nodes + self.n
            &&& match t[y].next_major_node.child() {
                Some(c) => y < c < t.len(),
                None => ends[y] == t[y].major(),
            }
        } by {
            if !(self.branch && y == self.s) {
                let x = self.origin(y);
                assert(self.carried(j, x, t[y]));
                assert(j[x].major() <= w.ends[x] < n_nodes);
                if x != self.i {
                    if j[x].jump_to_node <= j[self.i].jump_to_node {
                        assert(j[x].jump_to_node < j[self.i].jump_to_node);
                    } else {
                        assert(j[self.i].jump_to_node < j[x].jump_to_node);
                    }
                }
            }
        }
    }

    /// Where two records lie relative to each other and to the end of the
    /// subtree that grows.
    proof fn lemma_apart(self, j: Seq<Jump>, n_nodes: int, n_leaves: int, w: Spans, x: int)
        requires
            inv(j, n_nodes, n_leaves, w),
            self.fits(j, n_nodes, n_leaves, w),
            0 <= x < j.len(),
        ensures
            j[x].major() <= w.ends[x] < n_nodes,
            j[self.i].major() <= self.e,
            !(j[x].jump_to_node <= self.e < j[x].major()),
            x != self.i && j[x].jump_to_node <= j[self.i].jump_to_node ==> j[x].jump_to_node
                < j[self.i].jump_to_node && (w.ends[x] < j[self.i].jump_to_node || (j[x].major()
                < j[self.i].jump_to_node && self.e <= w.ends[x])),
            x != self.i && j[x].jump_to_node > j[self.i].jump_to_node ==> (self.e
                < j[x].jump_to_node || (j[self.i].major() < j[x].jump_to_node && w.ends[x]
                <= self.e)),
            x >= 1 ==> 0 <= j[x].parent_jump_index < x,
    {
        reveal(inv_basic);
        reveal(inv_links);
        reveal(inv_nested);
        assert(j[x].major() <= w.ends[x] < n_nodes);
        assert(j[self.i].major() <= w.ends[self.i]);
        if x != self.i {
            if j[x].jump_to_node <= j[self.i].jump_to_node {
                assert(j[x].jump_to_node < j[self.i].jump_to_node);
            } else {
                assert(j[self.i].jump_to_node < j[x].jump_to_node);
            }
        }
    }

    /// A record of the new table lies below its parent, behind the major node
    /// of the parent.
    proof fn lemma_links_parent(self, j: Seq<Jump>, n_nodes: int, n_leaves: int, w: Spans)
        requires
            inv(j, n_nodes, n_leaves, w),
            self.fits(j, n_nodes, n_leaves, w),
        ensures
            ({
                let t = self.table(j);
                let ends = self.ends(j, w);
                forall|x: int, y: int|
                    0 <= x < t.len() && 1 <= y < t.len() && (#[trigger] t[y]).parent_jump_index
                        == x ==> {
                        &&& (#[trigger] t[x]).major() < t[y].jump_to_node
                        &&& ends[y] <= ends[x]
                        &&& t[y].depth == t[x].depth + t[x].next_major_node_dist + 1
                        &&& t[x].next_major_node.child().is_some()
                        &&& t[x].next_major_node.child().unwrap() <= y
                    }
            }),
    {
        reveal(inv_links);
        self.lemma_fields(j, n_nodes, n_leaves, w);
        let t = self.table(j);
        let ends = self.ends(j, w);
        assert forall|x: int, y: int|
            0 <= x < t.len() && 1 <= y < t.len() && (#[trigger] t[y]).parent_jump_index
                == x implies {
            &&& (#[trigger] t[x]).major() < t[y].jump_to_node
            &&& ends[y] <= ends[x]
            &&& t[y].depth == t[x].depth + t[x].next_major_node_dist + 1
            &&& t[x].next_major_node.child().is_some()
            &&& t[x].next_major_node.child().unwrap() <= y
        } by {
            if self.branch && y == self.s {
                assert(x == self.i);
                assert(self.origin(x) == x);
                assert(self.carried(j, x, t[x]));
                self.lemma_apart(j, n_nodes, n_leaves, w, x);
                match j[x].next_major_node.child() {
                    Some(c) => {
                        assert(j[c].parent_jump_index == x);
                    },
                    None => {},
                }
            } else {
                let b = self.origin(y);
                assert(self.carried(j, b, t[y]));
                self.lemma_apart(j, n_nodes, n_leaves, w, b);
                let a = j[b].parent_jump_index as int;
                assert(x == self.moved(a));
                assert(!(self.branch && x == self.s));
                assert(self.origin(x) == a);
                assert(self.carried(j, a, t[x]));
                self.lemma_apart(j, n_nodes, n_leaves, w, a);
                assert(j[a].major() < j[b].jump_to_node && w.ends[b] <= w.ends[a]);
                assert(j[a].next_major_node.child().is_some());
            }
        }
    }

    /// The first child of a record of the new table names the record as its
    /// parent and follows its major node.
    proof fn lemma_links_child(self, j: Seq<Jump>, n_nodes: int, n_leaves: int, w: Spans)
        requires
            inv(j, n_nodes, n_leaves, w),
            self.fits(j, n_nodes, n_leaves, w),
        ensures
            ({
                let t = self.table(j);
                forall|x: int, c: int|
                    0 <= x < t.len() && 0 <= c < t.len() && (
                    #[trigger] t[x]).next_major_node.child() == Some(c) ==> {
                        &&& (#[trigger] t[c]).parent_jump_index == x
                        &&& t[c].jump_to_node == t[x].major() + 1
                    }
            }),
    {
        reveal(inv_links);
        self.lemma_fields(j, n_nodes, n_leaves, w);
        let t = self.table(j);
        assert forall|x: int, c: int|
            0 <= x < t.len() && 0 <= c < t.len() && (#[trigger] t[x]).next_major_node.child()
                == Some(c) implies {
            &&& (#[trigger] t[c]).parent_jump_index == x
            &&& t[c].jump_to_node == t[x].major() + 1
        } by {
            assert(!(self.branch && x == self.s));
            let a = self.origin(x);
            assert(self.carried(j, a, t[x]));
            self.lemma_apart(j, n_nodes, n_leaves, w, a);
            match j[a].next_major_node.child() {
                Some(d) => {
                    assert(a < d < j.len());
                    assert(c == self.moved(d));
                    assert(self.origin(c) == d);
                    assert(self.carried(j, d, t[c]));
                    assert(j[d].parent_jump_index == a);
                    assert(j[d].jump_to_node == j[a].major() + 1);
                    self.lemma_apart(j, n_nodes, n_leaves, w, d);
                    assert(w.ends[d] <= w.ends[a]);
                },
                None => {},
            }
        }
    }

    /// Of two records that follow each other in the new table, the second
    /// starts behind the subtree of the first where they have one parent;
    /// else the subtree of the first ends with that of its parent.
    proof fn lemma_links_next_at(
        self,
        j: Seq<Jump>,
        n_nodes: int,
        n_leaves: int,
        w: Spans,
        y: int,
        z: int,
    )
        requires
            inv(j, n_nodes, n_leaves, w),
            self.fits(j, n_nodes, n_leaves, w),
            1 <= y,
            z == y + 1,
            z < self.table(j).len(),
        ensures
            ({
                let t = self.table(j);
                let ends = self.ends(j, w);
                if t[y].parent_jump_index == t[z].parent_jump_index {
                    t[z].jump_to_node == ends[y] + 1
                } else {
                    ends[y] == ends[t[y].parent_jump_index as int]
                }
            }),
    {
        reveal(inv_sorted);
        reveal(inv_links);
        self.lemma_fields(j, n_nodes, n_leaves, w);
        let t = self.table(j);
        let ends = self.ends(j, w);
        assert(self.origin(self.i) == self.i);
        assert(self.carried(j, self.i, t[self.i]));
        self.lemma_apart(j, n_nodes, n_leaves, w, self.i);
        if self.branch && z == self.s {
            // The record before the new one closes the children of `i`, or
            // `i` had none.
            let b = y;
            assert(self.origin(y) == b);
            assert(self.carried(j, b, t[y]));
            self.lemma_apart(j, n_nodes, n_leaves, w, b);
            let a = j[b].parent_jump_index as int;
            assert(a <= self.i);
            if self.s < j.len() {
                assert(j[self.s].parent_jump_index > self.i);
            }
            assert(w.ends[b] == w.ends[a]);
            if a != self.i {
                self.lemma_widens_last(j, n_nodes, n_leaves, w, b);
                assert(self.origin(a) == a);
            } else {
                assert(j[a].major() < j[b].jump_to_node);
            }
        } else if self.branch && y == self.s {
            let v = self.origin(z);
            assert(self.carried(j, v, t[z]));
        } else {
            let b = self.origin(y);
            let v = self.origin(z);
            assert(v == b + 1);
            assert(self.carried(j, b, t[y]));
            assert(self.carried(j, v, t[z]));
            self.lemma_apart(j, n_nodes, n_leaves, w, b);
            self.lemma_apart(j, n_nodes, n_leaves, w, v);
            let a = j[b].parent_jump_index as int;
            if j[b].parent_jump_index == j[v].parent_jump_index {
                assert(j[v].jump_to_node == w.ends[b] + 1);
                self.lemma_apart(j, n_nodes, n_leaves, w, a);
                assert(j[a].major() < j[b].jump_to_node && w.ends[b] <= w.ends[a]);
                assert(j[a].major() < j[v].jump_to_node && w.ends[v] <= w.ends[a]);
                if w.ends[b] == self.e && j[b].jump_to_node > j[self.i].jump_to_node {
                    if j[a].jump_to_node <= j[self.i].jump_to_node {
                        Self::lemma_parent_inside(j, n_nodes, n_leaves, w, self.i, b);
                    }
                }
            } else {
                assert(w.ends[b] == w.ends[a]);
                if a == self.i {
                    assert(self.branch);
                    assert(b < self.s);
                    assert(v < self.s);
                    assert(j[v].parent_jump_index <= self.i);
                    assert(key_lt(j[b], j[v]));
                    assert(false);
                }
                self.lemma_widens_last(j, n_nodes, n_leaves, w, b);
                assert(self.origin(self.moved(a)) == a);
            }
        }
    }

    /// Of two records that follow each other in the new table, the second
    /// starts behind the subtree of the first where they have one parent;
    /// else the subtree of the first ends with that of its parent.
    proof fn lemma_links_next(self, j: Seq<Jump>, n_nodes: int, n_leaves: int, w: Spans)
        requires
            inv(j, n_nodes, n_leaves, w),
            self.fits(j, n_nodes, n_leaves, w),
        ensures
            ({
                let t = self.table(j);
                let ends = self.ends(j, w);
                forall|y: int, z: int|
                    1 <= y && z == y + 1 && z < t.len() ==> if (#[trigger] t[y]).parent_jump_index
                        == (#[trigger] t[z]).parent_jump_index {
                        t[z].jump_to_node == ends[y] + 1
                    } else {
                        ends[y] == ends[t[y].parent_jump_index as int]
                    }
            }),
    {
        let t = self.table(j);
        let ends = self.ends(j, w);
        assert forall|y: int, z: int| 1 <= y && z == y + 1 && z < t.len() implies if (
        #[trigger] t[y]).parent_jump_index == (#[trigger] t[z]).parent_jump_index {
            t[z].jump_to_node == ends[y] + 1
        } else {
            ends[y] == ends[t[y].parent_jump_index as int]
        } by {
            self.lemma_links_next_at(j, n_nodes, n_leaves, w, y, z);
        }
    }

    /// The subtrees of the new table are nested or apart.
    proof fn lemma_nested(self, j: Seq<Jump>, n_nodes: int, n_leaves: int, w: Spans)
        requires
            inv(j, n_nodes, n_leaves, w),
            self.fits(j, n_nodes, n_leaves, w),
        ensures
            inv_nested(self.table(j), self.ends(j, w)),
    {
        reveal(inv_nested);
        self.lemma_fields(j, n_nodes, n_leaves, w);
        let t = self.table(j);
        let ends = self.ends(j, w);
        assert forall|x: int, y: int|
            0 <= x < t.len() && 0 <= y < t.len() && x != y && (#[trigger] t[x]).jump_to_node <= (
            #[trigger] t[y]).jump_to_node implies {
            &&& t[x].jump_to_node < t[y].jump_to_node
            &&& ends[x] < t[y].jump_to_node || (t[x].major() < t[y].jump_to_node && ends[y]
                <= ends[x])
        } by {
            if self.branch && x == self.s {
                let b = self.origin(y);
                assert(self.carried(j, b, t[y]));
                self.lemma_apart(j, n_nodes, n_leaves, w, b);
            } else if self.branch && y == self.s {
                let a = self.origin(x);
                assert(self.carried(j, a, t[x]));
                self.lemma_apart(j, n_nodes, n_leaves, w, a);
            } else {
                let a = self.origin(x);
                let b = self.origin(y);
                assert(self.carried(j, a, t[x]));
                assert(self.carried(j, b, t[y]));
                self.lemma_apart(j, n_nodes, n_leaves, w, a);
                self.lemma_apart(j, n_nodes, n_leaves, w, b);
                assert(a != b);
                if j[a].jump_to_node <= j[b].jump_to_node {
                    assert(j[a].jump_to_node < j[b].jump_to_node);
                } else {
                    assert(j[b].jump_to_node < j[a].jump_to_node);
                }
            }
        }
    }

    /// The depths of the new table agree with the nesting of the subtrees.
    proof fn lemma_depths(self, j: Seq<Jump>, n_nodes: int, n_leaves: int, w: Spans)
        requires
            inv(j, n_nodes, n_leaves, w),
            self.fits(j, n_nodes, n_leaves, w),
        ensures
            inv_depths(self.table(j), self.ends(j, w)),
    {
        reveal(inv_nested);
        reveal(inv_depths);
        self.lemma_fields(j, n_nodes, n_leaves, w);
        let t = self.table(j);
        let ends = self.ends(j, w);
        assert forall|x: int, y: int| 0 <= x < t.len() && 0 <= y < t.len() && x != y implies {
            &&& (#[trigger] t[x]).jump_to_node < (#[trigger] t[y]).jump_to_node <= ends[x]
                ==> t[y].depth > t[x].depth + t[x].next_major_node_dist
            &&& t[y].jump_to_node == ends[x] + 1 ==> t[y].depth <= t[x].depth
        } by {
            if self.branch && x == self.s {
                let b = self.origin(y);
                assert(self.carried(j, b, t[y]));
                self.lemma_apart(j, n_nodes, n_leaves, w, b);
                if b != self.i {
                    assert(j[b].jump_to_node == self.e + 1 ==> j[b].depth <= j[self.i].depth);
                }
            } else if self.branch && y == self.s {
                let a = self.origin(x);
                assert(self.carried(j, a, t[x]));
                self.lemma_apart(j, n_nodes, n_leaves, w, a);
                if a != self.i {
                    assert(j[a].jump_to_node < j[self.i].jump_to_node <= w.ends[a] ==> j[self.i].depth
                        > j[a].depth + j[a].next_major_node_dist);
                    assert(j[self.i].jump_to_node < j[a].jump_to_node <= self.e ==> j[a].depth
                        > j[self.i].depth + j[self.i].next_major_node_dist);
                }
            } else {
                let a = self.origin(x);
                let b = self.origin(y);
                assert(self.carried(j, a, t[x]));
                assert(self.carried(j, b, t[y]));
                self.lemma_apart(j, n_nodes, n_leaves, w, a);
                self.lemma_apart(j, n_nodes, n_leaves, w, b);
                assert(a != b);
                if j[a].jump_to_node <= j[b].jump_to_node {
                    assert(j[a].jump_to_node < j[b].jump_to_node);
                } else {
                    assert(j[b].jump_to_node < j[a].jump_to_node);
                }
                assert(j[a].jump_to_node < j[b].jump_to_node <= w.ends[a] ==> j[b].depth
                    > j[a].depth + j[a].next_major_node_dist);
                assert(j[b].jump_to_node == w.ends[a] + 1 ==> j[b].depth <= j[a].depth);
                if a != self.i && b != self.i {
                    assert(j[a].jump_to_node < j[self.i].jump_to_node <= w.ends[a] ==> j[self.i].depth
                        > j[a].depth + j[a].next_major_node_dist);
                    assert(j[b].jump_to_node == self.e + 1 ==> j[b].depth <= j[self.i].depth);
                }
            }
        }
    }

    /// Every node lies on the run of the record that the new certificate
    /// names for it.
    proof fn lemma_cover(self, j: Seq<Jump>, n_nodes: int, n_leaves: int, w: Spans)
        requires
            inv(j, n_nodes, n_leaves, w),
            self.fits(j, n_nodes, n_leaves, w),
        ensures
            inv_cover(self.table(j), n_nodes + self.n, self.spans(j, n_nodes, n_leaves, w).owner),
    {
        reveal(inv_cover);
        self.lemma_fields(j, n_nodes, n_leaves, w);
        let t = self.table(j);
        let owner = self.spans(j, n_nodes, n_leaves, w).owner;
        assert(self.origin(self.i) == self.i);
        assert(self.carried(j, self.i, t[self.i]));
        assert forall|m: int| 0 <= m < n_nodes + self.n implies 0 <= (#[trigger] owner[m])
            < t.len() && t[owner[m]].covers(m) by {
            if m <= self.e || m > self.e + self.n {
                let k = if m <= self.e {
                    m
                } else {
                    m - self.n
                };
                let a = w.owner[k];
                assert(0 <= a < j.len() && j[a].covers(k));
                let y = self.moved(a);
                assert(owner[m] == y);
                assert(self.origin(y) == a);
                assert(self.carried(j, a, t[y]));
                self.lemma_apart(j, n_nodes, n_leaves, w, a);
            }
        }
    }

    /// The ranks rise along the new table.
    proof fn lemma_leaves_order(self, j: Seq<Jump>, n_nodes: int, n_leaves: int, w: Spans)
        requires
            inv(j, n_nodes, n_leaves, w),
            self.fits(j, n_nodes, n_leaves, w),
        ensures
            ({
                let t = self.table(j);
                forall|x: int, y: int|
                    0 <= x < y < t.len() && (#[trigger] t[x]).next_major_node.leaf().is_some() && (
                    #[trigger] t[y]).next_major_node.leaf().is_some()
                        ==> t[x].next_major_node.leaf().unwrap()
                        < t[y].next_major_node.leaf().unwrap()
            }),
    {
        reveal(inv_leaves);
        self.lemma_fields(j, n_nodes, n_leaves, w);
        let t = self.table(j);
        assert forall|x: int, y: int|
            0 <= x < y < t.len() && (#[trigger] t[x]).next_major_node.leaf().is_some() && (
            #[trigger] t[y]).next_major_node.leaf().is_some() implies t[x].next_major_node.leaf().unwrap()
            < t[y].next_major_node.leaf().unwrap() by {
            let rx = t[x].next_major_node.leaf().unwrap();
            let ry = t[y].next_major_node.leaf().unwrap();
            if self.branch && x == self.s {
                let b = self.origin(y);
                assert(self.carried(j, b, t[y]));
                assert(b >= self.cut());
                assert(j[b].next_major_node.leaf().is_some());
                assert(j[b].next_major_node.leaf().unwrap() >= self.rank);
            } else if self.branch && y == self.s {
                let a = self.origin(x);
                assert(self.carried(j, a, t[x]));
                assert(a < self.cut());
                assert(j[a].next_major_node.leaf().is_some());
                assert(j[a].next_major_node.leaf().unwrap() < self.rank);
            } else {
                let a = self.origin(x);
                let b = self.origin(y);
                assert(a < b);
                assert(self.carried(j, a, t[x]));
                assert(self.carried(j, b, t[y]));
                let oa = j[a].next_major_node.leaf();
                let ob = j[b].next_major_node.leaf();
                if oa.is_some() && ob.is_some() {
                    assert(oa.unwrap() < ob.unwrap());
                } else if oa.is_some() {
                    assert(b == self.i && !self.branch && self.valued);
                    assert(a < self.cut());
                    assert(oa.unwrap() < self.rank);
                } else if ob.is_some() {
                    assert(a == self.i && !self.branch && self.valued);
                    assert(b >= self.cut());
                    assert(ob.unwrap() >= self.rank);
                } else {
                    assert(false);
                }
            }
        }
    }

    /// Every rank of the new table names a value of the new store.
    proof fn lemma_leaf_range(self, j: Seq<Jump>, n_nodes: int, n_leaves: int, w: Spans, x: int)
        requires
            inv(j, n_nodes, n_leaves, w),
            self.fits(j, n_nodes, n_leaves, w),
            0 <= x < self.table(j).len(),
        ensures
            match self.table(j)[x].next_major_node.leaf() {
                Some(r) => 0 <= r < n_leaves + self.by_rank(),
                None => true,
            },
    {
        reveal(inv_leaves);
        self.lemma_fields(j, n_nodes, n_leaves, w);
        let t = self.table(j);
        if !(self.branch && x == self.s) {
            let a = self.origin(x);
            assert(self.carried(j, a, t[x]));
            match j[a].next_major_node.leaf() {
                Some(r) => {
                    assert(0 <= r < n_leaves);
                },
                None => {},
            }
        }
    }

    /// Every value of the new store is carried by the record that the new
    /// certificate names for it.
    proof fn lemma_leaf_owner(self, j: Seq<Jump>, n_nodes: int, n_leaves: int, w: Spans, r: int)
        requires
            inv(j, n_nodes, n_leaves, w),
            self.fits(j, n_nodes, n_leaves, w),
            0 <= r < n_leaves + self.by_rank(),
        ensures
            ({
                let lo = self.spans(j, n_nodes, n_leaves, w).leaf_owner;
                0 <= lo[r] < self.table(j).len() && self.table(j)[lo[r]].next_major_node.leaf()
                    == Some(r)
            }),
    {
        reveal(inv_leaves);
        self.lemma_fields(j, n_nodes, n_leaves, w);
        let t = self.table(j);
        let lo = self.spans(j, n_nodes, n_leaves, w).leaf_owner;
        if !(self.valued && r == self.rank) {
            let k = if self.valued && r > self.rank {
                r - 1
            } else {
                r
            };
            let a = w.leaf_owner[k];
            assert(0 <= a < j.len() && j[a].next_major_node.leaf() == Some(k));
            let y = self.moved(a);
            assert(lo[r] == y);
            assert(self.origin(y) == a);
            assert(self.carried(j, a, t[y]));
        } else {
            assert(lo[r] == self.carrier());
            if !self.branch {
                assert(self.origin(self.i) == self.i);
                assert(self.carried(j, self.i, t[self.i]));
            }
        }
    }

    /// The ranks of the new table number the new value store.
    proof fn lemma_leaves(self, j: Seq<Jump>, n_nodes: int, n_leaves: int, w: Spans)
        requires
            inv(j, n_nodes, n_leaves, w),
            self.fits(j, n_nodes, n_leaves, w),
        ensures
            inv_leaves(
                self.table(j),
                n_leaves + self.by_rank(),
                self.spans(j, n_nodes, n_leaves, w).leaf_owner,
            ),
    {
        reveal(inv_leaves);
        self.lemma_leaves_order(j, n_nodes, n_leaves, w);
        let t = self.table(j);
        let lo = self.spans(j, n_nodes, n_leaves, w).leaf_owner;
        let nl = n_leaves + self.by_rank();
        assert(t[0].next_major_node_dist == 0 ==> t[0].next_major_node.leaf().is_none()) by {
            self.lemma_fields(j, n_nodes, n_leaves, w);
            assert(self.origin(0) == 0);
            assert(self.carried(j, 0, t[0]));
        }
        assert forall|x: int| 0 <= x < t.len() implies match (
        #[trigger] t[x]).next_major_node.leaf() {
            Some(r) => 0 <= r < nl,
            None => true,
        } by {
            self.lemma_leaf_range(j, n_nodes, n_leaves, w, x);
        }
        assert forall|r: int| 0 <= r < nl implies 0 <= (#[trigger] lo[r]) < t.len()
            && t[lo[r]].next_major_node.leaf() == Some(r) by {
            self.lemma_leaf_owner(j, n_nodes, n_leaves, w, r);
        }
    }

    /// A growth that fits a valid layout gives a valid layout.
    pub proof fn lemma_grow(self, j: Seq<Jump>, n_nodes: int, n_leaves: int, w: Spans)
        requires
            inv(j, n_nodes, n_leaves, w),
            self.fits(j, n_nodes, n_leaves, w),
        ensures
            inv(
                self.table(j),
                n_nodes + self.n,
                n_leaves + self.by_rank(),
                self.spans(j, n_nodes, n_leaves, w),
            ),
    {
        reveal(inv_links);
        self.lemma_basic(j, n_nodes, n_leaves, w);
        self.lemma_sorted(j, n_nodes, n_leaves, w);
        self.lemma_links_single(j, n_nodes, n_leaves, w);
        self.lemma_links_parent(j, n_nodes, n_leaves, w);
        self.lemma_links_child(j, n_nodes, n_leaves, w);
        self.lemma_links_next(j, n_nodes, n_leaves, w);
        self.lemma_nested(j, n_nodes, n_leaves, w);
        self.lemma_depths(j, n_nodes, n_leaves, w);
        self.lemma_cover(j, n_nodes, n_leaves, w);
        self.lemma_leaves(j, n_nodes, n_leaves, w);
    }

    /// The node sequence after the growth.
    pub open spec fn nodes<N>(self, nodes: Seq<N>, keys: Seq<N>) -> Seq<N> {
        nodes.subrange(0, self.e + 1) + keys + nodes.subrange(self.e + 1, nodes.len() as int)
    }

    /// The value store after the growth.
    pub open spec fn leaves<L>(self, leaves: Seq<L>, value: Option<L>) -> Seq<L> {
        match value {
            Some(v) => leaves.insert(self.rank, v),
            None => leaves,
        }
    }

    /// One entry of the listing after the growth.
    proof fn lemma_listing_at<N, L>(
        self,
        nodes: Seq<N>,
        j: Seq<Jump>,
        leaves: Seq<L>,
        w: Spans,
        keys: Seq<N>,
        value: Option<L>,
        m: int,
    )
        requires
            inv(j, nodes.len() as int, leaves.len() as int, w),
            self.fits(j, nodes.len() as int, leaves.len() as int, w),
            inv(
                self.table(j),
                nodes.len() + self.n,
                leaves.len() + self.by_rank(),
                self.spans(j, nodes.len() as int, leaves.len() as int, w),
            ),
            keys.len() == self.n,
            self.valued == value.is_some(),
            0 <= m < nodes.len() + self.n,
        ensures
            self.nodes(nodes, keys)[m] == if m <= self.e {
                nodes[m]
            } else if m <= self.e + self.n {
                keys[m - self.e - 1]
            } else {
                nodes[m - self.n]
            },
            depth_of(self.table(j), m) == if m <= self.e {
                depth_of(j, m)
            } else if m <= self.e + self.n {
                j[self.i].depth + j[self.i].next_major_node_dist + (m - self.e)
            } else {
                depth_of(j, m - self.n)
            },
            match leaf_of(self.table(j), m) {
                Some(r) => 0 <= r < leaves.len() + self.by_rank() && Some(
                    self.leaves(leaves, value)[r],
                ) == if m <= self.e {
                    listing(nodes, j, leaves)[m].value
                } else if m <= self.e + self.n {
                    value
                } else {
                    listing(nodes, j, leaves)[m - self.n].value
                },
                None => if m <= self.e {
                    listing(nodes, j, leaves)[m].value.is_none()
                } else if m < self.e + self.n {
                    true
                } else if m == self.e + self.n {
                    value.is_none()
                } else {
                    listing(nodes, j, leaves)[m - self.n].value.is_none()
                },
            },
    {
        let nn = nodes.len() as int;
        let nl = leaves.len() as int;
        let t = self.table(j);
        let leaves1 = self.leaves(leaves, value);
        let w1 = self.spans(j, nn, nl, w);
        reveal(inv_cover);
        self.lemma_fields(j, nn, nl, w);
        assert(self.origin(self.i) == self.i);
        assert(self.carried(j, self.i, t[self.i]));
        let y = w1.owner[m];
        assert(0 <= y < t.len() && t[y].covers(m));
        lemma_owner(t, nn + self.n, nl + self.by_rank(), w1, y, m);
        if m <= self.e || m > self.e + self.n {
            let k = if m <= self.e {
                m
            } else {
                m - self.n
            };
            let a = w.owner[k];
            assert(0 <= a < j.len() && j[a].covers(k));
            lemma_owner(j, nn, nl, w, a, k);
            assert(y == self.moved(a));
            assert(self.origin(y) == a);
            assert(self.carried(j, a, t[y]));
            self.lemma_apart(j, nn, nl, w, a);
            match j[a].next_major_node.leaf() {
                Some(r) => {
                    assert(0 <= r < nl) by {
                        reveal(inv_leaves);
                    }
                    assert(leaves1[bump(r, self.rank, self.by_rank())] == leaves[r]);
                },
                None => {},
            }
        } else {
            assert(y == self.carrier());
            if self.valued {
                assert(leaves1[self.rank] == value.unwrap());
            }
        }
    }

    /// The listing after the growth is the old one with the chain put in
    /// after the subtree of the major node.
    pub proof fn lemma_listing<N, L>(
        self,
        nodes: Seq<N>,
        j: Seq<Jump>,
        leaves: Seq<L>,
        w: Spans,
        keys: Seq<N>,
        value: Option<L>,
    )
        requires
            inv(j, nodes.len() as int, leaves.len() as int, w),
            self.fits(j, nodes.len() as int, leaves.len() as int, w),
            keys.len() == self.n,
            self.valued == value.is_some(),
        ensures
            listing(self.nodes(nodes, keys), self.table(j), self.leaves(leaves, value))
                == inserted(listing(nodes, j, leaves), j[self.i].major(), keys, value),
    {
        let nn = nodes.len() as int;
        let nl = leaves.len() as int;
        let pos = j[self.i].major();
        let s0 = listing(nodes, j, leaves);
        let t = self.table(j);
        let nodes1 = self.nodes(nodes, keys);
        let leaves1 = self.leaves(leaves, value);
        let s1 = listing(nodes1, t, leaves1);
        let w1 = self.spans(j, nn, nl, w);
        let target = inserted(s0, pos, keys, value);
        lemma_position(nodes, j, leaves, w, self.i, pos);
        self.lemma_grow(j, nn, nl, w);
        self.lemma_fields(j, nn, nl, w);
        assert(self.origin(self.i) == self.i);
        assert(self.carried(j, self.i, t[self.i]));
        assert(subtree_end(s0, pos) == self.e);
        let d0 = depth_at(s0, pos) + 1;
        assert(s1.len() == target.len());
        assert forall|m: int| 0 <= m < s1.len() implies s1[m] == target[m] by {
            self.lemma_listing_at(nodes, j, leaves, w, keys, value, m);
            if m <= self.e {
                assert(target[m] == s0[m]);
            } else if m <= self.e + self.n {
                assert(target[m] == chain(keys, d0, value)[m - self.e - 1]);
            } else {
                assert(target[m] == s0[m - self.n]);
            }
        }
        assert(s1 =~= target);
    }
}

} // verus!
