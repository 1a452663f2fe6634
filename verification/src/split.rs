//! How the jump table changes when a run is cut in two, so that the node
//! before the cut becomes a major node, and why the listing stays the same.
//!
//! The records below the cut move one generation down. The table is ordered
//! by generation, so in every generation the block of records that descend
//! from the cut run changes place with the records that stood between it and
//! the next such block.

use vstd::prelude::*;
use crate::jump::{Jump, MajorNode};
use crate::layout::{depth_of, inv, inv_basic, inv_cover, inv_depths, inv_leaves, inv_links, inv_nested, inv_sorted, key_lt, lemma_owner, listing, Spans};

verus! {

/// One cut: the run of record `i` ends at node `pos` from now on, and the
/// rest of it becomes the run of a child record.
///
/// The table from index `i` on falls into regions `b[g] .. b[g + 1]`. The
/// records of a region before `m[g]` descend from the cut run, the others do
/// not. The values carried by the region have the ranks `rb[g] .. rb[g + 1]`,
/// those of the first part the ranks below `rm[g]`. `reg` names the region
/// of each record.
pub struct Split {
    pub i: int,
    pub pos: int,
    pub b: Seq<int>,
    pub m: Seq<int>,
    pub rb: Seq<int>,
    pub rm: Seq<int>,
    pub reg: Seq<int>,
}

impl Split {
    /// The number of regions.
    pub open spec fn regions(self) -> int {
        self.b.len() - 1
    }

    /// Region `g` has its middle between its start and the next start, and so
    /// have its ranks.
    pub open spec fn region_ok(self, len: int, n_leaves: int, g: int) -> bool {
        &&& self.b[g] <= self.m[g] <= len
        &&& 0 <= self.rb[g] <= self.rm[g] <= n_leaves
        &&& g < self.regions() ==> {
            &&& self.m[g] <= self.b[g + 1]
            &&& self.b[g] < self.b[g + 1]
            &&& self.rm[g] <= self.rb[g + 1]
        }
    }

    /// The record at old index `x` lies in the region that `reg` names.
    pub open spec fn reg_ok(self, x: int) -> bool {
        &&& 0 <= self.reg[x] < self.regions()
        &&& self.b[self.reg[x]] <= x < self.b[self.reg[x] + 1]
    }

    /// The regions are laid out over the whole table from `i` on.
    #[verifier::opaque]
    pub open spec fn framed(self, len: int, n_leaves: int) -> bool {
        &&& self.b.len() >= 2
        &&& self.m.len() == self.b.len()
        &&& self.rb.len() == self.b.len()
        &&& self.rm.len() == self.b.len()
        &&& self.reg.len() == len
        &&& 0 <= self.i < len
        &&& self.b[0] == self.i
        &&& self.m[0] == self.i + 1
        &&& self.b[self.regions()] == len
        &&& self.m[self.regions()] == len
        &&& forall|g: int| 0 <= g <= self.regions() ==> #[trigger] self.region_ok(len, n_leaves, g)
        &&& forall|x: int| self.i <= x < len ==> #[trigger] self.reg_ok(x)
    }

    /// The record at old index `x` descends from the cut run, or is its rest.
    pub open spec fn below(self, x: int) -> bool {
        x >= self.i && x < self.m[self.reg[x]]
    }

    /// The cut is possible on table `j`, certified by `w`, with these regions.
    #[verifier::opaque]
    pub open spec fn fits(self, j: Seq<Jump>, n_nodes: int, n_leaves: int, w: Spans) -> bool {
        &&& self.framed(j.len() as int, n_leaves)
        &&& j.len() + 1 < isize::MAX
        &&& n_leaves <= usize::MAX
        &&& j[self.i].jump_to_node <= self.pos < j[self.i].major()
        &&& forall|x: int|
            1 <= x < j.len() ==> {
                let p = (#[trigger] j[x]).parent_jump_index as int;
                if x < self.b[1] {
                    p < self.i
                } else {
                    &&& p >= self.i
                    &&& self.reg[p] == self.reg[x] - 1
                    &&& self.below(x) == self.below(p)
                }
            }
        &&& forall|x: int|
            0 <= x < j.len() ==> match (#[trigger] j[x]).next_major_node.leaf() {
                Some(v) => if x < self.i {
                    v < self.rb[0]
                } else {
                    &&& self.rb[self.reg[x]] <= v < self.rb[self.reg[x] + 1]
                    &&& self.below(x) == (v < self.rm[self.reg[x]])
                },
                None => true,
            }
    }

    /// New index of the record at old index `x`; for `i`, of the rest of its run.
    pub open spec fn moved(self, x: int) -> int {
        if x < self.i {
            x
        } else {
            let g = self.reg[x];
            if x < self.m[g] {
                x + 1 + (self.b[g + 1] - self.m[g])
            } else {
                x + 1 - (self.m[g] - self.b[g])
            }
        }
    }

    /// New rank of the value of rank `v` carried by the record at old index `x`.
    pub open spec fn ranked(self, x: int, v: int) -> int {
        if x < self.i {
            v
        } else {
            let g = self.reg[x];
            if x < self.m[g] {
                v + (self.rb[g + 1] - self.rm[g])
            } else {
                v - (self.rm[g] - self.rb[g])
            }
        }
    }

    /// Old index of the record at new index `y`, which is not `i`.
    pub open spec fn origin(self, y: int) -> int {
        if y < self.i {
            y
        } else {
            let g = self.reg[y - 1];
            let o = y - 1 - self.b[g];
            let gap = self.b[g + 1] - self.m[g];
            if o < gap {
                self.m[g] + o
            } else {
                self.b[g] + o - gap
            }
        }
    }

    /// Old rank of the value that gets rank `r`, whose old holder is at `x`.
    pub open spec fn unranked(self, x: int, r: int) -> int {
        if x < self.i {
            r
        } else {
            let g = self.reg[x];
            let o = r - self.rb[g];
            let gap = self.rb[g + 1] - self.rm[g];
            if o < gap {
                self.rm[g] + o
            } else {
                self.rb[g] + o - gap
            }
        }
    }

    /// The major node of the record at old index `x`, renumbered.
    pub open spec fn shifted_major(self, x: int, m: MajorNode) -> MajorNode {
        match m {
            MajorNode::LeafJump { leaf_index, child_jump_index } => MajorNode::LeafJump {
                leaf_index: self.ranked(x, leaf_index as int) as usize,
                child_jump_index: self.child_moved(child_jump_index as int) as usize,
            },
            MajorNode::Leaf { leaf_index: Some(r) } => MajorNode::Leaf {
                leaf_index: Some(self.ranked(x, r as int) as usize),
            },
            MajorNode::Leaf { leaf_index: None } => m,
            MajorNode::Jump { child_jump_index } => MajorNode::Jump {
                child_jump_index: self.child_moved(child_jump_index as int) as usize,
            },
        }
    }

    /// New index of a first child: the head of the cut run stays at `i`.
    pub open spec fn child_moved(self, c: int) -> int {
        if c == self.i {
            c
        } else {
            self.moved(c)
        }
    }

    /// The record at old index `x` as it stands after the cut; for `i`, the
    /// record of the rest of its run.
    pub open spec fn image(self, j: Seq<Jump>, x: int) -> Jump {
        if x == self.i {
            Jump {
                parent_jump_index: self.i as isize,
                jump_to_node: (self.pos + 1) as isize,
                next_major_node_dist: (j[x].major() - self.pos - 1) as usize,
                next_major_node: self.shifted_major(x, j[x].next_major_node),
                depth: (j[x].depth + (self.pos + 1 - j[x].jump_to_node)) as isize,
            }
        } else {
            Jump {
                parent_jump_index: self.moved(j[x].parent_jump_index as int) as isize,
                jump_to_node: j[x].jump_to_node,
                next_major_node_dist: j[x].next_major_node_dist,
                next_major_node: self.shifted_major(x, j[x].next_major_node),
                depth: j[x].depth,
            }
        }
    }

    /// The record of the head of the cut run.
    pub open spec fn head(self, j: Seq<Jump>) -> Jump {
        Jump {
            parent_jump_index: j[self.i].parent_jump_index,
            jump_to_node: j[self.i].jump_to_node,
            next_major_node_dist: (self.pos - j[self.i].jump_to_node) as usize,
            next_major_node: MajorNode::Jump { child_jump_index: self.b[1] as usize },
            depth: j[self.i].depth,
        }
    }

    /// The jump table after the cut.
    pub open spec fn table(self, j: Seq<Jump>) -> Seq<Jump> {
        Seq::new(
            j.len() + 1,
            |y: int|
                if y == self.i {
                    self.head(j)
                } else {
                    self.image(j, self.origin(y))
                },
        )
    }

    /// The value store after the cut.
    pub open spec fn leaves<L>(self, leaves: Seq<L>, w: Spans) -> Seq<L> {
        Seq::new(leaves.len(), |r: int| leaves[self.unranked(w.leaf_owner[r], r)])
    }

    /// The certificate of the table after the cut.
    pub open spec fn spans(self, j: Seq<Jump>, n_nodes: int, n_leaves: int, w: Spans) -> Spans {
        Spans {
            ends: Seq::new(
                j.len() + 1,
                |y: int|
                    if y == self.i {
                        w.ends[self.i]
                    } else {
                        w.ends[self.origin(y)]
                    },
            ),
            owner: Seq::new(
                n_nodes as nat,
                |n: int|
                    if w.owner[n] == self.i && n <= self.pos {
                        self.i
                    } else {
                        self.moved(w.owner[n])
                    },
            ),
            leaf_owner: Seq::new(
                n_leaves as nat,
                |r: int| self.moved(w.leaf_owner[self.unranked(w.leaf_owner[r], r)]),
            ),
        }
    }

    /// Where a record from `i` on stands within its region, before and after.
    pub proof fn lemma_region(self, len: int, n_leaves: int, x: int)
        requires
            self.framed(len, n_leaves),
            self.i <= x < len,
        ensures
            ({
                let g = self.reg[x];
                &&& 0 <= g < self.regions()
                &&& self.i <= self.b[g] <= x < self.b[g + 1] <= len
                &&& self.b[g] <= self.m[g] <= self.b[g + 1]
                &&& self.b[g] + 1 <= self.moved(x) <= self.b[g + 1]
                &&& self.below(x) <==> self.moved(x) > self.b[g] + (self.b[g + 1] - self.m[g])
                &&& self.reg[self.moved(x) - 1] == g
                &&& self.origin(self.moved(x)) == x
                &&& self.moved(x) != self.i
                &&& 0 <= self.rb[g] <= self.rm[g] <= self.rb[g + 1] <= n_leaves
                &&& g == 0 <==> x < self.b[1]
                &&& self.rb[0] <= self.rb[g]
                &&& self.m.len() == self.b.len()
                &&& self.rb.len() == self.b.len()
                &&& self.rm.len() == self.b.len()
                &&& self.reg.len() == len
            }),
    {
        reveal(Split::framed);
        assert(self.reg_ok(x));
        let g = self.reg[x];
        if g >= 1 {
            self.lemma_steps(len, n_leaves, 1, g);
        }
        assert(self.region_ok(len, n_leaves, g));
        assert(self.region_ok(len, n_leaves, g + 1));
        assert(self.region_ok(len, n_leaves, 0));
        self.lemma_steps(len, n_leaves, 0, g);
        let y = self.moved(x) - 1;
        assert(self.b[g] <= y < self.b[g + 1]);
        assert(self.reg_ok(y));
        let h = self.reg[y];
        assert(self.b[h] <= y < self.b[h + 1]);
        if g < h {
            self.lemma_steps(len, n_leaves, g + 1, h);
        }
        if h < g {
            self.lemma_steps(len, n_leaves, h + 1, g);
        }
    }

    /// The region starts rise.
    pub proof fn lemma_steps(self, len: int, n_leaves: int, g: int, h: int)
        requires
            self.framed(len, n_leaves),
            0 <= g <= h <= self.regions(),
        ensures
            self.b[g] <= self.b[h],
            self.rb[g] <= self.rb[h],
            g < h ==> self.b[g] < self.b[h],
        decreases h - g,
    {
        reveal(Split::framed);
        if g < h {
            self.lemma_steps(len, n_leaves, g, h - 1);
            assert(self.region_ok(len, n_leaves, h - 1));
        }
    }

    /// The record at a new index other than `i` comes from an old record, and
    /// only from that one.
    pub proof fn lemma_origin(self, len: int, n_leaves: int, y: int)
        requires
            self.framed(len, n_leaves),
            0 <= y <= len,
            y != self.i,
        ensures
            0 <= self.origin(y) < len,
            self.moved(self.origin(y)) == y,
            y < self.i <==> self.origin(y) < self.i,
            y > self.i ==> self.reg[self.origin(y)] == self.reg[y - 1],
    {
        reveal(Split::framed);
        if y > self.i {
            let g = self.reg[y - 1];
            self.lemma_region(len, n_leaves, y - 1);
            let x = self.origin(y);
            assert(self.b[g] <= x < self.b[g + 1]);
            assert(self.reg_ok(x));
            self.lemma_region(len, n_leaves, x);
            let h = self.reg[x];
            if h < g {
                self.lemma_steps(len, n_leaves, h + 1, g);
            }
            if g < h {
                self.lemma_steps(len, n_leaves, g + 1, h);
            }
        }
    }

    /// How two records from `i` on stand to each other after the cut.
    pub proof fn lemma_order(self, len: int, n_leaves: int, x: int, y: int)
        requires
            self.framed(len, n_leaves),
            self.i <= x < len,
            self.i <= y < len,
        ensures
            self.reg[x] < self.reg[y] ==> self.moved(x) < self.moved(y),
            self.reg[x] == self.reg[y] && !self.below(x) && self.below(y) ==> self.moved(x)
                < self.moved(y),
            self.reg[x] == self.reg[y] && self.below(x) == self.below(y) ==> (self.moved(x)
                < self.moved(y) <==> x < y),
            self.moved(x) == self.moved(y) ==> x == y,
    {
        self.lemma_region(len, n_leaves, x);
        self.lemma_region(len, n_leaves, y);
        if self.reg[x] < self.reg[y] {
            self.lemma_steps(len, n_leaves, self.reg[x] + 1, self.reg[y]);
        }
        if self.reg[y] < self.reg[x] {
            self.lemma_steps(len, n_leaves, self.reg[y] + 1, self.reg[x]);
        }
    }

    /// What the cut asks of the table.
    pub proof fn lemma_cut(self, j: Seq<Jump>, n_nodes: int, n_leaves: int, w: Spans)
        requires
            self.fits(j, n_nodes, n_leaves, w),
        ensures
            self.framed(j.len() as int, n_leaves),
            j.len() + 1 < isize::MAX,
            n_leaves <= usize::MAX,
            0 <= self.i < j.len(),
            j[self.i].jump_to_node <= self.pos < j[self.i].major(),
            self.reg[self.i] == 0,
            self.b[0] == self.i,
            self.m[0] == self.i + 1,
            self.moved(self.i) == self.b[1],
            self.i < self.b[1] <= j.len(),
            self.regions() >= 1,
            self.b[self.regions()] == j.len(),
            self.rb[0] <= self.rm[0] <= self.rb[1],
    {
        reveal(Split::fits);
        reveal(Split::framed);
        let len = j.len() as int;
        assert(self.region_ok(len, n_leaves, 0));
        self.lemma_region(len, n_leaves, self.i);
        if self.reg[self.i] > 0 {
            self.lemma_steps(len, n_leaves, 1, self.reg[self.i]);
        }
    }

    /// The parent of a record lies one region before it, on the same side.
    pub proof fn lemma_parent(self, j: Seq<Jump>, n_nodes: int, n_leaves: int, w: Spans, x: int)
        requires
            inv(j, n_nodes, n_leaves, w),
            self.fits(j, n_nodes, n_leaves, w),
            1 <= x < j.len(),
        ensures
            ({
                let p = j[x].parent_jump_index as int;
                &&& 0 <= p < x
                &&& if x < self.b[1] {
                    p < self.i
                } else {
                    &&& p >= self.i
                    &&& x > self.i
                    &&& self.reg[x] >= 1
                    &&& self.reg[p] == self.reg[x] - 1
                    &&& self.below(x) == self.below(p)
                    &&& self.moved(p) < self.moved(x)
                }
            }),
    {
        reveal(Split::fits);
        reveal(inv_basic);
        let len = j.len() as int;
        let p = j[x].parent_jump_index as int;
        assert(0 <= p < x);
        self.lemma_cut(j, n_nodes, n_leaves, w);
        if x >= self.b[1] {
            self.lemma_region(len, n_leaves, x);
            self.lemma_region(len, n_leaves, p);
            self.lemma_order(len, n_leaves, p, x);
        }
    }

    /// The rank of a value lies among the ranks of the region of its record,
    /// on the same side.
    pub proof fn lemma_rank(self, j: Seq<Jump>, n_nodes: int, n_leaves: int, w: Spans, x: int)
        requires
            inv(j, n_nodes, n_leaves, w),
            self.fits(j, n_nodes, n_leaves, w),
            0 <= x < j.len(),
            j[x].next_major_node.leaf().is_some(),
        ensures
            ({
                let v = j[x].next_major_node.leaf().unwrap();
                &&& 0 <= v < n_leaves
                &&& 0 <= self.ranked(x, v) < n_leaves
                &&& if x < self.i {
                    v < self.rb[0]
                } else {
                    let g = self.reg[x];
                    &&& self.rb[g] <= v < self.rb[g + 1]
                    &&& self.below(x) == (v < self.rm[g])
                    &&& self.rb[g] <= self.ranked(x, v) < self.rb[g + 1]
                    &&& self.below(x) == (self.ranked(x, v) >= self.rb[g] + (self.rb[g + 1]
                        - self.rm[g]))
                    &&& self.unranked(x, self.ranked(x, v)) == v
                }
            }),
    {
        reveal(Split::fits);
        reveal(inv_leaves);
        let len = j.len() as int;
        if x >= self.i {
            self.lemma_cut(j, n_nodes, n_leaves, w);
            self.lemma_region(len, n_leaves, x);
        }
    }

    /// The fields of the record that came from old index `x`.
    pub open spec fn carried(self, j: Seq<Jump>, x: int, r: Jump) -> bool {
        &&& r.parent_jump_index == if x == self.i {
            self.i
        } else {
            self.moved(j[x].parent_jump_index as int)
        }
        &&& r.jump_to_node == if x == self.i {
            self.pos + 1
        } else {
            j[x].jump_to_node as int
        }
        &&& r.major() == j[x].major()
        &&& r.depth == j[x].depth + (r.jump_to_node - j[x].jump_to_node)
        &&& r.next_major_node.child() == match j[x].next_major_node.child() {
            Some(c) => Some(self.child_moved(c)),
            None => None,
        }
        &&& r.next_major_node.leaf() == match j[x].next_major_node.leaf() {
            Some(v) => Some(self.ranked(x, v)),
            None => None,
        }
    }

    /// What the record at new index `y` holds.
    pub proof fn lemma_field(self, j: Seq<Jump>, n_nodes: int, n_leaves: int, w: Spans, y: int)
        requires
            inv(j, n_nodes, n_leaves, w),
            self.fits(j, n_nodes, n_leaves, w),
            0 <= y <= j.len(),
        ensures
            self.table(j).len() == j.len() + 1,
            y != self.i ==> {
                &&& 0 <= self.origin(y) < j.len()
                &&& self.moved(self.origin(y)) == y
                &&& y < self.i <==> self.origin(y) < self.i
                &&& self.carried(j, self.origin(y), self.table(j)[y])
            },
            y == self.i ==> {
                let r = self.table(j)[self.i];
                &&& r.parent_jump_index == j[self.i].parent_jump_index
                &&& r.jump_to_node == j[self.i].jump_to_node
                &&& r.major() == self.pos
                &&& r.depth == j[self.i].depth
                &&& r.next_major_node.child() == Some(self.b[1])
                &&& r.next_major_node.leaf().is_none()
            },
    {
        let t = self.table(j);
        let len = j.len() as int;
        self.lemma_cut(j, n_nodes, n_leaves, w);
        crate::layout::lemma_bounded(j, n_nodes, n_leaves, w, self.i);
        assert(j[0].parent_jump_index == -1) by {
            reveal(inv_basic);
        }
        if y != self.i {
            self.lemma_origin(len, n_leaves, y);
            let x = self.origin(y);
            assert(t[y] == self.image(j, x));
            crate::layout::lemma_bounded(j, n_nodes, n_leaves, w, x);
            if x >= self.i {
                self.lemma_region(len, n_leaves, x);
            }
            if x >= 1 {
                self.lemma_parent(j, n_nodes, n_leaves, w, x);
                let p = j[x].parent_jump_index as int;
                if p >= self.i {
                    self.lemma_region(len, n_leaves, p);
                }
            }
            match j[x].next_major_node.child() {
                Some(c) => {
                    if c >= self.i {
                        self.lemma_region(len, n_leaves, c);
                    }
                },
                None => {},
            }
            match j[x].next_major_node.leaf() {
                Some(v) => {
                    self.lemma_rank(j, n_nodes, n_leaves, w, x);
                },
                None => {},
            }
        }
    }

    /// Old index of the record whose nodes the record at new index `y` holds.
    pub open spec fn source(self, y: int) -> int {
        if y == self.i {
            self.i
        } else {
            self.origin(y)
        }
    }

    /// The parent of the record at new index `y` is the record that came
    /// from the parent of its source; for the rest of the cut run, it is the
    /// head.
    pub proof fn lemma_parent_at(
        self,
        j: Seq<Jump>,
        n_nodes: int,
        n_leaves: int,
        w: Spans,
        y: int,
    )
        requires
            inv(j, n_nodes, n_leaves, w),
            self.fits(j, n_nodes, n_leaves, w),
            1 <= y <= j.len(),
        ensures
            ({
                let t = self.table(j);
                let x = self.source(y);
                let q = t[y].parent_jump_index as int;
                &&& 0 <= q < y
                &&& 0 <= x < j.len()
                &&& if y == self.i {
                    q == j[x].parent_jump_index && q < self.i && self.source(q) == q
                } else if x == self.i {
                    q == self.i && y == self.b[1]
                } else {
                    &&& x >= 1
                    &&& q != self.i
                    &&& self.source(q) == j[x].parent_jump_index
                    &&& q == self.moved(j[x].parent_jump_index as int)
                }
            }),
    {
        let len = j.len() as int;
        let t = self.table(j);
        self.lemma_cut(j, n_nodes, n_leaves, w);
        self.lemma_field(j, n_nodes, n_leaves, w, y);
        assert(j[0].parent_jump_index == -1 && (self.i >= 1 ==> 0 <= j[self.i].parent_jump_index
            < self.i)) by {
            reveal(inv_basic);
        }
        if y != self.i {
            let x = self.origin(y);
            if x != self.i {
                self.lemma_parent(j, n_nodes, n_leaves, w, x);
                let p = j[x].parent_jump_index as int;
                if p >= self.i {
                    self.lemma_region(len, n_leaves, p);
                    self.lemma_region(len, n_leaves, x);
                }
            }
        }
    }

    /// Record `0` is the root of the new table, and every other record
    /// follows its parent.
    proof fn lemma_basic(self, j: Seq<Jump>, n_nodes: int, n_leaves: int, w: Spans)
        requires
            inv(j, n_nodes, n_leaves, w),
            self.fits(j, n_nodes, n_leaves, w),
        ensures
            inv_basic(self.table(j), n_nodes),
    {
        let t = self.table(j);
        self.lemma_cut(j, n_nodes, n_leaves, w);
        self.lemma_field(j, n_nodes, n_leaves, w, 0);
        crate::layout::lemma_bounded(j, n_nodes, n_leaves, w, 0);
        crate::layout::lemma_bounded(j, n_nodes, n_leaves, w, self.i);
        assert(j[0].parent_jump_index == -1 && j[0].jump_to_node == -1 && j[0].depth == -1) by {
            reveal(inv_basic);
        }
        assert forall|y: int| 1 <= y < t.len() implies {
            &&& 0 <= (#[trigger] t[y]).parent_jump_index < y
            &&& 0 <= t[y].depth <= t[y].jump_to_node
            &&& t[y].major() < n_nodes
        } by {
            self.lemma_parent_at(j, n_nodes, n_leaves, w, y);
            self.lemma_field(j, n_nodes, n_leaves, w, y);
            let x = self.source(y);
            crate::layout::lemma_bounded(j, n_nodes, n_leaves, w, x);
            assert(x >= 1 ==> 0 <= j[x].depth <= j[x].jump_to_node) by {
                reveal(inv_basic);
            }
        }
        reveal(inv_basic);
    }

    /// Two records of the new table stand in the order of their keys.
    proof fn lemma_sorted_at(
        self,
        j: Seq<Jump>,
        n_nodes: int,
        n_leaves: int,
        w: Spans,
        y: int,
        z: int,
    )
        requires
            inv(j, n_nodes, n_leaves, w),
            self.fits(j, n_nodes, n_leaves, w),
            0 <= y < z <= j.len(),
        ensures
            key_lt(self.table(j)[y], self.table(j)[z]),
    {
        let len = j.len() as int;
        let t = self.table(j);
        self.lemma_cut(j, n_nodes, n_leaves, w);
        self.lemma_field(j, n_nodes, n_leaves, w, y);
        self.lemma_field(j, n_nodes, n_leaves, w, z);
        self.lemma_parent_at(j, n_nodes, n_leaves, w, z);
        let x = self.source(y);
        let v = self.source(z);
        assert(j[0].parent_jump_index == -1) by {
            reveal(inv_basic);
        }
        let ty = t[y];
        let tz = t[z];
        if y == 0 {
            assert(ty.parent_jump_index == -1);
            assert(key_lt(ty, tz));
        } else {
            self.lemma_parent_at(j, n_nodes, n_leaves, w, y);
            if x >= self.i {
                self.lemma_region(len, n_leaves, x);
            }
            if v >= self.i {
                self.lemma_region(len, n_leaves, v);
            }
            if x >= self.i && v >= self.i {
                self.lemma_order(len, n_leaves, x, v);
                self.lemma_order(len, n_leaves, v, x);
            }
            if x != v {
                assert(x < v ==> key_lt(j[x], j[v])) by {
                    reveal(inv_sorted);
                }
                assert(v < x ==> key_lt(j[v], j[x])) by {
                    reveal(inv_sorted);
                }
            }
            if x >= 1 {
                self.lemma_parent(j, n_nodes, n_leaves, w, x);
            }
            if v >= 1 {
                self.lemma_parent(j, n_nodes, n_leaves, w, v);
            }
            let p = j[x].parent_jump_index as int;
            let q = j[v].parent_jump_index as int;
            if x >= 1 && p >= self.i {
                self.lemma_region(len, n_leaves, p);
            }
            if v >= 1 && q >= self.i {
                self.lemma_region(len, n_leaves, q);
            }
            if x >= 1 && v >= 1 && p >= self.i && q >= self.i {
                self.lemma_order(len, n_leaves, p, q);
                self.lemma_order(len, n_leaves, q, p);
            }
            if y == self.i {
                assert(v >= self.i);
                if v == self.i {
                    assert(key_lt(ty, tz));
                } else if v < self.b[1] {
                    assert(key_lt(ty, tz));
                } else {
                    assert(key_lt(ty, tz));
                }
            } else if z == self.i {
                assert(key_lt(ty, tz));
            } else if x < self.i {
                if v < self.i {
                    assert(key_lt(ty, tz));
                } else if v == self.i {
                    assert(key_lt(ty, tz));
                } else if v < self.b[1] {
                    assert(key_lt(ty, tz));
                } else {
                    assert(key_lt(ty, tz));
                }
            } else if x == self.i {
                assert(v >= self.b[1]);
                assert(key_lt(ty, tz));
            } else if v == self.i {
                assert(key_lt(ty, tz));
            } else if x < self.b[1] {
                if v < self.b[1] {
                    assert(key_lt(ty, tz));
                } else {
                    assert(key_lt(ty, tz));
                }
            } else {
                assert(v >= self.b[1]);
                assert(self.reg[x] <= self.reg[v]);
                if self.reg[x] < self.reg[v] {
                    assert(key_lt(ty, tz));
                } else if self.below(x) != self.below(v) {
                    assert(key_lt(ty, tz));
                } else {
                    assert(x < v);
                    assert(key_lt(ty, tz));
                }
            }
        }
    }

    /// The new table is sorted.
    proof fn lemma_sorted(self, j: Seq<Jump>, n_nodes: int, n_leaves: int, w: Spans)
        requires
            inv(j, n_nodes, n_leaves, w),
            self.fits(j, n_nodes, n_leaves, w),
        ensures
            inv_sorted(self.table(j)),
    {
        let t = self.table(j);
        assert forall|y: int, z: int| 0 <= y < z < t.len() implies key_lt(
            #[trigger] t[y],
            #[trigger] t[z],
        ) by {
            self.lemma_sorted_at(j, n_nodes, n_leaves, w, y, z);
        }
        reveal(inv_sorted);
    }

    /// The subtree ends after the cut.
    pub open spec fn ends(self, j: Seq<Jump>, w: Spans) -> Seq<int> {
        Seq::new(j.len() + 1, |y: int| w.ends[self.source(y)])
    }

    /// Where the run and the subtree of the record at new index `y` lie.
    pub proof fn lemma_place(self, j: Seq<Jump>, n_nodes: int, n_leaves: int, w: Spans, y: int)
        requires
            inv(j, n_nodes, n_leaves, w),
            self.fits(j, n_nodes, n_leaves, w),
            0 <= y <= j.len(),
        ensures
            ({
                let t = self.table(j);
                let x = self.source(y);
                &&& 0 <= x < j.len()
                &&& self.ends(j, w)[y] == w.ends[x]
                &&& self.spans(j, n_nodes, n_leaves, w).ends == self.ends(j, w)
                &&& t[y].major() <= w.ends[x] < n_nodes
                &&& j[x].major() <= w.ends[x]
                &&& t[y].jump_to_node == if y != self.i && x == self.i {
                    self.pos + 1
                } else {
                    j[x].jump_to_node as int
                }
                &&& t[y].major() == if y == self.i {
                    self.pos
                } else {
                    j[x].major()
                }
                &&& t[y].depth == j[x].depth + (t[y].jump_to_node - j[x].jump_to_node)
                &&& j[self.i].jump_to_node <= self.pos < j[self.i].major()
                &&& x == self.i <==> (y == self.i || y == self.b[1])
            }),
    {
        self.lemma_cut(j, n_nodes, n_leaves, w);
        self.lemma_field(j, n_nodes, n_leaves, w, y);
        let x = self.source(y);
        assert(j[x].major() <= w.ends[x] < n_nodes) by {
            reveal(inv_links);
        }
        assert(self.spans(j, n_nodes, n_leaves, w).ends =~= self.ends(j, w));
        if y == self.b[1] {
            self.lemma_field(j, n_nodes, n_leaves, w, self.b[1]);
            self.lemma_region(j.len() as int, n_leaves, self.i);
        }
    }

    /// The major node of a record of the new table lies in its subtree, and
    /// its child reference within the table.
    proof fn lemma_links_single(self, j: Seq<Jump>, n_nodes: int, n_leaves: int, w: Spans, y: int)
        requires
            inv(j, n_nodes, n_leaves, w),
            self.fits(j, n_nodes, n_leaves, w),
            0 <= y <= j.len(),
        ensures
            ({
                let t = self.table(j);
                let ends = self.ends(j, w);
                &&& t[y].major() <= ends[y] < n_nodes
                &&& match t[y].next_major_node.child() {
                    Some(c) => y < c < t.len(),
                    None => ends[y] == t[y].major(),
                }
            }),
    {
        let len = j.len() as int;
        self.lemma_cut(j, n_nodes, n_leaves, w);
        self.lemma_field(j, n_nodes, n_leaves, w, y);
        self.lemma_place(j, n_nodes, n_leaves, w, y);
        if y != self.i {
            let x = self.origin(y);
            match j[x].next_major_node.child() {
                Some(c) => {
                    assert(x < c < len && j[c].parent_jump_index == x) by {
                        reveal(inv_links);
                    }
                    self.lemma_parent(j, n_nodes, n_leaves, w, c);
                    if c >= self.i {
                        self.lemma_region(len, n_leaves, c);
                    }
                    if x >= self.i {
                        self.lemma_region(len, n_leaves, x);
                    }
                },
                None => {
                    assert(w.ends[x] == j[x].major()) by {
                        reveal(inv_links);
                    }
                },
            }
        }
    }

    /// The subtree of the root is the node sequence, as before.
    proof fn lemma_links_ends(self, j: Seq<Jump>, n_nodes: int, n_leaves: int, w: Spans)
        requires
            inv(j, n_nodes, n_leaves, w),
            self.fits(j, n_nodes, n_leaves, w),
        ensures
            ({
                let t = self.table(j);
                let ends = self.ends(j, w);
                &&& ends.len() == t.len()
                &&& ends[0] == n_nodes - 1
            }),
    {
        self.lemma_cut(j, n_nodes, n_leaves, w);
        self.lemma_place(j, n_nodes, n_leaves, w, 0);
        self.lemma_field(j, n_nodes, n_leaves, w, 0);
        assert(w.ends[0] == n_nodes - 1) by {
            reveal(inv_links);
        }
    }

    /// A record of the new table lies below its parent, behind the major node
    /// of the parent.
    proof fn lemma_links_parent(
        self,
        j: Seq<Jump>,
        n_nodes: int,
        n_leaves: int,
        w: Spans,
        q: int,
        y: int,
    )
        requires
            inv(j, n_nodes, n_leaves, w),
            self.fits(j, n_nodes, n_leaves, w),
            0 <= q <= j.len(),
            1 <= y <= j.len(),
            self.table(j)[y].parent_jump_index == q,
        ensures
            ({
                let t = self.table(j);
                let ends = self.ends(j, w);
                &&& t[q].major() < t[y].jump_to_node
                &&& ends[y] <= ends[q]
                &&& t[y].depth == t[q].depth + t[q].next_major_node_dist + 1
                &&& t[q].next_major_node.child().is_some()
                &&& t[q].next_major_node.child().unwrap() <= y
            }),
    {
        let len = j.len() as int;
        let t = self.table(j);
        self.lemma_cut(j, n_nodes, n_leaves, w);
        self.lemma_parent_at(j, n_nodes, n_leaves, w, y);
        self.lemma_field(j, n_nodes, n_leaves, w, y);
        self.lemma_field(j, n_nodes, n_leaves, w, q);
        self.lemma_place(j, n_nodes, n_leaves, w, y);
        self.lemma_place(j, n_nodes, n_leaves, w, q);
        let x = self.source(y);
        if y != self.i && x == self.i {
        } else {
            let p = j[x].parent_jump_index as int;
            assert(x >= 1);
            assert(self.source(q) == p);
            assert({
                &&& j[p].major() < j[x].jump_to_node
                &&& w.ends[x] <= w.ends[p]
                &&& j[x].depth == j[p].depth + j[p].next_major_node_dist + 1
                &&& j[p].next_major_node.child().is_some()
                &&& j[p].next_major_node.child().unwrap() <= x
            }) by {
                reveal(inv_links);
            }
            let c = j[p].next_major_node.child().unwrap();
            assert(p < c < len && j[c].parent_jump_index == p) by {
                reveal(inv_links);
            }
            self.lemma_parent(j, n_nodes, n_leaves, w, x);
            self.lemma_parent(j, n_nodes, n_leaves, w, c);
            if x >= self.i {
                self.lemma_region(len, n_leaves, x);
            }
            if c >= self.i {
                self.lemma_region(len, n_leaves, c);
            }
            if x >= self.i && c >= self.i {
                self.lemma_order(len, n_leaves, c, x);
            }
        }
    }

    /// The first child of a record of the new table names the record as its
    /// parent and follows its major node.
    proof fn lemma_links_child(
        self,
        j: Seq<Jump>,
        n_nodes: int,
        n_leaves: int,
        w: Spans,
        y: int,
        c: int,
    )
        requires
            inv(j, n_nodes, n_leaves, w),
            self.fits(j, n_nodes, n_leaves, w),
            0 <= y <= j.len(),
            0 <= c <= j.len(),
            self.table(j)[y].next_major_node.child() == Some(c),
        ensures
            ({
                let t = self.table(j);
                &&& t[c].parent_jump_index == y
                &&& t[c].jump_to_node == t[y].major() + 1
            }),
    {
        let len = j.len() as int;
        let t = self.table(j);
        self.lemma_cut(j, n_nodes, n_leaves, w);
        self.lemma_field(j, n_nodes, n_leaves, w, y);
        self.lemma_field(j, n_nodes, n_leaves, w, c);
        self.lemma_place(j, n_nodes, n_leaves, w, y);
        self.lemma_place(j, n_nodes, n_leaves, w, c);
        if y != self.i {
            let x = self.origin(y);
            let d = j[x].next_major_node.child().unwrap();
            assert(x < d < len && j[d].parent_jump_index == x && j[d].jump_to_node == j[x].major()
                + 1) by {
                reveal(inv_links);
            }
            self.lemma_parent(j, n_nodes, n_leaves, w, d);
            if d >= self.i {
                self.lemma_region(len, n_leaves, d);
            }
            if x >= self.i {
                self.lemma_region(len, n_leaves, x);
            }
            if d != self.i {
                self.lemma_origin(len, n_leaves, c);
                assert(self.origin(c) == d);
            }
        }
    }

    /// Two records that follow each other on the same side of a region still
    /// follow each other after the cut.
    proof fn lemma_follow(self, len: int, n_leaves: int, x: int)
        requires
            self.framed(len, n_leaves),
            self.i <= x,
            x + 1 < len,
            self.reg[x] == self.reg[x + 1],
            self.below(x) == self.below(x + 1),
        ensures
            self.moved(x + 1) == self.moved(x) + 1,
    {
        self.lemma_region(len, n_leaves, x);
        self.lemma_region(len, n_leaves, x + 1);
    }

    /// The record at old index `x` is the last child of its parent.
    pub open spec fn closes(j: Seq<Jump>, w: Spans, x: int) -> bool {
        w.ends[x] == w.ends[j[x].parent_jump_index as int]
    }

    /// What the old table says of the record at `x` and the next one.
    proof fn lemma_old_next(j: Seq<Jump>, n_nodes: int, n_leaves: int, w: Spans, x: int)
        requires
            inv(j, n_nodes, n_leaves, w),
            1 <= x < j.len(),
        ensures
            x + 1 == j.len() ==> Self::closes(j, w, x),
            x + 1 < j.len() ==> if j[x].parent_jump_index == j[x + 1].parent_jump_index {
                j[x + 1].jump_to_node == w.ends[x] + 1
            } else {
                Self::closes(j, w, x)
            },
    {
        reveal(inv_links);
        if x + 1 < j.len() {
            let z = x + 1;
            assert(if j[x].parent_jump_index == j[z].parent_jump_index {
                j[z].jump_to_node == w.ends[x] + 1
            } else {
                w.ends[x] == w.ends[j[x].parent_jump_index as int]
            });
        }
    }

    /// Of two records that follow each other in the new table, the second
    /// starts behind the subtree of the first where they have one parent;
    /// else the subtree of the first ends with that of its parent.
    proof fn lemma_links_next(
        self,
        j: Seq<Jump>,
        n_nodes: int,
        n_leaves: int,
        w: Spans,
        y: int,
        z: int,
    )
        requires
            inv(j, n_nodes, n_leaves, w),
            self.fits(j, n_nodes, n_leaves, w),
            1 <= y,
            z == y + 1,
            z <= j.len(),
        ensures
            ({
                let t = self.table(j);
                let ends = self.ends(j, w);
                if t[y].parent_jump_index == t[z].parent_jump_index {
                    t[z].jump_to_node == ends[y] + 1
                } else {
                    ends[y] == ends[t[y].parent_jump_index as int]
                }
            }),
    {
        let len = j.len() as int;
        let t = self.table(j);
        let ends = self.ends(j, w);
        self.lemma_cut(j, n_nodes, n_leaves, w);
        self.lemma_parent_at(j, n_nodes, n_leaves, w, y);
        self.lemma_parent_at(j, n_nodes, n_leaves, w, z);
        self.lemma_place(j, n_nodes, n_leaves, w, y);
        self.lemma_place(j, n_nodes, n_leaves, w, z);
        let x = self.source(y);
        let v = self.source(z);
        let q = t[y].parent_jump_index as int;
        self.lemma_place(j, n_nodes, n_leaves, w, q);
        self.lemma_field(j, n_nodes, n_leaves, w, y);
        self.lemma_field(j, n_nodes, n_leaves, w, z);
        self.lemma_region(len, n_leaves, self.i);
        if y == self.i {
            Self::lemma_old_next(j, n_nodes, n_leaves, w, self.i);
            if self.i + 1 < len {
                self.lemma_parent(j, n_nodes, n_leaves, w, self.i + 1);
                self.lemma_region(len, n_leaves, self.i + 1);
            }
            if z != self.b[1] {
                self.lemma_origin(len, n_leaves, z);
                assert(self.moved(self.i + 1) == z);
                assert(v == self.i + 1);
            }
        } else if x == self.i {
            assert(q == self.i);
            assert(v != self.i);
            assert(v >= 1);
            self.lemma_parent(j, n_nodes, n_leaves, w, v);
            let pv = j[v].parent_jump_index as int;
            if pv >= self.i {
                self.lemma_region(len, n_leaves, pv);
            }
        } else if z == self.i {
            assert(x == self.i - 1);
            Self::lemma_old_next(j, n_nodes, n_leaves, w, x);
        } else if v == self.i {
            assert(z == self.b[1]);
            self.lemma_region(len, n_leaves, x);
            self.lemma_region(len, n_leaves, y - 1);
            assert(x == self.b[1] - 1);
            Self::lemma_old_next(j, n_nodes, n_leaves, w, x);
            self.lemma_parent(j, n_nodes, n_leaves, w, x);
            if x + 1 < len {
                self.lemma_parent(j, n_nodes, n_leaves, w, x + 1);
            }
        } else if z < self.i {
            assert(v == x + 1);
            Self::lemma_old_next(j, n_nodes, n_leaves, w, x);
            self.lemma_parent(j, n_nodes, n_leaves, w, x);
            self.lemma_parent(j, n_nodes, n_leaves, w, v);
        } else {
            assert(x > self.i && v > self.i);
            let p = j[x].parent_jump_index as int;
            let pv = j[v].parent_jump_index as int;
            Self::lemma_old_next(j, n_nodes, n_leaves, w, x);
            self.lemma_parent(j, n_nodes, n_leaves, w, x);
            self.lemma_parent(j, n_nodes, n_leaves, w, v);
            self.lemma_region(len, n_leaves, x);
            self.lemma_region(len, n_leaves, v);
            if p >= self.i {
                self.lemma_region(len, n_leaves, p);
            }
            if pv >= self.i {
                self.lemma_region(len, n_leaves, pv);
            }
            if p >= self.i && pv >= self.i {
                self.lemma_order(len, n_leaves, p, pv);
            }
            assert(t[y].parent_jump_index == t[z].parent_jump_index <==> p == pv);
            if x + 1 < len && j[x].parent_jump_index == j[x + 1].parent_jump_index {
                let u = x + 1;
                self.lemma_parent(j, n_nodes, n_leaves, w, u);
                self.lemma_region(len, n_leaves, u);
                assert(self.reg[x] == self.reg[u]);
                assert(self.below(x) == self.below(u));
                self.lemma_follow(len, n_leaves, x);
                self.lemma_origin(len, n_leaves, z);
                assert(v == u);
            } else if p == pv {
                // Siblings stand together in the old table.
                self.lemma_order(len, n_leaves, x, v);
                assert(x < v);
                let u = x + 1;
                assert(u < v);
                assert(key_lt(j[x], j[u]) && key_lt(j[u], j[v])) by {
                    reveal(inv_sorted);
                }
                assert(false);
            }
        }
    }

    /// The subtree of the last record of the new table ends with that of its
    /// parent.
    proof fn lemma_links_last(self, j: Seq<Jump>, n_nodes: int, n_leaves: int, w: Spans)
        requires
            inv(j, n_nodes, n_leaves, w),
            self.fits(j, n_nodes, n_leaves, w),
        ensures
            ({
                let t = self.table(j);
                let ends = self.ends(j, w);
                ends[t.len() - 1] == ends[t[t.len() - 1].parent_jump_index as int]
            }),
    {
        let len = j.len() as int;
        let t = self.table(j);
        let y = len;
        self.lemma_cut(j, n_nodes, n_leaves, w);
        self.lemma_parent_at(j, n_nodes, n_leaves, w, y);
        self.lemma_place(j, n_nodes, n_leaves, w, y);
        self.lemma_field(j, n_nodes, n_leaves, w, y);
        let x = self.source(y);
        let q = t[y].parent_jump_index as int;
        self.lemma_place(j, n_nodes, n_leaves, w, q);
        self.lemma_region(len, n_leaves, len - 1);
        if x != self.i {
            self.lemma_region(len, n_leaves, x);
            Self::lemma_old_next(j, n_nodes, n_leaves, w, x);
            self.lemma_parent(j, n_nodes, n_leaves, w, x);
            if x + 1 < len {
                self.lemma_parent(j, n_nodes, n_leaves, w, x + 1);
                self.lemma_region(len, n_leaves, x + 1);
            }
        }
    }

    /// What the old table says of the places of two records.
    proof fn lemma_old_pair(j: Seq<Jump>, n_nodes: int, n_leaves: int, w: Spans, x: int, y: int)
        requires
            inv(j, n_nodes, n_leaves, w),
            0 <= x < j.len(),
            0 <= y < j.len(),
            x != y,
        ensures
            j[x].jump_to_node != j[y].jump_to_node,
            j[x].jump_to_node < j[y].jump_to_node ==> {
                &&& w.ends[x] < j[y].jump_to_node || (j[x].major() < j[y].jump_to_node
                    && w.ends[y] <= w.ends[x])
                &&& j[y].jump_to_node <= w.ends[x] ==> j[y].depth > j[x].depth
                    + j[x].next_major_node_dist
            },
            j[y].jump_to_node == w.ends[x] + 1 ==> j[y].depth <= j[x].depth,
            j[x].major() <= w.ends[x],
            j[y].major() <= w.ends[y],
    {
        reveal(inv_links);
        reveal(inv_nested);
        reveal(inv_depths);
        if j[x].jump_to_node <= j[y].jump_to_node {
            assert(j[x].jump_to_node < j[y].jump_to_node);
        } else {
            assert(j[y].jump_to_node < j[x].jump_to_node);
        }
    }

    /// The subtrees of two records of the new table are nested or apart, and
    /// their depths agree with it.
    proof fn lemma_pair(self, j: Seq<Jump>, n_nodes: int, n_leaves: int, w: Spans, y: int, z: int)
        requires
            inv(j, n_nodes, n_leaves, w),
            self.fits(j, n_nodes, n_leaves, w),
            0 <= y <= j.len(),
            0 <= z <= j.len(),
            y != z,
        ensures
            ({
                let t = self.table(j);
                let ends = self.ends(j, w);
                &&& t[y].jump_to_node <= t[z].jump_to_node ==> {
                    &&& t[y].jump_to_node < t[z].jump_to_node
                    &&& ends[y] < t[z].jump_to_node || (t[y].major() < t[z].jump_to_node
                        && ends[z] <= ends[y])
                }
                &&& t[y].jump_to_node < t[z].jump_to_node <= ends[y] ==> t[z].depth > t[y].depth
                    + t[y].next_major_node_dist
                &&& t[z].jump_to_node == ends[y] + 1 ==> t[z].depth <= t[y].depth
            }),
    {
        let len = j.len() as int;
        self.lemma_cut(j, n_nodes, n_leaves, w);
        self.lemma_place(j, n_nodes, n_leaves, w, y);
        self.lemma_place(j, n_nodes, n_leaves, w, z);
        let x = self.source(y);
        let v = self.source(z);
        if x != v {
            Self::lemma_old_pair(j, n_nodes, n_leaves, w, x, v);
            Self::lemma_old_pair(j, n_nodes, n_leaves, w, v, x);
        } else {
            if y != self.i {
                self.lemma_origin(len, n_leaves, y);
            }
            if z != self.i {
                self.lemma_origin(len, n_leaves, z);
            }
            assert(x == self.i);
        }
    }

    /// The subtrees of the new table are nested or apart.
    proof fn lemma_nested(self, j: Seq<Jump>, n_nodes: int, n_leaves: int, w: Spans)
        requires
            inv(j, n_nodes, n_leaves, w),
            self.fits(j, n_nodes, n_leaves, w),
        ensures
            inv_nested(self.table(j), self.ends(j, w)),
            inv_depths(self.table(j), self.ends(j, w)),
    {
        let t = self.table(j);
        let ends = self.ends(j, w);
        assert forall|x: int, y: int|
            0 <= x < t.len() && 0 <= y < t.len() && x != y && (#[trigger] t[x]).jump_to_node <= (
            #[trigger] t[y]).jump_to_node implies {
            &&& t[x].jump_to_node < t[y].jump_to_node
            &&& ends[x] < t[y].jump_to_node || (t[x].major() < t[y].jump_to_node && ends[y]
                <= ends[x])
        } by {
            self.lemma_pair(j, n_nodes, n_leaves, w, x, y);
        }
        assert forall|x: int, y: int| 0 <= x < t.len() && 0 <= y < t.len() && x != y implies {
            &&& (#[trigger] t[x]).jump_to_node < (#[trigger] t[y]).jump_to_node <= ends[x]
                ==> t[y].depth > t[x].depth + t[x].next_major_node_dist
            &&& t[y].jump_to_node == ends[x] + 1 ==> t[y].depth <= t[x].depth
        } by {
            self.lemma_pair(j, n_nodes, n_leaves, w, x, y);
        }
        reveal(inv_nested);
        reveal(inv_depths);
    }

    /// Parent and child references of the new table agree with each other and
    /// with the node ranges.
    proof fn lemma_links(self, j: Seq<Jump>, n_nodes: int, n_leaves: int, w: Spans)
        requires
            inv(j, n_nodes, n_leaves, w),
            self.fits(j, n_nodes, n_leaves, w),
        ensures
            inv_links(self.table(j), n_nodes, self.ends(j, w)),
    {
        let t = self.table(j);
        let ends = self.ends(j, w);
        self.lemma_links_ends(j, n_nodes, n_leaves, w);
        self.lemma_links_last(j, n_nodes, n_leaves, w);
        assert forall|x: int| 0 <= x < t.len() implies {
            &&& (#[trigger] t[x]).major() <= ends[x] < n_nodes
            &&& match t[x].next_major_node.child() {
                Some(c) => x < c < t.len(),
                None => ends[x] == t[x].major(),
            }
        } by {
            self.lemma_links_single(j, n_nodes, n_leaves, w, x);
        }
        assert forall|x: int, y: int|
            0 <= x < t.len() && 1 <= y < t.len() && (#[trigger] t[y]).parent_jump_index
                == x implies {
            &&& (#[trigger] t[x]).major() < t[y].jump_to_node
            &&& ends[y] <= ends[x]
            &&& t[y].depth == t[x].depth + t[x].next_major_node_dist + 1
            &&& t[x].next_major_node.child().is_some()
            &&& t[x].next_major_node.child().unwrap() <= y
        } by {
            self.lemma_links_parent(j, n_nodes, n_leaves, w, x, y);
        }
        assert forall|x: int, c: int|
            0 <= x < t.len() && 0 <= c < t.len() && (#[trigger] t[x]).next_major_node.child()
                == Some(c) implies {
            &&& (#[trigger] t[c]).parent_jump_index == x
            &&& t[c].jump_to_node == t[x].major() + 1
        } by {
            self.lemma_links_child(j, n_nodes, n_leaves, w, x, c);
        }
        assert forall|y: int, z: int| 1 <= y && z == y + 1 && z < t.len() implies if (
        #[trigger] t[y]).parent_jump_index == (#[trigger] t[z]).parent_jump_index {
            t[z].jump_to_node == ends[y] + 1
        } else {
            ends[y] == ends[t[y].parent_jump_index as int]
        } by {
            self.lemma_links_next(j, n_nodes, n_leaves, w, y, z);
        }
        reveal(inv_links);
    }

    /// Every node lies on the run of the record that the new certificate
    /// names for it.
    proof fn lemma_cover(self, j: Seq<Jump>, n_nodes: int, n_leaves: int, w: Spans)
        requires
            inv(j, n_nodes, n_leaves, w),
            self.fits(j, n_nodes, n_leaves, w),
        ensures
            inv_cover(self.table(j), n_nodes, self.spans(j, n_nodes, n_leaves, w).owner),
    {
        let len = j.len() as int;
        let t = self.table(j);
        let owner = self.spans(j, n_nodes, n_leaves, w).owner;
        self.lemma_cut(j, n_nodes, n_leaves, w);
        assert forall|n: int| 0 <= n < n_nodes implies 0 <= (#[trigger] owner[n]) < t.len()
            && t[owner[n]].covers(n) by {
            let a = w.owner[n];
            assert(0 <= a < len && j[a].covers(n)) by {
                reveal(inv_cover);
            }
            let y = owner[n];
            if a >= self.i {
                self.lemma_region(len, n_leaves, a);
            }
            self.lemma_place(j, n_nodes, n_leaves, w, y);
            if y != self.i {
                self.lemma_origin(len, n_leaves, y);
            }
        }
        reveal(inv_cover);
    }

    /// A record from `i` on whose value has a rank among those of region `g`
    /// lies in region `g`.
    proof fn lemma_region_of_rank(
        self,
        j: Seq<Jump>,
        n_nodes: int,
        n_leaves: int,
        w: Spans,
        x: int,
        g: int,
    )
        requires
            inv(j, n_nodes, n_leaves, w),
            self.fits(j, n_nodes, n_leaves, w),
            0 <= x < j.len(),
            j[x].next_major_node.leaf().is_some(),
            0 <= g < self.regions(),
            self.rb[g] <= j[x].next_major_node.leaf().unwrap() < self.rb[g + 1],
        ensures
            x >= self.i,
            self.reg[x] == g,
    {
        let len = j.len() as int;
        self.lemma_cut(j, n_nodes, n_leaves, w);
        self.lemma_rank(j, n_nodes, n_leaves, w, x);
        self.lemma_steps(len, n_leaves, 0, g);
        if x >= self.i {
            self.lemma_region(len, n_leaves, x);
            let h = self.reg[x];
            if h < g {
                self.lemma_steps(len, n_leaves, h + 1, g);
            }
            if g < h {
                self.lemma_steps(len, n_leaves, g + 1, h);
            }
        }
    }

    /// The ranks rise along the new table.
    proof fn lemma_leaf_order(
        self,
        j: Seq<Jump>,
        n_nodes: int,
        n_leaves: int,
        w: Spans,
        y: int,
        z: int,
    )
        requires
            inv(j, n_nodes, n_leaves, w),
            self.fits(j, n_nodes, n_leaves, w),
            0 <= y < z <= j.len(),
            self.table(j)[y].next_major_node.leaf().is_some(),
            self.table(j)[z].next_major_node.leaf().is_some(),
        ensures
            self.table(j)[y].next_major_node.leaf().unwrap()
                < self.table(j)[z].next_major_node.leaf().unwrap(),
    {
        let len = j.len() as int;
        self.lemma_cut(j, n_nodes, n_leaves, w);
        self.lemma_field(j, n_nodes, n_leaves, w, y);
        self.lemma_field(j, n_nodes, n_leaves, w, z);
        let x = self.origin(y);
        let v = self.origin(z);
        self.lemma_rank(j, n_nodes, n_leaves, w, x);
        self.lemma_rank(j, n_nodes, n_leaves, w, v);
        if v >= self.i {
            self.lemma_region(len, n_leaves, v);
        }
        if x >= self.i {
            self.lemma_region(len, n_leaves, x);
            self.lemma_order(len, n_leaves, x, v);
            self.lemma_order(len, n_leaves, v, x);
            if self.reg[x] < self.reg[v] {
                self.lemma_steps(len, n_leaves, self.reg[x] + 1, self.reg[v]);
            }
        }
        if x < v {
            assert(j[x].next_major_node.leaf().unwrap() < j[v].next_major_node.leaf().unwrap())
                by {
                reveal(inv_leaves);
            }
        }
    }

    /// Every value of the new store is carried by the record that the new
    /// certificate names for it.
    proof fn lemma_leaf_owner(self, j: Seq<Jump>, n_nodes: int, n_leaves: int, w: Spans, r: int)
        requires
            inv(j, n_nodes, n_leaves, w),
            self.fits(j, n_nodes, n_leaves, w),
            0 <= r < n_leaves,
        ensures
            ({
                let lo = self.spans(j, n_nodes, n_leaves, w).leaf_owner;
                let a = self.unranked(w.leaf_owner[r], r);
                &&& 0 <= a < n_leaves
                &&& 0 <= lo[r] <= j.len()
                &&& lo[r] != self.i
                &&& self.origin(lo[r]) == w.leaf_owner[a]
                &&& self.table(j)[lo[r]].next_major_node.leaf() == Some(r)
                &&& self.ranked(w.leaf_owner[a], a) == r
            }),
    {
        let len = j.len() as int;
        let lo = self.spans(j, n_nodes, n_leaves, w).leaf_owner;
        self.lemma_cut(j, n_nodes, n_leaves, w);
        let x0 = w.leaf_owner[r];
        assert(0 <= x0 < len && j[x0].next_major_node.leaf() == Some(r)) by {
            reveal(inv_leaves);
        }
        self.lemma_rank(j, n_nodes, n_leaves, w, x0);
        let a = self.unranked(x0, r);
        if x0 >= self.i {
            self.lemma_region(len, n_leaves, x0);
        }
        assert(0 <= a < n_leaves);
        let x = w.leaf_owner[a];
        assert(0 <= x < len && j[x].next_major_node.leaf() == Some(a)) by {
            reveal(inv_leaves);
        }
        self.lemma_rank(j, n_nodes, n_leaves, w, x);
        if x0 >= self.i {
            self.lemma_region_of_rank(j, n_nodes, n_leaves, w, x, self.reg[x0]);
        } else {
            // A rank has one holder.
            if x != x0 {
                assert(false) by {
                    reveal(inv_leaves);
                }
            }
        }
        if x >= self.i {
            self.lemma_region(len, n_leaves, x);
        }
        let y = self.moved(x);
        assert(lo[r] == y);
        self.lemma_field(j, n_nodes, n_leaves, w, y);
        self.lemma_origin(len, n_leaves, y);
        if x >= self.i {
            self.lemma_order(len, n_leaves, x, self.origin(y));
        }
    }

    /// The ranks of the new table number the new value store.
    proof fn lemma_leaves(self, j: Seq<Jump>, n_nodes: int, n_leaves: int, w: Spans)
        requires
            inv(j, n_nodes, n_leaves, w),
            self.fits(j, n_nodes, n_leaves, w),
        ensures
            inv_leaves(self.table(j), n_leaves, self.spans(j, n_nodes, n_leaves, w).leaf_owner),
    {
        let t = self.table(j);
        let lo = self.spans(j, n_nodes, n_leaves, w).leaf_owner;
        self.lemma_cut(j, n_nodes, n_leaves, w);
        self.lemma_field(j, n_nodes, n_leaves, w, 0);
        assert(t[0].next_major_node_dist == 0 ==> t[0].next_major_node.leaf().is_none()) by {
            reveal(inv_leaves);
            reveal(inv_basic);
            if self.i != 0 {
                assert(self.origin(0) == 0);
                assert(t[0] == self.image(j, 0));
            }
        }
        assert forall|x: int| 0 <= x < t.len() implies match (
        #[trigger] t[x]).next_major_node.leaf() {
            Some(r) => 0 <= r < n_leaves,
            None => true,
        } by {
            self.lemma_field(j, n_nodes, n_leaves, w, x);
            if x != self.i && j[self.origin(x)].next_major_node.leaf().is_some() {
                self.lemma_rank(j, n_nodes, n_leaves, w, self.origin(x));
            }
        }
        assert forall|x: int, y: int|
            0 <= x < y < t.len() && (#[trigger] t[x]).next_major_node.leaf().is_some() && (
            #[trigger] t[y]).next_major_node.leaf().is_some() implies t[x].next_major_node.leaf().unwrap()
            < t[y].next_major_node.leaf().unwrap() by {
            self.lemma_leaf_order(j, n_nodes, n_leaves, w, x, y);
        }
        assert forall|r: int| 0 <= r < n_leaves implies 0 <= (#[trigger] lo[r]) < t.len()
            && t[lo[r]].next_major_node.leaf() == Some(r) by {
            self.lemma_leaf_owner(j, n_nodes, n_leaves, w, r);
        }
        reveal(inv_leaves);
    }

    /// A cut that fits a valid layout gives a valid layout.
    pub proof fn lemma_split(self, j: Seq<Jump>, n_nodes: int, n_leaves: int, w: Spans)
        requires
            inv(j, n_nodes, n_leaves, w),
            self.fits(j, n_nodes, n_leaves, w),
        ensures
            inv(self.table(j), n_nodes, n_leaves, self.spans(j, n_nodes, n_leaves, w)),
    {
        self.lemma_basic(j, n_nodes, n_leaves, w);
        self.lemma_sorted(j, n_nodes, n_leaves, w);
        self.lemma_links(j, n_nodes, n_leaves, w);
        self.lemma_nested(j, n_nodes, n_leaves, w);
        self.lemma_cover(j, n_nodes, n_leaves, w);
        self.lemma_leaves(j, n_nodes, n_leaves, w);
        self.lemma_place(j, n_nodes, n_leaves, w, 0);
    }

    /// The value of rank `v`, carried by the record at old index `x`, stands
    /// at its new rank after the cut.
    proof fn lemma_value<L>(
        self,
        j: Seq<Jump>,
        n_nodes: int,
        leaves: Seq<L>,
        w: Spans,
        x: int,
    )
        requires
            inv(j, n_nodes, leaves.len() as int, w),
            self.fits(j, n_nodes, leaves.len() as int, w),
            0 <= x < j.len(),
            j[x].next_major_node.leaf().is_some(),
        ensures
            ({
                let v = j[x].next_major_node.leaf().unwrap();
                &&& 0 <= v < leaves.len()
                &&& 0 <= self.ranked(x, v) < leaves.len()
                &&& self.leaves(leaves, w)[self.ranked(x, v)] == leaves[v]
            }),
    {
        let nl = leaves.len() as int;
        let len = j.len() as int;
        let v = j[x].next_major_node.leaf().unwrap();
        self.lemma_cut(j, n_nodes, nl, w);
        self.lemma_rank(j, n_nodes, nl, w, x);
        let r = self.ranked(x, v);
        self.lemma_leaf_owner(j, n_nodes, nl, w, r);
        let a = self.unranked(w.leaf_owner[r], r);
        let u = w.leaf_owner[a];
        assert(0 <= u < len && j[u].next_major_node.leaf() == Some(a)) by {
            reveal(inv_leaves);
        }
        // The record that came from `u` and the one that came from `x` hold
        // the same rank, so they are one record.
        let y = self.moved(x);
        let z = self.moved(u);
        if x >= self.i {
            self.lemma_region(len, nl, x);
        }
        if u >= self.i {
            self.lemma_region(len, nl, u);
        }
        self.lemma_field(j, n_nodes, nl, w, y);
        self.lemma_field(j, n_nodes, nl, w, z);
        self.lemma_origin(len, nl, y);
        self.lemma_origin(len, nl, z);
        if x >= self.i {
            self.lemma_order(len, nl, x, self.origin(y));
        }
        if u >= self.i {
            self.lemma_order(len, nl, u, self.origin(z));
        }
        assert(self.origin(y) == x);
        assert(self.origin(z) == u);
        if y < z {
            self.lemma_leaf_order(j, n_nodes, nl, w, y, z);
        }
        if z < y {
            self.lemma_leaf_order(j, n_nodes, nl, w, z, y);
        }
        assert(y == z);
        assert(a == v);
    }

    /// One entry of the listing after the cut.
    proof fn lemma_listing_at<N, L>(
        self,
        nodes: Seq<N>,
        j: Seq<Jump>,
        leaves: Seq<L>,
        w: Spans,
        n: int,
    )
        requires
            inv(j, nodes.len() as int, leaves.len() as int, w),
            self.fits(j, nodes.len() as int, leaves.len() as int, w),
            inv(
                self.table(j),
                nodes.len() as int,
                leaves.len() as int,
                self.spans(j, nodes.len() as int, leaves.len() as int, w),
            ),
            0 <= n < nodes.len(),
        ensures
            listing(nodes, self.table(j), self.leaves(leaves, w))[n] == listing(nodes, j, leaves)[n],
    {
        let nn = nodes.len() as int;
        let nl = leaves.len() as int;
        let len = j.len() as int;
        let t = self.table(j);
        let w1 = self.spans(j, nn, nl, w);
        self.lemma_cut(j, nn, nl, w);
        let a = w.owner[n];
        assert(0 <= a < len && j[a].covers(n)) by {
            reveal(inv_cover);
        }
        let y = w1.owner[n];
        assert(0 <= y < t.len() && t[y].covers(n)) by {
            reveal(inv_cover);
        }
        lemma_owner(j, nn, nl, w, a, n);
        lemma_owner(t, nn, nl, w1, y, n);
        if a >= self.i {
            self.lemma_region(len, nl, a);
        }
        self.lemma_place(j, nn, nl, w, y);
        self.lemma_field(j, nn, nl, w, y);
        if y != self.i {
            self.lemma_origin(len, nl, y);
            if a >= self.i {
                self.lemma_order(len, nl, a, self.origin(y));
            }
            assert(self.origin(y) == a);
            if j[a].next_major_node.leaf().is_some() {
                self.lemma_value(j, nn, leaves, w, a);
            }
        }
        assert(depth_of(t, n) == depth_of(j, n));
    }

    /// The cut leaves the listing as it was.
    pub proof fn lemma_listing<N, L>(self, nodes: Seq<N>, j: Seq<Jump>, leaves: Seq<L>, w: Spans)
        requires
            inv(j, nodes.len() as int, leaves.len() as int, w),
            self.fits(j, nodes.len() as int, leaves.len() as int, w),
        ensures
            listing(nodes, self.table(j), self.leaves(leaves, w)) == listing(nodes, j, leaves),
    {
        let nn = nodes.len() as int;
        let nl = leaves.len() as int;
        self.lemma_split(j, nn, nl, w);
        let s0 = listing(nodes, j, leaves);
        let s1 = listing(nodes, self.table(j), self.leaves(leaves, w));
        assert forall|n: int| 0 <= n < s1.len() implies s1[n] == s0[n] by {
            self.lemma_listing_at(nodes, j, leaves, w, n);
        }
        assert(s1 =~= s0);
    }

    /// Where a region lies.
    pub proof fn lemma_bounds(self, len: int, n_leaves: int, g: int)
        requires
            self.framed(len, n_leaves),
            0 <= g < self.regions(),
        ensures
            self.i <= self.b[g] < self.b[g + 1] <= len,
            self.b[g] <= self.m[g] <= self.b[g + 1],
            0 <= self.rb[g] <= self.rm[g] <= self.rb[g + 1] <= n_leaves,
    {
        self.lemma_steps(len, n_leaves, 0, g);
        reveal(Split::framed);
        assert(self.region_ok(len, n_leaves, g));
        assert(self.region_ok(len, n_leaves, g + 1));
    }

    /// An index between two region starts lies in the region between them.
    pub proof fn lemma_in_region(self, len: int, n_leaves: int, g: int, x: int)
        requires
            self.framed(len, n_leaves),
            0 <= g < self.regions(),
            self.b[g] <= x < self.b[g + 1],
        ensures
            self.i <= x < len,
            self.reg[x] == g,
            self.b[g] <= self.m[g] <= self.b[g + 1] <= len,
    {
        self.lemma_steps(len, n_leaves, 0, g);
        self.lemma_steps(len, n_leaves, g + 1, self.regions());
        assert(self.b[0] == self.i && self.b[self.regions()] == len) by {
            reveal(Split::framed);
        }
        self.lemma_region(len, n_leaves, x);
        let h = self.reg[x];
        if h < g {
            self.lemma_steps(len, n_leaves, h + 1, g);
        }
        if g < h {
            self.lemma_steps(len, n_leaves, g + 1, h);
        }
    }

    /// The records before `i` stay as they are.
    pub proof fn lemma_prefix(self, j: Seq<Jump>, n_nodes: int, n_leaves: int, w: Spans, x: int)
        requires
            inv(j, n_nodes, n_leaves, w),
            self.fits(j, n_nodes, n_leaves, w),
            0 <= x < self.i,
        ensures
            self.table(j)[x] == j[x],
    {
        let len = j.len() as int;
        self.lemma_cut(j, n_nodes, n_leaves, w);
        self.lemma_field(j, n_nodes, n_leaves, w, x);
        crate::layout::lemma_bounded(j, n_nodes, n_leaves, w, x);
        assert(self.origin(x) == x);
        assert(self.table(j)[x] == self.image(j, x));
        assert(j[0].parent_jump_index == -1) by {
            reveal(inv_basic);
        }
        if x >= 1 {
            self.lemma_parent(j, n_nodes, n_leaves, w, x);
        }
        match j[x].next_major_node.child() {
            Some(c) => {
                assert(x < c < len && j[c].parent_jump_index == x) by {
                    reveal(inv_links);
                }
                self.lemma_parent(j, n_nodes, n_leaves, w, c);
                if c >= self.i {
                    self.lemma_region(len, n_leaves, c);
                }
            },
            None => {},
        }
        if j[x].next_major_node.leaf().is_some() {
            self.lemma_rank(j, n_nodes, n_leaves, w, x);
        }
    }

    /// Where the value that gets rank `r` stood before, told by the ranks of
    /// the regions alone.
    pub open spec fn source_rank(self, g: int, r: int) -> int {
        let o = r - self.rb[g];
        let gap = self.rb[g + 1] - self.rm[g];
        if o < gap {
            self.rm[g] + o
        } else {
            self.rb[g] + o - gap
        }
    }

    /// The values below the ranks of the first region keep their ranks; the
    /// regions hold all the other values.
    pub proof fn lemma_leaves_low<L>(
        self,
        j: Seq<Jump>,
        n_nodes: int,
        leaves: Seq<L>,
        w: Spans,
        r: int,
    )
        requires
            inv(j, n_nodes, leaves.len() as int, w),
            self.fits(j, n_nodes, leaves.len() as int, w),
            0 <= r < leaves.len(),
        ensures
            r < self.rb[self.regions()],
            r < self.rb[0] ==> self.leaves(leaves, w)[r] == leaves[r],
    {
        let nl = leaves.len() as int;
        let len = j.len() as int;
        self.lemma_cut(j, n_nodes, nl, w);
        let x0 = w.leaf_owner[r];
        assert(0 <= x0 < len && j[x0].next_major_node.leaf() == Some(r)) by {
            reveal(inv_leaves);
        }
        self.lemma_rank(j, n_nodes, nl, w, x0);
        self.lemma_steps(len, nl, 0, self.regions());
        if x0 >= self.i {
            self.lemma_region(len, nl, x0);
            self.lemma_steps(len, nl, self.reg[x0] + 1, self.regions());
        }
    }

    /// The values of a region change places by its two parts.
    pub proof fn lemma_leaves_in<L>(
        self,
        j: Seq<Jump>,
        n_nodes: int,
        leaves: Seq<L>,
        w: Spans,
        g: int,
        r: int,
    )
        requires
            inv(j, n_nodes, leaves.len() as int, w),
            self.fits(j, n_nodes, leaves.len() as int, w),
            0 <= g < self.regions(),
            self.rb[g] <= r < self.rb[g + 1],
        ensures
            0 <= r < leaves.len(),
            self.rb[g] <= self.source_rank(g, r) < self.rb[g + 1],
            self.leaves(leaves, w)[r] == leaves[self.source_rank(g, r)],
    {
        let nl = leaves.len() as int;
        let len = j.len() as int;
        self.lemma_cut(j, n_nodes, nl, w);
        self.lemma_bounds(len, nl, g);
        let x0 = w.leaf_owner[r];
        assert(0 <= x0 < len && j[x0].next_major_node.leaf() == Some(r)) by {
            reveal(inv_leaves);
        }
        self.lemma_region_of_rank(j, n_nodes, nl, w, x0, g);
    }
}

} // verus!
