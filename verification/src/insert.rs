//! Insertion of a chain of new nodes below a cursor.

use vstd::prelude::*;
use vstd::std_specs::cmp::PartialEqSpec;
use crate::cut::{lemma_first_above, lemma_rank_above, parts, parts_ranks};
use crate::grow::Growth;
use crate::jump::{Jump, MajorNode, RawCursor};
use crate::layout::{bounded, inv_basic, inv_leaves, inv_links, lemma_bounded, lemma_counts};
use crate::model::{inserted, is_child, subtree_end};
use crate::raw::RawTrie;

verus! {

/// A major node with its references renumbered for a growth.
fn shift_major(
    m: MajorNode,
    s: usize,
    branch: bool,
    rank: usize,
    valued: bool,
    Ghost(g): Ghost<Growth>,
) -> (r: MajorNode)
    requires
        g.s == s,
        g.branch == branch,
        g.valued == valued,
        valued ==> g.rank == rank,
        match m.child() {
            Some(c) => c < usize::MAX,
            None => true,
        },
        match m.leaf() {
            Some(v) => v < usize::MAX,
            None => true,
        },
    ensures
        r == g.shifted_major(m),
{
    match m {
        MajorNode::LeafJump { leaf_index, child_jump_index } => MajorNode::LeafJump {
            leaf_index: if valued && leaf_index >= rank {
                leaf_index + 1
            } else {
                leaf_index
            },
            child_jump_index: if branch && child_jump_index >= s {
                child_jump_index + 1
            } else {
                child_jump_index
            },
        },
        MajorNode::Leaf { leaf_index: Some(v) } => MajorNode::Leaf {
            leaf_index: Some(
                if valued && v >= rank {
                    v + 1
                } else {
                    v
                },
            ),
        },
        MajorNode::Leaf { leaf_index: None } => m,
        MajorNode::Jump { child_jump_index } => MajorNode::Jump {
            child_jump_index: if branch && child_jump_index >= s {
                child_jump_index + 1
            } else {
                child_jump_index
            },
        },
    }
}

/// A record with its references renumbered for a growth.
fn shift_jump(
    rec: Jump,
    e: isize,
    n: usize,
    s: usize,
    branch: bool,
    rank: usize,
    valued: bool,
    Ghost(g): Ghost<Growth>,
    Ghost(len): Ghost<int>,
    Ghost(n_nodes): Ghost<int>,
    Ghost(n_leaves): Ghost<int>,
) -> (r: Jump)
    requires
        g.e == e,
        g.n == n,
        g.s == s,
        g.branch == branch,
        g.valued == valued,
        valued ==> g.rank == rank,
        bounded(rec, len, n_nodes, n_leaves),
        len + 1 < isize::MAX,
        n_nodes + n < isize::MAX,
        n_leaves < usize::MAX,
        -1 <= e < n_nodes,
        s <= len,
    ensures
        r == g.shifted(rec),
{
    Jump {
        parent_jump_index: if branch && rec.parent_jump_index >= s as isize {
            rec.parent_jump_index + 1
        } else {
            rec.parent_jump_index
        },
        jump_to_node: if rec.jump_to_node > e {
            rec.jump_to_node + n as isize
        } else {
            rec.jump_to_node
        },
        next_major_node_dist: rec.next_major_node_dist,
        next_major_node: shift_major(rec.next_major_node, s, branch, rank, valued, Ghost(g)),
        depth: rec.depth,
    }
}

/// The record that takes the new nodes in, from its renumbered form.
fn host_jump(
    rec: Jump,
    n: usize,
    s: usize,
    branch: bool,
    rank: usize,
    valued: bool,
    Ghost(g): Ghost<Growth>,
    Ghost(old): Ghost<Jump>,
) -> (r: Jump)
    requires
        g.n == n,
        g.s == s,
        g.branch == branch,
        g.valued == valued,
        valued ==> g.rank == rank,
        rec == g.shifted(old),
        old.next_major_node_dist + n < isize::MAX,
    ensures
        r == g.host(old),
{
    if branch {
        Jump {
            next_major_node: match rec.next_major_node {
                MajorNode::Leaf { leaf_index: Some(v) } => MajorNode::LeafJump {
                    leaf_index: v,
                    child_jump_index: s,
                },
                MajorNode::Leaf { leaf_index: None } => MajorNode::Jump { child_jump_index: s },
                _ => rec.next_major_node,
            },
            ..rec
        }
    } else {
        Jump {
            next_major_node_dist: rec.next_major_node_dist + n,
            next_major_node: MajorNode::Leaf {
                leaf_index: if valued {
                    Some(rank)
                } else {
                    None
                },
            },
            ..rec
        }
    }
}

impl<N, L> RawTrie<N, L> {
    /// The rank of the first value carried at index `cut` or later; the size
    /// of the value store if there is none.
    pub(crate) fn rank_from(&self, cut: usize) -> (r: usize)
        requires
            self.wf(),
            cut <= self.jumps@.len(),
        ensures
            r <= self.leaves@.len(),
            forall|x: int|
                0 <= x < self.jumps@.len() && (
                #[trigger] self.jumps@[x]).next_major_node.leaf().is_some() ==> (x < cut
                    <==> self.jumps@[x].next_major_node.leaf().unwrap() < r),
    {
        let ghost w = self.spans();
        let mut y: usize = cut;
        while y < self.jumps.len()
            invariant
                self.inv(w),
                cut <= y <= self.jumps@.len(),
                forall|x: int|
                    cut <= x < y ==> (#[trigger] self.jumps@[x]).next_major_node.leaf().is_none(),
            decreases self.jumps@.len() - y,
        {
            match self.jumps[y].next_major_node.leaf_index() {
                Some(v) => {
                    proof {
                        reveal(inv_leaves);
                    }
                    return v;
                },
                None => {},
            }
            y += 1;
        }
        proof {
            reveal(inv_leaves);
        }
        self.leaves.len()
    }

    /// Rewrites the three arrays as growth `g` says.
    fn apply_growth(
        &mut self,
        i: usize,
        e: isize,
        s: usize,
        branch: bool,
        rank: usize,
        keys: Vec<N>,
        leaf: Option<L>,
        Ghost(g): Ghost<Growth>,
    )
        requires
            g == (Growth {
                i: i as int,
                e: e as int,
                n: keys@.len() as int,
                s: s as int,
                branch,
                rank: rank as int,
                valued: leaf.is_some(),
            }),
            forall|k: int|
                0 <= k < old(self).jumps@.len() ==> bounded(
                    #[trigger] old(self).jumps@[k],
                    old(self).jumps@.len() as int,
                    old(self).nodes@.len() as int,
                    old(self).leaves@.len() as int,
                ),
            i < old(self).jumps@.len(),
            s <= old(self).jumps@.len(),
            -1 <= e < old(self).nodes@.len(),
            rank <= old(self).leaves@.len(),
            1 <= keys@.len(),
            old(self).nodes@.len() + keys@.len() < isize::MAX,
            old(self).jumps@.len() + 1 < isize::MAX,
            old(self).leaves@.len() < usize::MAX,
        ensures
            final(self).jumps@ == g.table(old(self).jumps@),
            final(self).nodes@ == g.nodes(old(self).nodes@, keys@),
            final(self).leaves@ == g.leaves(old(self).leaves@, leaf),
    {
        let ghost j0 = self.jumps@;
        let ghost nodes0 = self.nodes@;
        let ghost leaves0 = self.leaves@;
        let ghost nn = nodes0.len() as int;
        let ghost nl = leaves0.len() as int;
        let n: usize = keys.len();
        let len: usize = self.jumps.len();
        let valued: bool = leaf.is_some();
        let host = self.jumps[i];
        let mut x: usize = 0;
        while x < len
            invariant
                x <= len,
                i < len,
                s <= len,
                len == j0.len(),
                self.jumps@.len() == len,
                self.nodes@ == nodes0,
                self.leaves@ == leaves0,
                nn == nodes0.len(),
                nl == leaves0.len(),
                -1 <= e < nn,
                nn + n < isize::MAX,
                len + 1 < isize::MAX,
                nl < usize::MAX,
                forall|k: int| 0 <= k < len ==> bounded(#[trigger] j0[k], len as int, nn, nl),
                g == (Growth {
                    i: i as int,
                    e: e as int,
                    n: n as int,
                    s: s as int,
                    branch,
                    rank: rank as int,
                    valued,
                }),
                forall|k: int| 0 <= k < x ==> self.jumps@[k] == g.updated(j0)[k],
                forall|k: int| x <= k < len ==> self.jumps@[k] == j0[k],
            decreases len - x,
        {
            let rec = self.jumps[x];
            assert(bounded(j0[x as int], len as int, nn, nl));
            let moved = shift_jump(
                rec,
                e,
                n,
                s,
                branch,
                rank,
                valued,
                Ghost(g),
                Ghost(len as int),
                Ghost(nn),
                Ghost(nl),
            );
            let next = if x == i {
                host_jump(moved, n, s, branch, rank, valued, Ghost(g), Ghost(rec))
            } else {
                moved
            };
            self.jumps.set(x, next);
            x += 1;
        }
        assert(self.jumps@ =~= g.updated(j0));
        if branch {
            assert(bounded(j0[i as int], len as int, nn, nl));
            let fresh = Jump {
                parent_jump_index: i as isize,
                jump_to_node: e + 1,
                next_major_node_dist: n - 1,
                next_major_node: MajorNode::Leaf {
                    leaf_index: if valued {
                        Some(rank)
                    } else {
                        None
                    },
                },
                depth: host.depth + host.next_major_node_dist as isize + 1,
            };
            self.jumps.insert(s, fresh);
        }
        let mut keys = keys;
        let mut tail = self.nodes.split_off((e + 1) as usize);
        self.nodes.append(&mut keys);
        self.nodes.append(&mut tail);
        match leaf {
            Some(v) => {
                self.leaves.insert(rank, v);
            },
            None => {},
        }
    }

    /// Makes `keys` the last child chain of the major node of record `i`,
    /// whose subtree ends at node `e`, with `leaf` on the last key.
    pub(crate) fn grow(&mut self, i: usize, e: isize, keys: Vec<N>, leaf: Option<L>) -> (r: RawCursor)
        requires
            old(self).wf(),
            i < old(self).jumps@.len(),
            e == old(self).spans().ends[i as int],
            1 <= keys@.len(),
            old(self).nodes@.len() + keys@.len() < isize::MAX,
            old(self).jumps@.len() + 1 < isize::MAX,
            old(self).leaves@.len() < usize::MAX,
        ensures
            final(self).wf(),
            final(self)@ == inserted(
                old(self)@,
                old(self).jumps@[i as int].major(),
                keys@,
                leaf,
            ),
            final(self).valid_cursor(r),
            final(self).at_major(r),
            r.node_index == e + keys@.len(),
            final(self).jumps@ == Growth::at(
                old(self).jumps@,
                old(self).leaves@.len() as int,
                i as int,
                e as int,
                keys@.len() as int,
                leaf.is_some(),
            ).table(old(self).jumps@),
            final(self).nodes@ == Growth::at(
                old(self).jumps@,
                old(self).leaves@.len() as int,
                i as int,
                e as int,
                keys@.len() as int,
                leaf.is_some(),
            ).nodes(old(self).nodes@, keys@),
            final(self).leaves@ == Growth::at(
                old(self).jumps@,
                old(self).leaves@.len() as int,
                i as int,
                e as int,
                keys@.len() as int,
                leaf.is_some(),
            ).leaves(old(self).leaves@, leaf),
            r.depth == old(self).jumps@[i as int].depth + old(
                self,
            ).jumps@[i as int].next_major_node_dist + keys@.len(),
            i < final(self).jumps@.len(),
            final(self).jumps@.len() == old(self).jumps@.len() + if old(
                self,
            ).jumps@[i as int].next_major_node == (MajorNode::Leaf { leaf_index: None }) {
                0int
            } else {
                1int
            },
            final(self).leaves@.len() == old(self).leaves@.len() + if leaf.is_some() {
                1int
            } else {
                0int
            },
            final(self).jumps@[i as int].jump_to_node == old(self).jumps@[i as int].jump_to_node,
            final(self).jumps@[i as int].depth == old(self).jumps@[i as int].depth,
            final(self).jumps@[i as int].major() >= old(self).jumps@[i as int].major(),
            old(self).jumps@[i as int].next_major_node != (MajorNode::Leaf { leaf_index: None })
                ==> final(self).jumps@[i as int].major() == old(self).jumps@[i as int].major(),
    {
        let ghost w = self.spans();
        let ghost j0 = self.jumps@;
        let ghost nodes0 = self.nodes@;
        let ghost leaves0 = self.leaves@;
        let ghost nn = nodes0.len() as int;
        let ghost nl = leaves0.len() as int;
        let n: usize = keys.len();
        let len: usize = self.jumps.len();
        let host = self.jumps[i];
        proof {
            lemma_bounded(j0, nn, nl, w, i as int);
            assert(host.major() <= e < nn) by {
                reveal(inv_links);
            }
        }
        let branch: bool = match host.next_major_node {
            MajorNode::Leaf { leaf_index: None } => false,
            _ => true,
        };
        let s: usize = if branch {
            self.lower(i + 1)
        } else {
            len
        };
        let valued: bool = leaf.is_some();
        let cut: usize = if branch {
            s
        } else {
            i + 1
        };
        assert(branch ==> i < s) by {
            reveal(inv_basic);
            if branch && s <= i {
                assert(j0[s as int].parent_jump_index >= i + 1);
            }
        }
        let rank: usize = if valued {
            self.rank_from(cut)
        } else {
            0
        };
        proof {
            if branch {
                assert(parts(j0, i + 1, s as int)) by {
                    reveal(parts);
                }
                lemma_first_above(j0, i + 1, s as int);
            }
            if valued {
                assert(parts_ranks(j0, nl, cut as int, rank as int)) by {
                    reveal(parts_ranks);
                }
                lemma_rank_above(j0, nn, nl, w, cut as int, rank as int);
            }
        }
        let ghost g = Growth {
            i: i as int,
            e: e as int,
            n: n as int,
            s: s as int,
            branch,
            rank: rank as int,
            valued,
        };
        assert(g.fits(j0, nn, nl, w));
        assert(g == Growth::at(j0, nl, i as int, e as int, n as int, valued));
        assert forall|k: int| 0 <= k < j0.len() implies bounded(
            #[trigger] j0[k],
            j0.len() as int,
            nn,
            nl,
        ) by {
            lemma_bounded(j0, nn, nl, w, k);
        }
        self.apply_growth(i, e, s, branch, rank, keys, leaf, Ghost(g));
        proof {
            g.lemma_grow(j0, nn, nl, w);
            g.lemma_listing(nodes0, j0, leaves0, w, keys@, leaf);
            g.lemma_fields(j0, nn, nl, w);
            assert(self.inv(g.spans(j0, nn, nl, w)));
            assert(g.origin(i as int) == i);
            assert(g.carried(j0, i as int, g.table(j0)[i as int]));
        }
        RawCursor {
            node_index: e + n as isize,
            parent_jump_index: if branch {
                s
            } else {
                i
            },
            depth: host.depth + host.next_major_node_dist as isize + n as isize,
        }
    }

}

impl<N: PartialEq, L> RawTrie<N, L> {
    /// The number of records that a new child of the node under `cursor`
    /// adds to the jump table: none where the node ends its run without a
    /// value and without children, so that the run is extended; one, for
    /// the new branch, where the node ends its run otherwise; two where the
    /// node stands inside a run, which is cut behind it.
    pub open spec fn new_records(&self, cursor: RawCursor) -> int {
        if !self.at_major(cursor) {
            2
        } else if self.jumps@[cursor.parent_jump_index as int].next_major_node == (
        MajorNode::Leaf { leaf_index: None }) {
            0
        } else {
            1
        }
    }

    /// The jump table as it stands before the new nodes come in: cut behind
    /// the cursor where the cursor stands inside a run.
    pub open spec fn jumps_before_growth(&self, cursor: RawCursor) -> Seq<Jump> {
        if self.at_major(cursor) {
            self.jumps@
        } else {
            self.cut(cursor).table(self.jumps@)
        }
    }

    /// The value store as it stands before the new value comes in: put in
    /// the order of the cut table where the cursor stands inside a run.
    pub open spec fn leaves_before_growth(&self, cursor: RawCursor) -> Seq<L> {
        if self.at_major(cursor) {
            self.leaves@
        } else {
            self.cut(cursor).leaves(self.leaves@, self.spans())
        }
    }

    /// The growth of the trie by `n` nodes below the node under `cursor`.
    pub open spec fn growth(&self, cursor: RawCursor, n: int, valued: bool) -> Growth {
        Growth::at(
            self.jumps_before_growth(cursor),
            self.leaves@.len() as int,
            cursor.parent_jump_index as int,
            subtree_end(self@, cursor.node_index as int),
            n,
            valued,
        )
    }

    /// Makes `nodes` the last child chain of the node under `cursor`: the
    /// first key a new last child of that node, each next key the only child
    /// of the one before, and `leaf_opt` the value of the last key. Returns
    /// the cursor on the last key.
    ///
    /// With no keys nothing changes and `cursor` is returned.
    pub fn insert_nodes_after(
        &mut self,
        cursor: RawCursor,
        nodes: Vec<N>,
        leaf_opt: Option<L>,
    ) -> (r: RawCursor)
        requires
            old(self).wf(),
            old(self).valid_cursor(cursor),
            old(self).nodes@.len() + nodes@.len() + 2 < isize::MAX,
            nodes@.len() > 0 ==> forall|c: int|
                is_child(old(self)@, cursor.node_index as int, c) ==> !(#[trigger] old(
                    self,
                )@[c]).key.eq_spec(&nodes@[0]),
        ensures
            final(self).wf(),
            final(self).integrity(),
            nodes@.len() == 0 ==> {
                &&& r == cursor
                &&& final(self)@ == old(self)@
                &&& final(self).nodes@ == old(self).nodes@
                &&& final(self).jumps@ == old(self).jumps@
                &&& final(self).leaves@ == old(self).leaves@
            },
            nodes@.len() > 0 ==> {
                &&& final(self)@ == inserted(
                    old(self)@,
                    cursor.node_index as int,
                    nodes@,
                    leaf_opt,
                )
                &&& final(self).valid_cursor(r)
                &&& final(self).at_major(r)
                &&& r.node_index == subtree_end(old(self)@, cursor.node_index as int)
                    + nodes@.len()
                &&& r.depth == cursor.depth + nodes@.len()
                &&& final(self).valid_cursor(cursor)
                &&& final(self).jumps@ == old(self).growth(
                    cursor,
                    nodes@.len() as int,
                    leaf_opt.is_some(),
                ).table(old(self).jumps_before_growth(cursor))
                &&& final(self).nodes@ == old(self).growth(
                    cursor,
                    nodes@.len() as int,
                    leaf_opt.is_some(),
                ).nodes(old(self).nodes@, nodes@)
                &&& final(self).leaves@ == old(self).growth(
                    cursor,
                    nodes@.len() as int,
                    leaf_opt.is_some(),
                ).leaves(old(self).leaves_before_growth(cursor), leaf_opt)
                &&& final(self).jumps@.len() == old(self).jumps@.len() + old(self).new_records(
                    cursor,
                )
                &&& final(self).leaves@.len() == old(self).leaves@.len() + if leaf_opt.is_some() {
                    1int
                } else {
                    0int
                }
            },
    {
        if nodes.len() == 0 {
            proof {
                self.lemma_integrity();
            }
            return cursor;
        }
        let ghost w = self.spans();
        let i: usize = cursor.parent_jump_index;
        let last = self.last_child_node(cursor);
        let e: isize = last.node_index;
        proof {
            lemma_counts(
                self.jumps@,
                self.nodes@.len() as int,
                self.leaves@.len() as int,
                w,
            );
            self.lemma_cursor(w, cursor);
        }
        proof {
            lemma_bounded(
                self.jumps@,
                self.nodes@.len() as int,
                self.leaves@.len() as int,
                w,
                i as int,
            );
        }
        let at_major: bool = self.jumps[i].cursor_at_next_major_node(cursor);
        if !at_major {
            self.split_run(cursor);
        }
        proof {
            let w1 = self.spans();
            self.lemma_cursor(w1, cursor);
        }
        let r = self.grow(i, e, nodes, leaf_opt);
        proof {
            self.lemma_integrity();
        }
        r
    }
}

} // verus!
