//! Laws of the trie: what holds of every tree and every cursor.

use vstd::prelude::*;
use crate::jump::RawCursor;
use crate::layout::{inv_basic, inv_cover, inv_leaves, inv_links, lemma_bounded, lemma_deeper, lemma_owner, lemma_position};
use crate::model::{chain, depth_at, inserted, is_child, is_parent, is_subtree_end, lemma_subtree_end_unique, pruned, subtree_end, within, Entry};
use crate::nav::block_end;
use crate::raw::RawTrie;

verus! {

/// Every position has a subtree, which ends somewhere.
pub proof fn lemma_subtree_end_exists<N, L>(s: Seq<Entry<N, L>>, pos: int, e: int)
    requires
        within(s, pos, e),
    ensures
        is_subtree_end(s, pos, subtree_end(s, pos)),
        e <= subtree_end(s, pos),
    decreases s.len() - e,
{
    if e + 1 < s.len() && s[e + 1].depth > depth_at(s, pos) {
        assert forall|m: int| pos < m <= e + 1 implies (#[trigger] s[m]).depth > depth_at(
            s,
            pos,
        ) by {}
        lemma_subtree_end_exists(s, pos, e + 1);
    } else {
        assert(is_subtree_end(s, pos, e));
        lemma_subtree_end_unique(s, pos, e);
    }
}

/// What a listing looks like after a chain was put in below `pos`: the
/// chain stands behind the old subtree of `pos`, it is the subtree of its
/// first node, and the subtree of `pos` ends with it.
pub proof fn lemma_inserted<N, L>(s: Seq<Entry<N, L>>, pos: int, keys: Seq<N>, value: Option<L>)
    requires
        -1 <= pos < s.len(),
        keys.len() >= 1,
    ensures
        ({
            let e = subtree_end(s, pos);
            let t = inserted(s, pos, keys, value);
            &&& pos <= e < s.len()
            &&& t.len() == s.len() + keys.len()
            &&& forall|m: int| 0 <= m <= e ==> #[trigger] t[m] == s[m]
            &&& forall|m: int| e < m < s.len() ==> #[trigger] t[m + keys.len()] == s[m]
            &&& forall|k: int|
                0 <= k < keys.len() ==> (#[trigger] t[e + 1 + k]).key == keys[k] && t[e + 1
                    + k].depth == depth_at(s, pos) + 1 + k
            &&& t[e + keys.len()].value == value
            &&& is_subtree_end(t, pos, e + keys.len())
            &&& is_subtree_end(t, e + 1, e + keys.len())
            &&& is_child(t, pos, e + 1)
        }),
{
    assert(within(s, pos, pos));
    lemma_subtree_end_exists(s, pos, pos);
    let e = subtree_end(s, pos);
    let n = keys.len() as int;
    let t = inserted(s, pos, keys, value);
    let d = depth_at(s, pos);
    let c = chain(keys, d + 1, value);
    assert(t.len() == s.len() + n);
    assert forall|m: int| 0 <= m <= e implies #[trigger] t[m] == s[m] by {}
    assert forall|m: int| e < m < s.len() implies #[trigger] t[m + n] == s[m] by {}
    assert forall|k: int| 0 <= k < n implies (#[trigger] t[e + 1 + k]) == c[k] by {}
    assert(t[e + n] == c[n - 1]);
    assert(depth_at(t, pos) == d);
    assert forall|m: int| pos < m <= e + n implies (#[trigger] t[m]).depth > depth_at(t, pos) by {
        if m <= e {
            assert(t[m] == s[m]);
        } else {
            assert(t[e + 1 + (m - e - 1)] == c[m - e - 1]);
        }
    }
    if e + n + 1 < t.len() {
        assert(t[(e + 1) + n] == s[e + 1]);
    }
    assert(is_subtree_end(t, pos, e + n));
    assert(t[e + 1 + 0] == c[0]);
    assert forall|m: int| e + 1 < m <= e + n implies (#[trigger] t[m]).depth > depth_at(
        t,
        e + 1,
    ) by {
        assert(t[e + 1 + (m - e - 1)] == c[m - e - 1]);
    }
    assert(is_subtree_end(t, e + 1, e + n));
    lemma_subtree_end_unique(t, pos, e + n);
    lemma_subtree_end_unique(t, e + 1, e + n);
}

/// Putting a chain in below a node and cutting it out again gives the
/// listing as it was.
pub proof fn law_prune_inserted<N, L>(
    s: Seq<Entry<N, L>>,
    pos: int,
    keys: Seq<N>,
    value: Option<L>,
)
    requires
        -1 <= pos < s.len(),
        keys.len() >= 1,
    ensures
        pruned(inserted(s, pos, keys, value), subtree_end(s, pos) + 1) == s,
{
    lemma_inserted(s, pos, keys, value);
    let e = subtree_end(s, pos);
    let t = inserted(s, pos, keys, value);
    let back = pruned(t, e + 1);
    assert(subtree_end(t, e + 1) == e + keys.len());
    assert(back.len() == s.len());
    assert forall|m: int| 0 <= m < s.len() implies back[m] == s[m] by {
        if m <= e {
            assert(t[m] == s[m]);
        } else {
            assert(t[m + keys.len()] == s[m]);
        }
    }
    assert(back =~= s);
}

/// After a chain was put in below `pos`, the children of `pos` are the
/// children it had, followed by the first node of the chain.
pub proof fn law_inserted_child<N, L>(
    s: Seq<Entry<N, L>>,
    pos: int,
    keys: Seq<N>,
    value: Option<L>,
    c: int,
)
    requires
        -1 <= pos < s.len(),
        keys.len() >= 1,
    ensures
        is_child(inserted(s, pos, keys, value), pos, c) <==> is_child(s, pos, c) || c
            == subtree_end(s, pos) + 1,
{
    lemma_inserted(s, pos, keys, value);
    let e = subtree_end(s, pos);
    let n = keys.len() as int;
    let t = inserted(s, pos, keys, value);
    assert(subtree_end(t, pos) == e + n);
    if pos < c <= e {
        assert(t[c] == s[c]);
    }
    if e + 1 < c <= e + n {
        assert(t[e + 1 + (c - e - 1)].depth == depth_at(s, pos) + 1 + (c - e - 1));
    }
}

impl<N, L> RawTrie<N, L> {
    /// The subtrees of the children of a node, in the order of its
    /// children, fill the subtree of the node behind the node itself: the
    /// first child follows the node, each next child follows the subtree of
    /// the child before, and the subtree of the last child ends with the
    /// subtree of the node. So a walk that visits a node and then the
    /// subtrees of its children, one after the other, visits the nodes in
    /// the order of the listing.
    pub proof fn law_children_fill(&self, cursor: RawCursor)
        requires
            self.wf(),
            self.valid_cursor(cursor),
        ensures
            ({
                let cs = self.children(cursor);
                let pos = cursor.node_index as int;
                let end = subtree_end(self@, pos);
                &&& cs.len() == 0 <==> end == pos
                &&& cs.len() > 0 ==> cs[0].node_index == pos + 1 && subtree_end(
                    self@,
                    cs[cs.len() - 1].node_index as int,
                ) == end
                &&& forall|k: int|
                    0 <= k && k + 1 < cs.len() ==> (#[trigger] cs[k + 1]).node_index
                        == subtree_end(self@, cs[k].node_index as int) + 1
            }),
    {
        let w = self.spans();
        let j = self.jumps@;
        let nn = self.nodes@.len() as int;
        let nl = self.leaves@.len() as int;
        let i = cursor.parent_jump_index as int;
        let pos = cursor.node_index as int;
        let cs = self.children(cursor);
        self.lemma_cursor(w, cursor);
        lemma_bounded(j, nn, nl, w, i);
        if !self.at_major(cursor) {
            lemma_position(self.nodes@, j, self.leaves@, w, i, pos + 1);
            assert(j[i].major() <= w.ends[i]) by {
                reveal(inv_links);
            }
        } else {
            match j[i].next_major_node.child() {
                Some(c) => {
                    let end = block_end(j, c, i);
                    self.lemma_block(i, c);
                    assert(c < end);
                    assert(j[c].jump_to_node == j[i].major() + 1) by {
                        reveal(inv_links);
                    }
                    assert forall|k: int| 0 <= k < cs.len() implies subtree_end(
                        self@,
                        (#[trigger] cs[k]).node_index as int,
                    ) == w.ends[c + k] by {
                        lemma_bounded(j, nn, nl, w, c + k);
                        lemma_position(
                            self.nodes@,
                            j,
                            self.leaves@,
                            w,
                            c + k,
                            j[c + k].jump_to_node as int,
                        );
                    }
                    assert forall|k: int| 0 <= k && k + 1 < cs.len() implies (
                    #[trigger] cs[k + 1]).node_index == subtree_end(
                        self@,
                        cs[k].node_index as int,
                    ) + 1 by {
                        let y = c + k;
                        let z = y + 1;
                        assert(j[y].parent_jump_index == i && j[z].parent_jump_index == i);
                        assert(j[z].jump_to_node == w.ends[y] + 1) by {
                            reveal(inv_links);
                        }
                        assert(subtree_end(self@, cs[k].node_index as int) == w.ends[c + k]);
                    }
                    let last = end - 1;
                    assert(j[last].parent_jump_index == i);
                    assert(w.ends[last] == w.ends[i]) by {
                        reveal(inv_links);
                        reveal(inv_basic);
                        if end < j.len() {
                            let z = last + 1;
                            assert(j[z].parent_jump_index != j[last].parent_jump_index);
                            assert(if j[last].parent_jump_index == j[z].parent_jump_index {
                                j[z].jump_to_node == w.ends[last] + 1
                            } else {
                                w.ends[last] == w.ends[j[last].parent_jump_index as int]
                            });
                        }
                    }
                    assert(subtree_end(self@, cs[cs.len() - 1].node_index as int) == w.ends[c + (
                    cs.len() - 1)]);
                    assert(w.ends[i] > pos) by {
                        reveal(inv_links);
                        assert(j[i].major() < j[c].jump_to_node && w.ends[c] <= w.ends[i]
                            && j[c].major() <= w.ends[c]);
                    }
                },
                None => {
                    assert(w.ends[i] == j[i].major()) by {
                        reveal(inv_links);
                    }
                },
            }
        }
    }

    /// The child records of record `i` stand together in the table, from
    /// the first child `c` on.
    pub proof fn lemma_block(&self, i: int, c: int)
        requires
            self.wf(),
            0 <= i < self.jumps@.len(),
            self.jumps@[i].next_major_node.child() == Some(c),
        ensures
            c < block_end(self.jumps@, c, i) <= self.jumps@.len(),
            forall|y: int|
                c <= y < block_end(self.jumps@, c, i) ==> (
                #[trigger] self.jumps@[y]).parent_jump_index == i,
            block_end(self.jumps@, c, i) < self.jumps@.len() ==> self.jumps@[block_end(
                self.jumps@,
                c,
                i,
            )].parent_jump_index != i,
    {
        let j = self.jumps@;
        assert(i < c < j.len() && j[c].parent_jump_index == i) by {
            reveal(inv_links);
            assert(i < c < j.len());
        }
        Self::lemma_block_from(j, c, i);
    }

    /// The records from index `k` on that have `i` for their parent stand
    /// together.
    proof fn lemma_block_from(j: Seq<crate::jump::Jump>, k: int, i: int)
        requires
            0 <= k <= j.len(),
        ensures
            k <= block_end(j, k, i) <= j.len(),
            forall|y: int| k <= y < block_end(j, k, i) ==> (#[trigger] j[y]).parent_jump_index == i,
            block_end(j, k, i) < j.len() ==> j[block_end(j, k, i)].parent_jump_index != i,
            k < j.len() && j[k].parent_jump_index == i ==> k < block_end(j, k, i),
        decreases j.len() - k,
    {
        if k < j.len() && j[k].parent_jump_index == i {
            Self::lemma_block_from(j, k + 1, i);
        }
    }

    /// Two records that stand side by side below one parent are each
    /// other's sibling: one step forward from the first leads to the
    /// second, and one step back from the second leads to the first.
    pub proof fn law_sibling_symmetry(&self, a: RawCursor, b: RawCursor)
        requires
            self.wf(),
            self.valid_cursor(a),
            self.valid_cursor(b),
            self.at_run_start(a),
            self.at_run_start(b),
            b.parent_jump_index == a.parent_jump_index + 1,
            self.jumps@[a.parent_jump_index as int].parent_jump_index
                == self.jumps@[b.parent_jump_index as int].parent_jump_index,
        ensures
            self.sibling(a, 1) == Some(b),
            self.sibling(b, -1) == Some(a),
    {
        let w = self.spans();
        let j = self.jumps@;
        let x = a.parent_jump_index as int;
        let y = b.parent_jump_index as int;
        assert(x >= 1 && 0 <= j[x].parent_jump_index < x) by {
            reveal(inv_basic);
        }
        let p = j[x].parent_jump_index as int;
        assert(j[x].depth == j[p].depth + j[p].next_major_node_dist + 1 && j[y].depth
            == j[p].depth + j[p].next_major_node_dist + 1) by {
            reveal(inv_links);
        }
    }

    /// Where a step forward from `a` leads to `b`, a step back from `b`
    /// leads to `a`, and the other way round.
    pub proof fn law_sibling_inverse(&self, a: RawCursor, b: RawCursor, dist: int)
        requires
            self.wf(),
            self.valid_cursor(a),
            self.sibling(a, dist) == Some(b),
        ensures
            self.sibling(b, -dist) == Some(a),
    {
        assert(self.jumps@.len() < isize::MAX) by {
            reveal(inv_basic);
        }
    }

    /// A walk round the table visits every record, and every record once.
    pub proof fn law_wrap_visits_all(&self, i: int, x: int)
        requires
            0 <= i < self.jumps@.len(),
            0 <= x < self.jumps@.len(),
        ensures
            exists|k: int| 0 <= k < self.jumps@.len() && #[trigger] self.wrap_index(i, k) == x,
            forall|k: int, l: int|
                0 <= k < self.jumps@.len() && 0 <= l < self.jumps@.len() && self.wrap_index(i, k)
                    == self.wrap_index(i, l) ==> k == l,
            forall|k: int|
                0 <= k < self.jumps@.len() ==> 0 <= #[trigger] self.wrap_index(i, k)
                    < self.jumps@.len(),
    {
        let len = self.jumps@.len() as int;
        let k = if x > i {
            x - i - 1
        } else {
            x + len - i - 1
        };
        assert(self.wrap_index(i, k) == x);
    }

    /// Every value of the store is the value of one node of the tree, which
    /// a walk round the table reaches.
    pub proof fn law_values_carried(&self, v: int)
        requires
            self.wf(),
            0 <= v < self.leaves@.len(),
        ensures
            exists|x: int|
                0 <= x < self.jumps@.len() && (#[trigger] self.jumps@[x]).next_major_node.leaf()
                    == Some(v) && self.leaf_index(self.major_cursor(x)) == Some(v)
                    && self.valid_cursor(self.major_cursor(x)),
            forall|x: int, y: int|
                0 <= x < self.jumps@.len() && 0 <= y < self.jumps@.len() && (
                #[trigger] self.jumps@[x]).next_major_node.leaf() == Some(v) && (
                #[trigger] self.jumps@[y]).next_major_node.leaf() == Some(v) ==> x == y,
    {
        let w = self.spans();
        let j = self.jumps@;
        let x = w.leaf_owner[v];
        assert(0 <= x < j.len() && j[x].next_major_node.leaf() == Some(v)) by {
            reveal(inv_leaves);
        }
        lemma_bounded(j, self.nodes@.len() as int, self.leaves@.len() as int, w, x);
        assert(self.valid_cursor(self.major_cursor(x)));
        assert forall|a: int, b: int|
            0 <= a < j.len() && 0 <= b < j.len() && (#[trigger] j[a]).next_major_node.leaf()
                == Some(v) && (#[trigger] j[b]).next_major_node.leaf() == Some(v) implies a
            == b by {
            reveal(inv_leaves);
        }
    }

    /// The listing of a tree starts at depth `0`, and from node to node the
    /// depth rises by one at most.
    pub proof fn law_shaped(&self, n: int)
        requires
            self.wf(),
            0 <= n < self@.len(),
        ensures
            0 <= self@[n].depth <= n,
            n + 1 < self@.len() ==> self@[n + 1].depth <= self@[n].depth + 1,
    {
        let w = self.spans();
        let j = self.jumps@;
        let nn = self.nodes@.len() as int;
        let nl = self.leaves@.len() as int;
        let x = w.owner[n];
        assert(0 <= x < j.len() && j[x].covers(n)) by {
            reveal(inv_cover);
        }
        lemma_owner(j, nn, nl, w, x, n);
        assert(j[0].depth == -1 && j[0].jump_to_node == -1 && (x >= 1 ==> 0 <= j[x].depth
            <= j[x].jump_to_node)) by {
            reveal(inv_basic);
        }
        if n + 1 < nn {
            let z = w.owner[n + 1];
            assert(0 <= z < j.len() && j[z].covers(n + 1)) by {
                reveal(inv_cover);
            }
            lemma_owner(j, nn, nl, w, z, n + 1);
            if z != x {
                lemma_owner(j, nn, nl, w, z, n + 1);
                if j[z].jump_to_node <= n {
                    lemma_owner(j, nn, nl, w, z, n);
                }
                assert(j[z].jump_to_node == n + 1);
                assert(z >= 1);
                let p = j[z].parent_jump_index as int;
                assert(0 <= p < z) by {
                    reveal(inv_basic);
                }
                assert(j[p].major() < j[z].jump_to_node && j[z].depth == j[p].depth
                    + j[p].next_major_node_dist + 1 && w.ends[z] <= w.ends[p] && j[z].major()
                    <= w.ends[z]) by {
                    reveal(inv_links);
                }
                if j[p].major() < n {
                    lemma_deeper(j, nn, nl, w, p, j[p].major(), n);
                } else {
                    lemma_owner(j, nn, nl, w, p, n);
                }
            }
        }
    }

    /// The parent of the first node of a run is the major node of the
    /// parent record.
    pub proof fn law_parent_of_run(&self, x: int)
        requires
            self.wf(),
            1 <= x < self.jumps@.len(),
        ensures
            0 <= self.jumps@[x].parent_jump_index < x,
            is_parent(
                self@,
                self.jumps@[x].jump_to_node as int,
                self.jumps@[self.jumps@[x].parent_jump_index as int].major(),
            ),
    {
        let w = self.spans();
        let j = self.jumps@;
        let nn = self.nodes@.len() as int;
        let nl = self.leaves@.len() as int;
        let p = j[x].parent_jump_index as int;
        assert(0 <= p < x) by {
            reveal(inv_basic);
        }
        assert(j[p].major() < j[x].jump_to_node && j[x].depth == j[p].depth
            + j[p].next_major_node_dist + 1 && w.ends[x] <= w.ends[p] && j[x].major()
            <= w.ends[x]) by {
            reveal(inv_links);
        }
        lemma_bounded(j, nn, nl, w, x);
        lemma_bounded(j, nn, nl, w, p);
        lemma_position(self.nodes@, j, self.leaves@, w, p, j[p].major());
        lemma_position(self.nodes@, j, self.leaves@, w, x, j[x].jump_to_node as int);
        assert forall|m: int| j[p].major() < m < j[x].jump_to_node implies (
        #[trigger] self@[m]).depth >= self@[j[x].jump_to_node as int].depth by {
            lemma_deeper(j, nn, nl, w, p, j[p].major(), m);
        }
    }

    /// Siblings have one parent: the nodes that `sibling` relates are
    /// children of the same node.
    pub proof fn law_sibling_parent(&self, a: RawCursor, b: RawCursor, dist: int)
        requires
            self.wf(),
            self.valid_cursor(a),
            a.node_index >= 0,
            self.sibling(a, dist) == Some(b),
        ensures
            exists|p: int|
                #[trigger] is_parent(self@, a.node_index as int, p) && is_parent(
                    self@,
                    b.node_index as int,
                    p,
                ),
    {
        let j = self.jumps@;
        let x = a.parent_jump_index as int;
        let y = x + dist;
        assert(j.len() < isize::MAX && j[0].jump_to_node == -1 && j[0].parent_jump_index == -1
            && (x >= 1 ==> 0 <= j[x].parent_jump_index)) by {
            reveal(inv_basic);
        }
        assert(x >= 1);
        self.law_parent_of_run(x);
        assert(y >= 1);
        self.law_parent_of_run(y);
        let p = j[j[x].parent_jump_index as int].major();
        assert(is_parent(self@, a.node_index as int, p) && is_parent(
            self@,
            b.node_index as int,
            p,
        ));
    }
}

} // verus!
