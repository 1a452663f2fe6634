//! What makes a jump table describe a tree: the invariants of the flattened
//! layout, stated over plain sequences.

use vstd::prelude::*;
use vstd::set_lib::{lemma_int_range, lemma_len_subset, set_int_range};
use crate::jump::Jump;
use crate::model::{depth_at, is_child, is_subtree_end, lemma_subtree_end_unique, subtree_end, Entry};

verus! {

/// What certifies a jump table: for each record the last node of its
/// subtree, for each node the record whose run holds it, and for each stored
/// value the record that carries it.
pub struct Spans {
    pub ends: Seq<int>,
    pub owner: Seq<int>,
    pub leaf_owner: Seq<int>,
}

/// The order of the jump table: by parent record first, then by first node.
pub open spec fn key_lt(a: Jump, b: Jump) -> bool {
    a.parent_jump_index < b.parent_jump_index || (a.parent_jump_index == b.parent_jump_index
        && a.jump_to_node < b.jump_to_node)
}

/// Record `0` is the root; every other record follows its parent and lies
/// within the node sequence.
#[verifier::opaque]
pub open spec fn inv_basic(j: Seq<Jump>, n_nodes: int) -> bool {
    &&& 1 <= j.len() < isize::MAX
    &&& 0 <= n_nodes < isize::MAX
    &&& j[0].parent_jump_index == -1
    &&& j[0].jump_to_node == -1
    &&& j[0].depth == -1
    &&& j[0].major() < n_nodes
    &&& forall|x: int|
        1 <= x < j.len() ==> {
            &&& 0 <= (#[trigger] j[x]).parent_jump_index < x
            &&& 0 <= j[x].depth <= j[x].jump_to_node
            &&& j[x].major() < n_nodes
        }
}

/// The jump table is sorted, strictly.
#[verifier::opaque]
pub open spec fn inv_sorted(j: Seq<Jump>) -> bool {
    forall|x: int, y: int| 0 <= x < y < j.len() ==> key_lt(#[trigger] j[x], #[trigger] j[y])
}

/// Parent and child references agree with each other and with the node
/// ranges: the children of a record follow its major node one subtree after
/// the other, and together they end where the record's own subtree ends.
#[verifier::opaque]
pub open spec fn inv_links(j: Seq<Jump>, n_nodes: int, ends: Seq<int>) -> bool {
    &&& ends.len() == j.len()
    &&& ends[0] == n_nodes - 1
    &&& j.len() >= 2 ==> ends[j.len() - 1] == ends[j[j.len() - 1].parent_jump_index as int]
    &&& forall|x: int|
        0 <= x < j.len() ==> {
            &&& (#[trigger] j[x]).major() <= ends[x] < n_nodes
            &&& match j[x].next_major_node.child() {
                Some(c) => x < c < j.len(),
                None => ends[x] == j[x].major(),
            }
        }
    &&& forall|x: int, y: int|
        0 <= x < j.len() && 1 <= y < j.len() && (#[trigger] j[y]).parent_jump_index == x ==> {
            &&& (#[trigger] j[x]).major() < j[y].jump_to_node
            &&& ends[y] <= ends[x]
            &&& j[y].depth == j[x].depth + j[x].next_major_node_dist + 1
            &&& j[x].next_major_node.child().is_some()
            &&& j[x].next_major_node.child().unwrap() <= y
        }
    &&& forall|x: int, c: int|
        0 <= x < j.len() && 0 <= c < j.len() && (#[trigger] j[x]).next_major_node.child()
            == Some(c) ==> {
            &&& (#[trigger] j[c]).parent_jump_index == x
            &&& j[c].jump_to_node == j[x].major() + 1
        }
    &&& forall|y: int, z: int|
        1 <= y && z == y + 1 && z < j.len() ==> if (#[trigger] j[y]).parent_jump_index == (
        #[trigger] j[z]).parent_jump_index {
            j[z].jump_to_node == ends[y] + 1
        } else {
            ends[y] == ends[j[y].parent_jump_index as int]
        }
}

/// The subtrees of two records are nested or apart, and a record that starts
/// inside another's subtree starts after that record's run.
#[verifier::opaque]
pub open spec fn inv_nested(j: Seq<Jump>, ends: Seq<int>) -> bool {
    forall|x: int, y: int|
        0 <= x < j.len() && 0 <= y < j.len() && x != y && (#[trigger] j[x]).jump_to_node <= (
        #[trigger] j[y]).jump_to_node ==> {
            &&& j[x].jump_to_node < j[y].jump_to_node
            &&& ends[x] < j[y].jump_to_node || (j[x].major() < j[y].jump_to_node && ends[y]
                <= ends[x])
        }
}

/// A record inside another's subtree lies deeper than that record's major
/// node; the record that follows a subtree lies no deeper than its root.
#[verifier::opaque]
pub open spec fn inv_depths(j: Seq<Jump>, ends: Seq<int>) -> bool {
    forall|x: int, y: int|
        0 <= x < j.len() && 0 <= y < j.len() && x != y ==> {
            &&& (#[trigger] j[x]).jump_to_node < (#[trigger] j[y]).jump_to_node <= ends[x]
                ==> j[y].depth > j[x].depth + j[x].next_major_node_dist
            &&& j[y].jump_to_node == ends[x] + 1 ==> j[y].depth <= j[x].depth
        }
}

/// Every node lies on the run of the record that `owner` names for it.
#[verifier::opaque]
pub open spec fn inv_cover(j: Seq<Jump>, n_nodes: int, owner: Seq<int>) -> bool {
    &&& owner.len() == n_nodes
    &&& forall|n: int|
        0 <= n < n_nodes ==> 0 <= (#[trigger] owner[n]) < j.len() && j[owner[n]].covers(n)
}

/// The ranks of the values rise along the jump table and number the value
/// store without a gap; the virtual root carries no value.
#[verifier::opaque]
pub open spec fn inv_leaves(j: Seq<Jump>, n_leaves: int, leaf_owner: Seq<int>) -> bool {
    &&& j[0].next_major_node_dist == 0 ==> j[0].next_major_node.leaf().is_none()
    &&& forall|x: int|
        0 <= x < j.len() ==> match (#[trigger] j[x]).next_major_node.leaf() {
            Some(r) => 0 <= r < n_leaves,
            None => true,
        }
    &&& forall|x: int, y: int|
        0 <= x < y < j.len() && (#[trigger] j[x]).next_major_node.leaf().is_some() && (
        #[trigger] j[y]).next_major_node.leaf().is_some() ==> j[x].next_major_node.leaf().unwrap()
            < j[y].next_major_node.leaf().unwrap()
    &&& leaf_owner.len() == n_leaves
    &&& forall|r: int|
        0 <= r < n_leaves ==> 0 <= (#[trigger] leaf_owner[r]) < j.len()
            && j[leaf_owner[r]].next_major_node.leaf() == Some(r)
}

/// All the invariants of the layout, certified by `w`.
pub open spec fn inv(j: Seq<Jump>, n_nodes: int, n_leaves: int, w: Spans) -> bool {
    &&& inv_basic(j, n_nodes)
    &&& inv_sorted(j)
    &&& inv_links(j, n_nodes, w.ends)
    &&& inv_nested(j, w.ends)
    &&& inv_depths(j, w.ends)
    &&& inv_cover(j, n_nodes, w.owner)
    &&& inv_leaves(j, n_leaves, w.leaf_owner)
}

/// A jump table that describes a tree over `n_nodes` nodes and `n_leaves`
/// values.
pub open spec fn valid(j: Seq<Jump>, n_nodes: int, n_leaves: int) -> bool {
    exists|w: Spans| inv(j, n_nodes, n_leaves, w)
}

/// A certificate of a valid table.
pub open spec fn spans(j: Seq<Jump>, n_nodes: int, n_leaves: int) -> Spans {
    choose|w: Spans| inv(j, n_nodes, n_leaves, w)
}


/// The record on whose run node `n` lies.
pub open spec fn owner_of(j: Seq<Jump>, n: int) -> int {
    choose|x: int| 0 <= x < j.len() && j[x].covers(n)
}

/// Depth of node `n`, counted along the run that holds it.
pub open spec fn depth_of(j: Seq<Jump>, n: int) -> int {
    let x = owner_of(j, n);
    j[x].depth + (n - j[x].jump_to_node)
}

/// Rank of the value of node `n`, if it carries one.
pub open spec fn leaf_of(j: Seq<Jump>, n: int) -> Option<int> {
    let x = owner_of(j, n);
    if n == j[x].major() {
        j[x].next_major_node.leaf()
    } else {
        None
    }
}

/// A node lies on one run only.
pub proof fn lemma_owner(j: Seq<Jump>, n_nodes: int, n_leaves: int, w: Spans, x: int, n: int)
    requires
        inv(j, n_nodes, n_leaves, w),
        0 <= x < j.len(),
        j[x].covers(n),
    ensures
        owner_of(j, n) == x,
{
    reveal(inv_links);
    reveal(inv_nested);
    let o = owner_of(j, n);
    assert(0 <= o < j.len() && j[o].covers(n));
    if o != x {
        assert(j[o].major() <= w.ends[o]);
        assert(j[x].major() <= w.ends[x]);
        if j[o].jump_to_node <= j[x].jump_to_node {
            assert(j[o].jump_to_node < j[x].jump_to_node);
        } else {
            assert(j[x].jump_to_node < j[o].jump_to_node);
        }
    }
}

/// Every node after `pos` up to the end of the subtree of the record that
/// holds `pos` lies deeper than `pos`.
pub proof fn lemma_deeper(
    j: Seq<Jump>,
    n_nodes: int,
    n_leaves: int,
    w: Spans,
    x: int,
    pos: int,
    m: int,
)
    requires
        inv(j, n_nodes, n_leaves, w),
        0 <= x < j.len(),
        j[x].covers(pos),
        pos < m <= w.ends[x],
    ensures
        0 <= m < n_nodes,
        depth_of(j, m) > j[x].depth + (pos - j[x].jump_to_node),
        m > j[x].major() ==> j[w.owner[m]].jump_to_node > j[x].major() && w.owner[m] != x,
{
    reveal(inv_links);
    reveal(inv_nested);
    reveal(inv_depths);
    reveal(inv_cover);
    reveal(inv_basic);
    assert(j[x].jump_to_node >= -1);
    assert(j[x].major() <= w.ends[x] < n_nodes);
    let z = w.owner[m];
    assert(0 <= m < n_nodes);
    assert(j[z].covers(m));
    lemma_owner(j, n_nodes, n_leaves, w, z, m);
    assert(j[x].major() <= w.ends[x]);
    assert(j[z].major() <= w.ends[z]);
    if z != x {
        if j[z].jump_to_node <= j[x].jump_to_node {
            assert(j[z].jump_to_node < j[x].jump_to_node);
            assert(false);
        }
        assert(j[x].jump_to_node < j[z].jump_to_node <= w.ends[x]);
        assert(j[z].depth > j[x].depth + j[x].next_major_node_dist);
    }
}

/// The node after the subtree of a record starts a run, and lies no deeper
/// than the record's first node.
pub proof fn lemma_after_end(j: Seq<Jump>, n_nodes: int, n_leaves: int, w: Spans, x: int)
    requires
        inv(j, n_nodes, n_leaves, w),
        0 <= x < j.len(),
        w.ends[x] + 1 < n_nodes,
    ensures
        j[w.owner[w.ends[x] + 1]].jump_to_node == w.ends[x] + 1,
        depth_of(j, w.ends[x] + 1) <= j[x].depth,
        w.owner[w.ends[x] + 1] != x,
{
    reveal(inv_links);
    reveal(inv_nested);
    reveal(inv_depths);
    reveal(inv_cover);
    reveal(inv_basic);
    assert(j[x].jump_to_node >= -1);
    assert(j[x].major() <= w.ends[x] < n_nodes);
    let m = w.ends[x] + 1;
    let z = w.owner[m];
    assert(0 <= m < n_nodes);
    assert(j[z].covers(m));
    lemma_owner(j, n_nodes, n_leaves, w, z, m);
    assert(j[x].major() <= w.ends[x]);
    assert(j[z].major() <= w.ends[z]);
    assert(z != x);
    if j[z].jump_to_node <= j[x].jump_to_node {
        assert(j[z].jump_to_node < j[x].jump_to_node);
        assert(false);
    }
    assert(j[x].jump_to_node < j[z].jump_to_node);
}

/// The nodes in preorder, each with its depth and its value, as the three
/// arrays give them.
pub open spec fn listing<N, L>(nodes: Seq<N>, j: Seq<Jump>, leaves: Seq<L>) -> Seq<Entry<N, L>> {
    Seq::new(
        nodes.len(),
        |n: int|
            Entry {
                key: nodes[n],
                depth: depth_of(j, n),
                value: match leaf_of(j, n) {
                    Some(r) => Some(leaves[r]),
                    None => None,
                },
            },
    )
}

/// What a position on the run of record `x` says of the listing: its depth
/// and the end of its subtree.
pub proof fn lemma_position<N, L>(
    nodes: Seq<N>,
    j: Seq<Jump>,
    leaves: Seq<L>,
    w: Spans,
    x: int,
    pos: int,
)
    requires
        inv(j, nodes.len() as int, leaves.len() as int, w),
        0 <= x < j.len(),
        j[x].covers(pos),
    ensures
        -1 <= pos < nodes.len(),
        pos == -1 <==> x == 0 && pos == j[x].jump_to_node,
        depth_at(listing(nodes, j, leaves), pos) == j[x].depth + (pos - j[x].jump_to_node),
        is_subtree_end(listing(nodes, j, leaves), pos, w.ends[x]),
        subtree_end(listing(nodes, j, leaves), pos) == w.ends[x],
{
    let s = listing(nodes, j, leaves);
    let nn = nodes.len() as int;
    let nl = leaves.len() as int;
    reveal(inv_basic);
    reveal(inv_links);
    let e = w.ends[x];
    assert(j[x].major() <= e < nn);
    if x >= 1 {
        assert(j[x].jump_to_node >= 0);
    }
    if pos >= 0 {
        lemma_owner(j, nn, nl, w, x, pos);
    }
    assert forall|m: int| pos < m <= e implies (#[trigger] s[m]).depth > depth_at(s, pos) by {
        lemma_deeper(j, nn, nl, w, x, pos, m);
    }
    if e + 1 < nn {
        lemma_after_end(j, nn, nl, w, x);
    }
    lemma_subtree_end_unique(s, pos, e);
}

/// The references of a record stay within the three arrays.
pub open spec fn bounded(r: Jump, len: int, n_nodes: int, n_leaves: int) -> bool {
    &&& -1 <= r.parent_jump_index < len
    &&& -1 <= r.jump_to_node
    &&& -1 <= r.depth <= r.jump_to_node
    &&& r.major() < n_nodes
    &&& match r.next_major_node.child() {
        Some(c) => c < len,
        None => true,
    }
    &&& match r.next_major_node.leaf() {
        Some(v) => v < n_leaves,
        None => true,
    }
}

/// Every record of a valid table is bounded.
pub proof fn lemma_bounded(j: Seq<Jump>, n_nodes: int, n_leaves: int, w: Spans, x: int)
    requires
        inv(j, n_nodes, n_leaves, w),
        0 <= x < j.len(),
    ensures
        bounded(j[x], j.len() as int, n_nodes, n_leaves),
        j.len() < isize::MAX,
        n_nodes < isize::MAX,
{
    reveal(inv_basic);
    reveal(inv_links);
    reveal(inv_leaves);
}

/// A tree has no more records than nodes, the root record apart, and no
/// more values than records.
pub proof fn lemma_counts(j: Seq<Jump>, n_nodes: int, n_leaves: int, w: Spans)
    requires
        inv(j, n_nodes, n_leaves, w),
    ensures
        j.len() <= n_nodes + 1,
        n_leaves <= j.len(),
        0 <= n_leaves,
{
    let starts = Seq::new((j.len() - 1) as nat, |k: int| j[k + 1].jump_to_node as int);
    assert(j.len() >= 1 && n_nodes >= 0) by {
        reveal(inv_basic);
    }
    assert(starts.no_duplicates()) by {
        assert forall|a: int, b: int|
            0 <= a < starts.len() && 0 <= b < starts.len() && a != b implies starts[a]
            != starts[b] by {
            reveal(inv_nested);
            let x = a + 1;
            let y = b + 1;
            if j[x].jump_to_node <= j[y].jump_to_node {
                assert(j[x].jump_to_node < j[y].jump_to_node);
            } else {
                assert(j[y].jump_to_node < j[x].jump_to_node);
            }
        }
    }
    starts.unique_seq_to_set();
    lemma_int_range(0, n_nodes);
    assert(starts.to_set().subset_of(set_int_range(0, n_nodes))) by {
        assert forall|v: int| starts.to_set().contains(v) implies set_int_range(
            0,
            n_nodes,
        ).contains(v) by {
            let k = choose|k: int| 0 <= k < starts.len() && starts[k] == v;
            let x = k + 1;
            assert(0 <= j[x].jump_to_node && j[x].major() < n_nodes) by {
                reveal(inv_basic);
            }
        }
    }
    lemma_len_subset(starts.to_set(), set_int_range(0, n_nodes));
    let owners = w.leaf_owner;
    assert(owners.len() == n_leaves) by {
        reveal(inv_leaves);
    }
    assert(owners.no_duplicates()) by {
        assert forall|a: int, b: int|
            0 <= a < owners.len() && 0 <= b < owners.len() && a != b implies owners[a]
            != owners[b] by {
            reveal(inv_leaves);
            assert(j[owners[a]].next_major_node.leaf() == Some(a));
            assert(j[owners[b]].next_major_node.leaf() == Some(b));
        }
    }
    owners.unique_seq_to_set();
    lemma_int_range(0, j.len() as int);
    assert(owners.to_set().subset_of(set_int_range(0, j.len() as int))) by {
        assert forall|v: int| owners.to_set().contains(v) implies set_int_range(
            0,
            j.len() as int,
        ).contains(v) by {
            let k = choose|k: int| 0 <= k < owners.len() && owners[k] == v;
            assert(0 <= owners[k] < j.len()) by {
                reveal(inv_leaves);
            }
        }
    }
    lemma_len_subset(owners.to_set(), set_int_range(0, j.len() as int));
}

/// The children of the major node of record `x` are the first nodes of the
/// child records of `x`.
pub proof fn lemma_child_records<N, L>(
    nodes: Seq<N>,
    j: Seq<Jump>,
    leaves: Seq<L>,
    w: Spans,
    x: int,
    c: int,
)
    requires
        inv(j, nodes.len() as int, leaves.len() as int, w),
        0 <= x < j.len(),
    ensures
        is_child(listing(nodes, j, leaves), j[x].major(), c) <==> 0 <= c < nodes.len()
            && j[x].major() < c && 1 <= w.owner[c] < j.len() && j[w.owner[c]].jump_to_node == c
            && j[w.owner[c]].parent_jump_index == x,
{
    let nn = nodes.len() as int;
    let nl = leaves.len() as int;
    let s = listing(nodes, j, leaves);
    let pos = j[x].major();
    lemma_position(nodes, j, leaves, w, x, pos);
    if 0 <= c < nn {
        let z = w.owner[c];
        assert(0 <= z < j.len() && j[z].covers(c)) by {
            reveal(inv_cover);
        }
        lemma_owner(j, nn, nl, w, z, c);
        assert(j[0].jump_to_node == -1 && (z >= 1 ==> 0 <= j[z].parent_jump_index < z)) by {
            reveal(inv_basic);
        }
        if is_child(s, pos, c) {
            lemma_deeper(j, nn, nl, w, x, pos, c);
            assert(z >= 1);
            let p = j[z].parent_jump_index as int;
            assert(j[z].depth == j[p].depth + j[p].next_major_node_dist + 1 && j[p].major()
                < j[z].jump_to_node && w.ends[z] <= w.ends[p] && j[z].major() <= w.ends[z]) by {
                reveal(inv_links);
            }
            assert(j[z].depth > j[x].depth + j[x].next_major_node_dist) by {
                reveal(inv_depths);
            }
            if p != x {
                reveal(inv_nested);
                reveal(inv_depths);
                reveal(inv_links);
                if j[p].jump_to_node <= j[x].jump_to_node {
                    assert(j[p].jump_to_node < j[x].jump_to_node);
                } else {
                    assert(j[x].jump_to_node < j[p].jump_to_node);
                }
                assert(false);
            }
        }
        if pos < c && z >= 1 && j[z].jump_to_node == c && j[z].parent_jump_index == x {
            assert(j[z].depth == j[x].depth + j[x].next_major_node_dist + 1 && w.ends[z]
                <= w.ends[x] && j[z].major() <= w.ends[z]) by {
                reveal(inv_links);
            }
        }
    }
}

/// The only child of a node inside a run is the next node.
pub proof fn lemma_child_inside<N, L>(
    nodes: Seq<N>,
    j: Seq<Jump>,
    leaves: Seq<L>,
    w: Spans,
    x: int,
    pos: int,
    c: int,
)
    requires
        inv(j, nodes.len() as int, leaves.len() as int, w),
        0 <= x < j.len(),
        j[x].covers(pos),
        pos < j[x].major(),
    ensures
        is_child(listing(nodes, j, leaves), pos, c) <==> c == pos + 1,
{
    let nn = nodes.len() as int;
    let nl = leaves.len() as int;
    let s = listing(nodes, j, leaves);
    lemma_position(nodes, j, leaves, w, x, pos);
    lemma_position(nodes, j, leaves, w, x, pos + 1);
    if is_child(s, pos, c) && c != pos + 1 {
        assert(s[c].depth > s[pos + 1].depth);
    }
}

/// The subtree of record `y` holds the subtree of record `x`.
pub open spec fn encloses(j: Seq<Jump>, w: Spans, y: int, x: int) -> bool {
    j[y].jump_to_node <= j[x].jump_to_node && w.ends[x] <= w.ends[y]
}

/// The subtree of a record holds a node exactly if it holds the subtree of
/// the record on whose run the node lies.
pub proof fn lemma_encloses_node(
    j: Seq<Jump>,
    n_nodes: int,
    n_leaves: int,
    w: Spans,
    y: int,
    x: int,
    pos: int,
)
    requires
        inv(j, n_nodes, n_leaves, w),
        0 <= y < j.len(),
        0 <= x < j.len(),
        j[x].covers(pos),
    ensures
        (j[y].jump_to_node <= pos <= w.ends[y]) <==> encloses(j, w, y, x),
{
    reveal(inv_links);
    reveal(inv_nested);
    assert(j[x].major() <= w.ends[x]);
    assert(j[y].major() <= w.ends[y]);
    if x != y {
        if j[x].jump_to_node <= j[y].jump_to_node {
            assert(j[x].jump_to_node < j[y].jump_to_node);
        } else {
            assert(j[y].jump_to_node < j[x].jump_to_node);
        }
    }
}

/// A record whose subtree is held by the subtree of another record stands
/// behind that record in the table.
pub proof fn lemma_encloses_before(
    j: Seq<Jump>,
    n_nodes: int,
    n_leaves: int,
    w: Spans,
    y: int,
    x: int,
)
    requires
        inv(j, n_nodes, n_leaves, w),
        0 <= y < j.len(),
        0 <= x < j.len(),
        encloses(j, w, y, x),
        y != x,
    ensures
        y < x,
        x >= 1,
        encloses(j, w, y, j[x].parent_jump_index as int),
    decreases x,
{
    assert(j[0].jump_to_node == -1 && (y >= 1 ==> j[y].jump_to_node >= 0) && (x >= 1 ==> 0
        <= j[x].parent_jump_index < x)) by {
        reveal(inv_basic);
    }
    assert(j[x].jump_to_node != j[y].jump_to_node && j[x].major() <= w.ends[x] && j[y].major()
        <= w.ends[y]) by {
        reveal(inv_nested);
        reveal(inv_links);
        if j[x].jump_to_node <= j[y].jump_to_node {
            assert(j[x].jump_to_node < j[y].jump_to_node);
        } else {
            assert(j[y].jump_to_node < j[x].jump_to_node);
        }
    }
    assert(x >= 1);
    let p = j[x].parent_jump_index as int;
    assert(j[p].major() < j[x].jump_to_node && w.ends[x] <= w.ends[p] && j[x].depth == j[p].depth
        + j[p].next_major_node_dist + 1 && j[p].major() <= w.ends[p]) by {
        reveal(inv_links);
    }
    if p != y {
        // The parent lies inside the subtree of `y` too.
        assert(encloses(j, w, y, p)) by {
            reveal(inv_nested);
            reveal(inv_depths);
            if j[p].jump_to_node <= j[y].jump_to_node {
                assert(j[p].jump_to_node < j[y].jump_to_node);
                assert(j[y].depth > j[p].depth + j[p].next_major_node_dist);
                assert(j[x].depth > j[y].depth + j[y].next_major_node_dist);
                assert(false);
            } else {
                assert(j[y].jump_to_node < j[p].jump_to_node);
            }
        }
        lemma_encloses_before(j, n_nodes, n_leaves, w, y, p);
    }
}

/// The subtree of a record holds the subtrees of its children.
pub proof fn lemma_encloses_child(j: Seq<Jump>, n_nodes: int, n_leaves: int, w: Spans, x: int)
    requires
        inv(j, n_nodes, n_leaves, w),
        1 <= x < j.len(),
    ensures
        0 <= j[x].parent_jump_index < x,
        encloses(j, w, j[x].parent_jump_index as int, x),
{
    reveal(inv_basic);
    reveal(inv_links);
    let p = j[x].parent_jump_index as int;
    assert(0 <= p < x);
    assert(j[p].major() < j[x].jump_to_node && w.ends[x] <= w.ends[p]);
}

} // verus!
