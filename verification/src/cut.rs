//! Cutting a run in two: the regions of the table, and the rewriting of the
//! arrays.

use vstd::prelude::*;
use crate::jump::{Jump, MajorNode, RawCursor};
use crate::layout::{inv, inv_basic, inv_leaves, inv_links, lemma_bounded, Spans};
use crate::raw::RawTrie;
use crate::split::Split;

verus! {

/// Index `hi` parts the records whose parent lies before `lo` from the others.
#[verifier::opaque]
pub open spec fn parts(j: Seq<Jump>, lo: int, hi: int) -> bool {
    &&& 1 <= hi <= j.len()
    &&& forall|x: int| 1 <= x < j.len() ==> (x < hi <==> (#[trigger] j[x]).parent_jump_index < lo)
}

/// Rank `r` parts the values carried before index `cut` from the others.
#[verifier::opaque]
pub open spec fn parts_ranks(j: Seq<Jump>, n_leaves: int, cut: int, r: int) -> bool {
    &&& 0 <= r <= n_leaves
    &&& forall|x: int|
        0 <= x < j.len() && (#[trigger] j[x]).next_major_node.leaf().is_some() ==> (x < cut
            <==> j[x].next_major_node.leaf().unwrap() < r)
}

/// The start and the middle at `g` part the children of the records before
/// the start and the middle before them from the others; the middle lies
/// between its start and the next.
pub open spec fn start_ok(j: Seq<Jump>, b: Seq<int>, m: Seq<int>, g: int) -> bool {
    &&& b[g] <= m[g] <= j.len()
    &&& g + 1 < b.len() ==> {
        &&& parts(j, b[g], b[g + 1])
        &&& parts(j, m[g], m[g + 1])
        &&& b[g] < b[g + 1]
        &&& m[g] <= b[g + 1]
    }
}

/// Every start and middle is in order.
pub open spec fn steps(j: Seq<Jump>, b: Seq<int>, m: Seq<int>) -> bool {
    &&& m.len() == b.len()
    &&& forall|g: int| 0 <= g < b.len() ==> #[trigger] start_ok(j, b, m, g)
}

/// `b` and `m` are the region starts and middles for a cut of record `i`.
#[verifier::opaque]
pub open spec fn region_starts(j: Seq<Jump>, i: int, b: Seq<int>, m: Seq<int>) -> bool {
    &&& b.len() >= 2
    &&& b[0] == i
    &&& m[0] == i + 1
    &&& b[b.len() - 1] == j.len()
    &&& steps(j, b, m)
}

/// One more region start and middle.
pub proof fn lemma_step(j: Seq<Jump>, b: Seq<int>, m: Seq<int>, nb: int, nm: int)
    requires
        steps(j, b, m),
        b.len() >= 1,
        parts(j, b[b.len() - 1], nb),
        parts(j, m[m.len() - 1], nm),
        b[b.len() - 1] < nb,
        m[m.len() - 1] <= nb <= nm <= j.len(),
    ensures
        steps(j, b.push(nb), m.push(nm)),
{
    let b1 = b.push(nb);
    let m1 = m.push(nm);
    assert forall|g: int| 0 <= g < b1.len() implies #[trigger] start_ok(j, b1, m1, g) by {
        if g < b.len() {
            assert(start_ok(j, b, m, g));
        }
    }
}

/// `rb[g]` and `rm[g]` are the ranks at the start and the middle of region `g`.
pub open spec fn rank_ok(
    j: Seq<Jump>,
    n_leaves: int,
    b: Seq<int>,
    m: Seq<int>,
    rb: Seq<int>,
    rm: Seq<int>,
    g: int,
) -> bool {
    parts_ranks(j, n_leaves, b[g], rb[g]) && parts_ranks(j, n_leaves, m[g], rm[g])
}

/// `rb` and `rm` are the ranks at the region starts and middles.
#[verifier::opaque]
pub open spec fn region_ranks(
    j: Seq<Jump>,
    n_leaves: int,
    b: Seq<int>,
    m: Seq<int>,
    rb: Seq<int>,
    rm: Seq<int>,
) -> bool {
    &&& rb.len() == b.len()
    &&& rm.len() == b.len()
    &&& forall|g: int| 0 <= g < b.len() ==> #[trigger] rank_ok(j, n_leaves, b, m, rb, rm, g)
}

/// A sequence of indices as integers.
pub open spec fn ints(v: Seq<usize>) -> Seq<int> {
    Seq::new(v.len(), |k: int| v[k] as int)
}

/// The index that parts the records whose parent lies before `y` from the
/// others.
pub open spec fn first_above(j: Seq<Jump>, y: int) -> int {
    choose|r: int| parts(j, y, r)
}

/// There is one such index only.
pub proof fn lemma_first_above(j: Seq<Jump>, y: int, r: int)
    requires
        parts(j, y, r),
    ensures
        first_above(j, y) == r,
{
    reveal(parts);
    let f = first_above(j, y);
    assert(parts(j, y, f));
    if f < r {
        assert(j[f].parent_jump_index < y);
    }
    if r < f {
        assert(j[r].parent_jump_index < y);
    }
}

/// The rank that parts the values carried before index `cut` from the
/// others.
pub open spec fn rank_above(j: Seq<Jump>, n_leaves: int, cut: int) -> int {
    choose|r: int| parts_ranks(j, n_leaves, cut, r)
}

/// There is one such rank only.
pub proof fn lemma_rank_above(
    j: Seq<Jump>,
    n_nodes: int,
    n_leaves: int,
    w: Spans,
    cut: int,
    r: int,
)
    requires
        inv(j, n_nodes, n_leaves, w),
        parts_ranks(j, n_leaves, cut, r),
    ensures
        rank_above(j, n_leaves, cut) == r,
{
    let f = rank_above(j, n_leaves, cut);
    assert(parts_ranks(j, n_leaves, cut, f));
    lemma_ranks_rise(j, n_nodes, n_leaves, w, cut, r, cut, f);
    lemma_ranks_rise(j, n_nodes, n_leaves, w, cut, f, cut, r);
}

/// The region starts from `lo` on: each next start parts the children of the
/// records before the start before it from the others, up to the end of the
/// table.
pub open spec fn starts_from(j: Seq<Jump>, lo: int) -> Seq<int>
    decreases j.len() - lo,
{
    if lo >= j.len() || first_above(j, lo) <= lo || first_above(j, lo) > j.len() {
        seq![lo]
    } else {
        seq![lo] + starts_from(j, first_above(j, lo))
    }
}

/// The first `count` region middles from `mid` on.
pub open spec fn middles_from(j: Seq<Jump>, mid: int, count: int) -> Seq<int>
    decreases count,
{
    if count <= 0 {
        Seq::empty()
    } else {
        seq![mid] + middles_from(j, first_above(j, mid), count - 1)
    }
}

/// The cut of the run of record `i` behind node `pos`, with the regions of
/// the table.
pub open spec fn cut_at(j: Seq<Jump>, n_leaves: int, i: int, pos: int) -> Split {
    let b = starts_from(j, i);
    let m = middles_from(j, i + 1, b.len() as int);
    split_of(
        j.len() as int,
        i,
        pos,
        b,
        m,
        Seq::new(b.len(), |g: int| rank_above(j, n_leaves, b[g])),
        Seq::new(b.len(), |g: int| rank_above(j, n_leaves, m[g])),
    )
}

/// Region starts and middles are those that the table gives.
pub proof fn lemma_starts_from(j: Seq<Jump>, i: int, b: Seq<int>, m: Seq<int>, g: int)
    requires
        region_starts(j, i, b, m),
        0 <= g < b.len(),
    ensures
        b.subrange(g, b.len() as int) == starts_from(j, b[g]),
        m.subrange(g, b.len() as int) == middles_from(j, m[g], b.len() - g),
    decreases b.len() - g,
{
    lemma_starts(j, i, b, m);
    let top = b.len() - 1;
    if g == top {
        assert(b.subrange(g, b.len() as int) =~= seq![b[g]]);
        assert(m.subrange(g, b.len() as int) =~= seq![m[g]]);
        assert(middles_from(j, first_above(j, m[g]), 0) =~= Seq::<int>::empty());
        assert(middles_from(j, m[g], 1) =~= seq![m[g]]);
    } else {
        lemma_start(j, i, b, m, g);
        lemma_rising(j, i, b, m, g + 1, top);
        lemma_first_above(j, b[g], b[g + 1]);
        lemma_first_above(j, m[g], m[g + 1]);
        lemma_starts_from(j, i, b, m, g + 1);
        assert(b.subrange(g, b.len() as int) =~= seq![b[g]] + b.subrange(g + 1, b.len() as int));
        assert(m.subrange(g, b.len() as int) =~= seq![m[g]] + m.subrange(g + 1, b.len() as int));
    }
}

/// The regions that were computed for a cut are the regions of the cut.
pub proof fn lemma_cut_at(
    j: Seq<Jump>,
    n_nodes: int,
    n_leaves: int,
    w: Spans,
    i: int,
    pos: int,
    b: Seq<int>,
    m: Seq<int>,
    rb: Seq<int>,
    rm: Seq<int>,
)
    requires
        inv(j, n_nodes, n_leaves, w),
        region_starts(j, i, b, m),
        region_ranks(j, n_leaves, b, m, rb, rm),
    ensures
        split_of(j.len() as int, i, pos, b, m, rb, rm) == cut_at(j, n_leaves, i, pos),
{
    lemma_starts(j, i, b, m);
    lemma_starts_from(j, i, b, m, 0);
    assert(b.subrange(0, b.len() as int) =~= b);
    assert(m.subrange(0, b.len() as int) =~= m);
    lemma_start_rank(j, n_leaves, b, m, rb, rm, 0);
    let c = cut_at(j, n_leaves, i, pos);
    assert forall|g: int| 0 <= g < b.len() implies rb[g] == c.rb[g] && rm[g] == c.rm[g] by {
        lemma_start_rank(j, n_leaves, b, m, rb, rm, g);
        lemma_rank_above(j, n_nodes, n_leaves, w, b[g], rb[g]);
        lemma_rank_above(j, n_nodes, n_leaves, w, m[g], rm[g]);
    }
    assert(rb =~= c.rb);
    assert(rm =~= c.rm);
}

/// The region of the table in which index `x` lies.
pub open spec fn region_of(b: Seq<int>, x: int) -> int {
    choose|g: int| 0 <= g < b.len() - 1 && (#[trigger] b[g]) <= x < b[g + 1]
}

/// The cut of record `i` after node `pos`, with these regions.
pub open spec fn split_of(
    len: int,
    i: int,
    pos: int,
    b: Seq<int>,
    m: Seq<int>,
    rb: Seq<int>,
    rm: Seq<int>,
) -> Split {
    Split { i, pos, b, m, rb, rm, reg: Seq::new(len as nat, |x: int| region_of(b, x)) }
}

/// What the region starts say of one region.
pub proof fn lemma_start(j: Seq<Jump>, i: int, b: Seq<int>, m: Seq<int>, g: int)
    requires
        region_starts(j, i, b, m),
        0 <= g < b.len() - 1,
    ensures
        b.len() >= 2,
        m.len() == b.len(),
        b[0] == i,
        m[0] == i + 1,
        b[b.len() - 1] == j.len(),
        parts(j, b[g], b[g + 1]),
        parts(j, m[g], m[g + 1]),
        b[g] < b[g + 1],
        b[g] <= m[g] <= b[g + 1] <= m[g + 1] <= j.len(),
{
    reveal(region_starts);
    assert(start_ok(j, b, m, g));
    assert(start_ok(j, b, m, g + 1));
}

/// The frame of the region starts.
pub proof fn lemma_starts(j: Seq<Jump>, i: int, b: Seq<int>, m: Seq<int>)
    requires
        region_starts(j, i, b, m),
    ensures
        b.len() >= 2,
        m.len() == b.len(),
        b[0] == i,
        m[0] == i + 1,
        b[b.len() - 1] == j.len(),
        m[b.len() - 1] == j.len(),
{
    reveal(region_starts);
    let top = b.len() - 1;
    assert(start_ok(j, b, m, top));
}

/// What the region ranks say of one region start.
pub proof fn lemma_start_rank(
    j: Seq<Jump>,
    n_leaves: int,
    b: Seq<int>,
    m: Seq<int>,
    rb: Seq<int>,
    rm: Seq<int>,
    g: int,
)
    requires
        region_ranks(j, n_leaves, b, m, rb, rm),
        0 <= g < b.len(),
    ensures
        rb.len() == b.len(),
        rm.len() == b.len(),
        parts_ranks(j, n_leaves, b[g], rb[g]),
        parts_ranks(j, n_leaves, m[g], rm[g]),
{
    reveal(region_ranks);
    assert(rank_ok(j, n_leaves, b, m, rb, rm, g));
}

/// Starts that rise step by step rise.
pub proof fn lemma_rising(j: Seq<Jump>, i: int, b: Seq<int>, m: Seq<int>, g: int, h: int)
    requires
        region_starts(j, i, b, m),
        0 <= g <= h < b.len(),
    ensures
        b[g] <= b[h],
        g < h ==> b[g] < b[h] && m[g] <= b[h],
        b[h] <= j.len(),
    decreases h - g,
{
    if g < h {
        lemma_rising(j, i, b, m, g, h - 1);
        lemma_start(j, i, b, m, h - 1);
    } else if h > 0 {
        lemma_start(j, i, b, m, h - 1);
    } else {
        lemma_starts(j, i, b, m);
        lemma_start(j, i, b, m, 0);
    }
}

/// Every index from `i` on lies in one region, and in one only.
pub proof fn lemma_region_of(j: Seq<Jump>, i: int, b: Seq<int>, m: Seq<int>, x: int)
    requires
        region_starts(j, i, b, m),
        i <= x < j.len(),
    ensures
        0 <= region_of(b, x) < b.len() - 1,
        b[region_of(b, x)] <= x < b[region_of(b, x) + 1],
{
    lemma_starts(j, i, b, m);
    lemma_region_exists(b, x, b.len() - 1);
}

/// An index between two region starts lies in the region between them.
pub proof fn lemma_region_is(j: Seq<Jump>, i: int, b: Seq<int>, m: Seq<int>, x: int, g: int)
    requires
        region_starts(j, i, b, m),
        i <= x < j.len(),
        0 <= g < b.len() - 1,
        b[g] <= x < b[g + 1],
    ensures
        region_of(b, x) == g,
{
    lemma_region_of(j, i, b, m, x);
    let r = region_of(b, x);
    if g < r {
        lemma_rising(j, i, b, m, g + 1, r);
    }
    if r < g {
        lemma_rising(j, i, b, m, r + 1, g);
    }
}

/// An index from the first start on and before the last start lies in a
/// region.
proof fn lemma_region_exists(b: Seq<int>, x: int, k: int)
    requires
        1 <= k < b.len(),
        b[0] <= x < b[k],
    ensures
        exists|g: int| 0 <= g < b.len() - 1 && (#[trigger] b[g]) <= x < b[g + 1],
    decreases k,
{
    if b[k - 1] <= x {
        let g = k - 1;
        assert(0 <= g < b.len() - 1 && b[g] <= x < b[g + 1]);
    } else {
        lemma_region_exists(b, x, k - 1);
    }
}

/// Ranks that part the values at rising indices rise.
pub proof fn lemma_ranks_rise(
    j: Seq<Jump>,
    n_nodes: int,
    n_leaves: int,
    w: Spans,
    c1: int,
    r1: int,
    c2: int,
    r2: int,
)
    requires
        inv(j, n_nodes, n_leaves, w),
        parts_ranks(j, n_leaves, c1, r1),
        parts_ranks(j, n_leaves, c2, r2),
        c1 <= c2,
    ensures
        0 <= r1 <= r2 <= n_leaves,
{
    reveal(parts_ranks);
    if r2 < r1 {
        reveal(inv_leaves);
        let x = w.leaf_owner[r2];
        assert(0 <= x < j.len() && j[x].next_major_node.leaf() == Some(r2));
    }
}

/// A region has its middle between its start and the next start, and so have
/// its ranks.
proof fn lemma_framed_bounds(
    j: Seq<Jump>,
    n_nodes: int,
    n_leaves: int,
    w: Spans,
    i: int,
    b: Seq<int>,
    m: Seq<int>,
    rb: Seq<int>,
    rm: Seq<int>,
    g: int,
)
    requires
        inv(j, n_nodes, n_leaves, w),
        0 <= i < j.len(),
        region_starts(j, i, b, m),
        region_ranks(j, n_leaves, b, m, rb, rm),
        0 <= g < b.len(),
    ensures
        b[g] <= m[g] <= j.len(),
        0 <= rb[g] <= rm[g] <= n_leaves,
        g + 1 < b.len() ==> m[g] <= b[g + 1] && b[g] < b[g + 1] && rm[g] <= rb[g + 1],
{
    lemma_starts(j, i, b, m);
    if g + 1 < b.len() {
        lemma_start(j, i, b, m, g);
        lemma_start_rank(j, n_leaves, b, m, rb, rm, g + 1);
        lemma_start_rank(j, n_leaves, b, m, rb, rm, g);
        lemma_ranks_rise(j, n_nodes, n_leaves, w, m[g], rm[g], b[g + 1], rb[g + 1]);
    } else {
        lemma_start(j, i, b, m, g - 1);
    }
    lemma_start_rank(j, n_leaves, b, m, rb, rm, g);
    lemma_ranks_rise(j, n_nodes, n_leaves, w, b[g], rb[g], m[g], rm[g]);
}

/// The regions that were computed cover the table from `i` on.
proof fn lemma_regions_framed(
    j: Seq<Jump>,
    n_nodes: int,
    n_leaves: int,
    w: Spans,
    i: int,
    pos: int,
    b: Seq<int>,
    m: Seq<int>,
    rb: Seq<int>,
    rm: Seq<int>,
)
    requires
        inv(j, n_nodes, n_leaves, w),
        0 <= i < j.len(),
        region_starts(j, i, b, m),
        region_ranks(j, n_leaves, b, m, rb, rm),
    ensures
        split_of(j.len() as int, i, pos, b, m, rb, rm).framed(j.len() as int, n_leaves),
{
    let len = j.len() as int;
    let s = split_of(len, i, pos, b, m, rb, rm);
    lemma_starts(j, i, b, m);
    lemma_start_rank(j, n_leaves, b, m, rb, rm, 0);
    assert forall|g: int| 0 <= g <= s.regions() implies #[trigger] s.region_ok(
        len,
        n_leaves,
        g,
    ) by {
        lemma_framed_bounds(j, n_nodes, n_leaves, w, i, b, m, rb, rm, g);
    }
    assert forall|x: int| s.i <= x < len implies #[trigger] s.reg_ok(x) by {
        lemma_region_of(j, i, b, m, x);
    }
    reveal(Split::framed);
}

/// The parent of a record lies one region before the record, on the same
/// side.
proof fn lemma_regions_parent(
    j: Seq<Jump>,
    n_nodes: int,
    n_leaves: int,
    w: Spans,
    i: int,
    pos: int,
    b: Seq<int>,
    m: Seq<int>,
    rb: Seq<int>,
    rm: Seq<int>,
    x: int,
)
    requires
        inv(j, n_nodes, n_leaves, w),
        0 <= i < j.len(),
        region_starts(j, i, b, m),
        1 <= x < j.len(),
    ensures
        ({
            let s = split_of(j.len() as int, i, pos, b, m, rb, rm);
            let p = j[x].parent_jump_index as int;
            if x < s.b[1] {
                p < s.i
            } else {
                &&& p >= s.i
                &&& s.reg[p] == s.reg[x] - 1
                &&& s.below(x) == s.below(p)
            }
        }),
{
    let s = split_of(j.len() as int, i, pos, b, m, rb, rm);
    let p = j[x].parent_jump_index as int;
    assert(0 <= p < x) by {
        reveal(inv_basic);
    }
    reveal(parts);
    lemma_starts(j, i, b, m);
    lemma_start(j, i, b, m, 0);
    if x >= s.b[1] {
        lemma_region_of(j, i, b, m, x);
        let g = s.reg[x];
        assert(g >= 1);
        lemma_start(j, i, b, m, g - 1);
        lemma_start(j, i, b, m, g);
        assert(b[g - 1] <= p < b[g]);
        lemma_rising(j, i, b, m, 0, g - 1);
        lemma_region_is(j, i, b, m, p, g - 1);
    }
}

/// The rank of a value lies among the ranks of the region of its record, on
/// the same side.
proof fn lemma_regions_rank(
    j: Seq<Jump>,
    n_nodes: int,
    n_leaves: int,
    w: Spans,
    i: int,
    pos: int,
    b: Seq<int>,
    m: Seq<int>,
    rb: Seq<int>,
    rm: Seq<int>,
    x: int,
)
    requires
        inv(j, n_nodes, n_leaves, w),
        0 <= i < j.len(),
        region_starts(j, i, b, m),
        region_ranks(j, n_leaves, b, m, rb, rm),
        0 <= x < j.len(),
        j[x].next_major_node.leaf().is_some(),
    ensures
        ({
            let s = split_of(j.len() as int, i, pos, b, m, rb, rm);
            let v = j[x].next_major_node.leaf().unwrap();
            if x < s.i {
                v < s.rb[0]
            } else {
                &&& s.rb[s.reg[x]] <= v < s.rb[s.reg[x] + 1]
                &&& s.below(x) == (v < s.rm[s.reg[x]])
            }
        }),
{
    let s = split_of(j.len() as int, i, pos, b, m, rb, rm);
    reveal(parts_ranks);
    lemma_starts(j, i, b, m);
    lemma_start(j, i, b, m, 0);
    lemma_start_rank(j, n_leaves, b, m, rb, rm, 0);
    if x >= s.i {
        lemma_region_of(j, i, b, m, x);
        let g = s.reg[x];
        lemma_start_rank(j, n_leaves, b, m, rb, rm, g);
        lemma_start_rank(j, n_leaves, b, m, rb, rm, g + 1);
    }
}

/// The regions that were computed for a cut fit it.
pub proof fn lemma_regions(
    j: Seq<Jump>,
    n_nodes: int,
    n_leaves: int,
    w: Spans,
    i: int,
    pos: int,
    b: Seq<int>,
    m: Seq<int>,
    rb: Seq<int>,
    rm: Seq<int>,
)
    requires
        inv(j, n_nodes, n_leaves, w),
        0 <= i < j.len(),
        j.len() + 1 < isize::MAX,
        n_leaves <= usize::MAX,
        j[i].jump_to_node <= pos < j[i].major(),
        region_starts(j, i, b, m),
        region_ranks(j, n_leaves, b, m, rb, rm),
    ensures
        split_of(j.len() as int, i, pos, b, m, rb, rm).fits(j, n_nodes, n_leaves, w),
{
    let len = j.len() as int;
    let s = split_of(len, i, pos, b, m, rb, rm);
    lemma_regions_framed(j, n_nodes, n_leaves, w, i, pos, b, m, rb, rm);
    assert forall|x: int| 1 <= x < j.len() implies ({
        let p = (#[trigger] j[x]).parent_jump_index as int;
        if x < s.b[1] {
            p < s.i
        } else {
            &&& p >= s.i
            &&& s.reg[p] == s.reg[x] - 1
            &&& s.below(x) == s.below(p)
        }
    }) by {
        lemma_regions_parent(j, n_nodes, n_leaves, w, i, pos, b, m, rb, rm, x);
    }
    assert forall|x: int| 0 <= x < j.len() implies match (
    #[trigger] j[x]).next_major_node.leaf() {
        Some(v) => if x < s.i {
            v < s.rb[0]
        } else {
            &&& s.rb[s.reg[x]] <= v < s.rb[s.reg[x] + 1]
            &&& s.below(x) == (v < s.rm[s.reg[x]])
        },
        None => true,
    } by {
        if j[x].next_major_node.leaf().is_some() {
            lemma_regions_rank(j, n_nodes, n_leaves, w, i, pos, b, m, rb, rm, x);
        }
    }
    reveal(Split::fits);
}

/// Puts the values in the order of the table after the cut: in every region
/// the values of the records that moved down change places with the others.
fn cut_leaves<L>(
    leaves: &mut Vec<L>,
    rb: &Vec<usize>,
    rm: &Vec<usize>,
    Ghost(s): Ghost<Split>,
    Ghost(j): Ghost<Seq<Jump>>,
    Ghost(n_nodes): Ghost<int>,
    Ghost(w): Ghost<Spans>,
)
    requires
        inv(j, n_nodes, old(leaves)@.len() as int, w),
        s.fits(j, n_nodes, old(leaves)@.len() as int, w),
        s.rb == ints(rb@),
        s.rm == ints(rm@),
    ensures
        final(leaves)@ == s.leaves(old(leaves)@, w),
{
    let ghost old_leaves = leaves@;
    let ghost nl = old_leaves.len() as int;
    let ghost len = j.len() as int;
    let ghost target = s.leaves(old_leaves, w);
    proof {
        s.lemma_cut(j, n_nodes, nl, w);
        s.lemma_region(len, nl, s.i);
        assert(s.rb.len() == rb.len() && s.rm.len() == rm.len());
        assert forall|r: int| 0 <= r < ints(rb@)[0] && r < nl implies leaves@[r] == target[r] by {
            s.lemma_leaves_low(j, n_nodes, old_leaves, w, r);
        }
    }
    let mut g: usize = 0;
    while g + 1 < rb.len()
        invariant
            g + 1 <= rb.len(),
            rm.len() == rb.len(),
            s.regions() == rb.len() - 1,
            inv(j, n_nodes, nl, w),
            s.fits(j, n_nodes, nl, w),
            s.framed(len, nl),
            len == j.len(),
            s.rb == ints(rb@),
            s.rm == ints(rm@),
            nl == old_leaves.len(),
            target == s.leaves(old_leaves, w),
            leaves@.len() == nl,
            rb@[g as int] <= nl,
            forall|r: int| 0 <= r < rb@[g as int] ==> leaves@[r] == target[r],
            forall|r: int| rb@[g as int] <= r < nl ==> leaves@[r] == old_leaves[r],
        decreases rb.len() - g,
    {
        let lo: usize = rb[g];
        let mid: usize = rm[g];
        let hi: usize = rb[g + 1];
        proof {
            s.lemma_bounds(len, nl, g as int);
            assert(ints(rb@)[g as int] == lo && ints(rm@)[g as int] == mid && ints(rb@)[g + 1]
                == hi);
        }
        let ghost before = leaves@;
        let mut tail = leaves.split_off(hi);
        let mut rest = leaves.split_off(mid);
        let mut moved = leaves.split_off(lo);
        leaves.append(&mut rest);
        leaves.append(&mut moved);
        leaves.append(&mut tail);
        proof {
            assert(leaves@.len() == nl);
            assert forall|r: int| 0 <= r < hi implies leaves@[r] == target[r] by {
                if r >= lo {
                    s.lemma_leaves_in(j, n_nodes, old_leaves, w, g as int, r);
                    let a = s.source_rank(g as int, r);
                    assert(leaves@[r] == before[a]);
                } else {
                    assert(leaves@[r] == before[r]);
                }
            }
            assert forall|r: int| hi <= r < nl implies leaves@[r] == old_leaves[r] by {
                assert(leaves@[r] == before[r]);
            }
        }
        g += 1;
    }
    proof {
        assert(ints(rb@)[g as int] == rb@[g as int]);
        assert forall|r: int| 0 <= r < nl implies leaves@[r] == target[r] by {
            s.lemma_leaves_low(j, n_nodes, old_leaves, w, r);
        }
        assert(leaves@ =~= target);
    }
}

impl<N, L> RawTrie<N, L> {
    /// The region starts and middles for a cut of record `i`.
    pub(crate) fn region_starts(&self, i: usize) -> (r: (Vec<usize>, Vec<usize>))
        requires
            self.wf(),
            i < self.jumps@.len(),
        ensures
            region_starts(self.jumps@, i as int, ints(r.0@), ints(r.1@)),
    {
        let ghost w = self.spans();
        let ghost j = self.jumps@;
        let len: usize = self.jumps.len();
        let mut b: Vec<usize> = Vec::new();
        let mut m: Vec<usize> = Vec::new();
        b.push(i);
        m.push(i + 1);
        let mut lo: usize = i;
        let mut mid: usize = i + 1;
        proof {
            reveal(inv_basic);
            assert(ints(b@) =~= seq![i as int]);
            assert(ints(m@) =~= seq![i as int + 1]);
            assert(start_ok(j, ints(b@), ints(m@), 0));
        }
        loop
            invariant_except_break
                self.inv(w),
                j == self.jumps@,
                len == j.len(),
                b@.len() >= 1,
                m@.len() == b@.len(),
                b@[0] == i,
                m@[0] == i + 1,
                lo == b@[b@.len() - 1],
                mid == m@[m@.len() - 1],
                lo < len,
                lo <= mid <= len,
                b@.len() == 1 ==> mid == lo + 1,
                steps(j, ints(b@), ints(m@)),
            ensures
                region_starts(j, i as int, ints(b@), ints(m@)),
            decreases len - lo,
        {
            let nb: usize = self.lower(lo);
            let nm: usize = self.lower(mid);
            proof {
                reveal(inv_basic);
                // The next start lies behind this one and its middle.
                let bi = ints(b@);
                let mi = ints(m@);
                if nb < mid {
                    assert(j[nb as int].parent_jump_index >= lo);
                    assert(j[nb as int].parent_jump_index < nb);
                    if b@.len() >= 2 {
                        let g = b@.len() - 2;
                        let h = b@.len() - 1;
                        assert(start_ok(j, bi, mi, g));
                        assert(parts(j, mi[g], mi[h]));
                        assert(mi[h] == mid && bi[h] == lo);
                        assert(j[nb as int].parent_jump_index < mi[g]) by {
                            reveal(parts);
                        }
                    }
                    assert(false);
                }
                if nb <= lo {
                    assert(j[nb as int].parent_jump_index >= lo);
                    assert(false);
                }
                if nm < nb {
                    assert(j[nm as int].parent_jump_index >= mid);
                    assert(j[nm as int].parent_jump_index < lo);
                    assert(false);
                }
                assert(parts(j, lo as int, nb as int)) by {
                    reveal(parts);
                }
                assert(parts(j, mid as int, nm as int)) by {
                    reveal(parts);
                }
                assert(bi[bi.len() - 1] == lo && mi[mi.len() - 1] == mid);
                lemma_step(j, bi, mi, nb as int, nm as int);
                assert(ints(b@.push(nb)) =~= bi.push(nb as int));
                assert(ints(m@.push(nm)) =~= mi.push(nm as int));
            }
            b.push(nb);
            m.push(nm);
            if nb == len {
                proof {
                    reveal(region_starts);
                    assert(region_starts(j, i as int, ints(b@), ints(m@)));
                }
                break;
            }
            lo = nb;
            mid = nm;
        }
        (b, m)
    }

    /// The ranks at the region starts and middles.
    pub(crate) fn region_ranks(&self, b: &Vec<usize>, m: &Vec<usize>) -> (r: (Vec<usize>, Vec<usize>))
        requires
            self.wf(),
            m@.len() == b@.len(),
            forall|g: int| 0 <= g < b@.len() ==> (#[trigger] b@[g]) <= m@[g] <= self.jumps@.len(),
        ensures
            region_ranks(
                self.jumps@,
                self.leaves@.len() as int,
                ints(b@),
                ints(m@),
                ints(r.0@),
                ints(r.1@),
            ),
    {
        let ghost j = self.jumps@;
        let ghost nl = self.leaves@.len() as int;
        let mut rb: Vec<usize> = Vec::new();
        let mut rm: Vec<usize> = Vec::new();
        let mut g: usize = 0;
        while g < b.len()
            invariant
                self.wf(),
                j == self.jumps@,
                nl == self.leaves@.len(),
                m@.len() == b@.len(),
                forall|k: int| 0 <= k < b@.len() ==> (#[trigger] b@[k]) <= m@[k] <= j.len(),
                g <= b@.len(),
                rb@.len() == g,
                rm@.len() == g,
                forall|k: int|
                    0 <= k < g ==> #[trigger] rank_ok(
                        j,
                        nl,
                        ints(b@),
                        ints(m@),
                        ints(rb@),
                        ints(rm@),
                        k,
                    ),
            decreases b@.len() - g,
        {
            assert(b@[g as int] <= m@[g as int] <= j.len());
            let x: usize = self.rank_from(b[g]);
            let y: usize = self.rank_from(m[g]);
            let ghost rb0 = rb@;
            let ghost rm0 = rm@;
            rb.push(x);
            rm.push(y);
            proof {
                assert forall|k: int| 0 <= k < g + 1 implies #[trigger] rank_ok(
                    j,
                    nl,
                    ints(b@),
                    ints(m@),
                    ints(rb@),
                    ints(rm@),
                    k,
                ) by {
                    if k < g {
                        assert(rank_ok(j, nl, ints(b@), ints(m@), ints(rb0), ints(rm0), k));
                        assert(ints(rb@)[k] == ints(rb0)[k]);
                        assert(ints(rm@)[k] == ints(rm0)[k]);
                    } else {
                        reveal(parts_ranks);
                        assert(ints(b@)[k] == b@[k] && ints(m@)[k] == m@[k]);
                        assert(ints(rb@)[k] == x && ints(rm@)[k] == y);
                    }
                }
            }
            g += 1;
        }
        proof {
            reveal(region_ranks);
            assert(region_ranks(j, nl, ints(b@), ints(m@), ints(rb@), ints(rm@)));
        }
        (rb, rm)
    }

    /// The record at old index `x`, which lies in region `g`, as it stands
    /// after the cut.
    fn image_of(
        &self,
        x: usize,
        g: usize,
        below: bool,
        i: usize,
        pos: isize,
        b: &Vec<usize>,
        m: &Vec<usize>,
        rb: &Vec<usize>,
        rm: &Vec<usize>,
        Ghost(s): Ghost<Split>,
        Ghost(w): Ghost<Spans>,
    ) -> (r: Jump)
        requires
            self.inv(w),
            s == split_of(
                self.jumps@.len() as int,
                i as int,
                pos as int,
                ints(b@),
                ints(m@),
                ints(rb@),
                ints(rm@),
            ),
            s.fits(self.jumps@, self.nodes@.len() as int, self.leaves@.len() as int, w),
            i <= x < self.jumps@.len(),
            s.reg[x as int] == g,
            below == s.below(x as int),
        ensures
            r == s.image(self.jumps@, x as int),
    {
        let ghost j = self.jumps@;
        let ghost nn = self.nodes@.len() as int;
        let ghost nl = self.leaves@.len() as int;
        let ghost len = j.len() as int;
        let rec = self.jumps[x];
        proof {
            s.lemma_cut(j, nn, nl, w);
            s.lemma_region(len, nl, x as int);
            lemma_bounded(j, nn, nl, w, x as int);
            assert(s.b.len() == b@.len() && s.m.len() == m@.len());
            assert(s.rb.len() == rb@.len() && s.rm.len() == rm@.len());
            assert(g + 1 < b.len());
            assert(ints(b@)[g as int] == b@[g as int]);
            assert(ints(m@)[g as int] == m@[g as int]);
            assert(ints(b@)[g + 1] == b@[g + 1]);
            assert(ints(rb@)[g as int] == rb@[g as int]);
            assert(ints(rm@)[g as int] == rm@[g as int]);
            assert(ints(rb@)[g + 1] == rb@[g + 1]);
            if rec.next_major_node.leaf().is_some() {
                s.lemma_rank(j, nn, nl, w, x as int);
            }
            match rec.next_major_node.child() {
                Some(c) => {
                    assert(x < c < len && j[c].parent_jump_index == x) by {
                        reveal(inv_links);
                    }
                    s.lemma_parent(j, nn, nl, w, c);
                    s.lemma_region(len, nl, c);
                    assert(g + 2 < b.len());
                    assert(ints(b@)[g + 2] == b@[g + 2]);
                    assert(ints(b@)[g + 1] == b@[g + 1]);
                    assert(ints(m@)[g + 1] == m@[g + 1]);
                },
                None => {},
            }
            if x != i {
                s.lemma_parent(j, nn, nl, w, x as int);
                let p = j[x as int].parent_jump_index as int;
                if g >= 1 {
                    s.lemma_region(len, nl, p);
                    assert(ints(b@)[g - 1] == b@[g - 1]);
                    assert(ints(m@)[g - 1] == m@[g - 1]);
                }
            }
        }
        let g1: usize = g + 1;
        let major = match rec.next_major_node {
            MajorNode::LeafJump { leaf_index, child_jump_index } => MajorNode::LeafJump {
                leaf_index: if below {
                    leaf_index + (rb[g1] - rm[g])
                } else {
                    leaf_index - (rm[g] - rb[g])
                },
                child_jump_index: if below {
                    child_jump_index + 1 + (b[g1 + 1] - m[g1])
                } else {
                    child_jump_index + 1 - (m[g1] - b[g1])
                },
            },
            MajorNode::Leaf { leaf_index: Some(v) } => MajorNode::Leaf {
                leaf_index: Some(
                    if below {
                        v + (rb[g1] - rm[g])
                    } else {
                        v - (rm[g] - rb[g])
                    },
                ),
            },
            MajorNode::Leaf { leaf_index: None } => rec.next_major_node,
            MajorNode::Jump { child_jump_index } => MajorNode::Jump {
                child_jump_index: if below {
                    child_jump_index + 1 + (b[g1 + 1] - m[g1])
                } else {
                    child_jump_index + 1 - (m[g1] - b[g1])
                },
            },
        };
        if x == i {
            let skip: isize = pos + 1 - rec.jump_to_node;
            Jump {
                parent_jump_index: i as isize,
                jump_to_node: pos + 1,
                next_major_node_dist: rec.next_major_node_dist - skip as usize,
                next_major_node: major,
                depth: rec.depth + skip,
            }
        } else {
            let p: usize = rec.parent_jump_index as usize;
            Jump {
                parent_jump_index: if g == 0 {
                    rec.parent_jump_index
                } else if below {
                    (p + 1 + (b[g] - m[g - 1])) as isize
                } else {
                    (p + 1 - (m[g - 1] - b[g - 1])) as isize
                },
                jump_to_node: rec.jump_to_node,
                next_major_node_dist: rec.next_major_node_dist,
                next_major_node: major,
                depth: rec.depth,
            }
        }
    }

    /// The jump table after the cut.
    fn cut_table(
        &self,
        i: usize,
        pos: isize,
        b: &Vec<usize>,
        m: &Vec<usize>,
        rb: &Vec<usize>,
        rm: &Vec<usize>,
        Ghost(s): Ghost<Split>,
        Ghost(w): Ghost<Spans>,
    ) -> (out: Vec<Jump>)
        requires
            self.inv(w),
            s == split_of(
                self.jumps@.len() as int,
                i as int,
                pos as int,
                ints(b@),
                ints(m@),
                ints(rb@),
                ints(rm@),
            ),
            s.fits(self.jumps@, self.nodes@.len() as int, self.leaves@.len() as int, w),
        ensures
            out@ == s.table(self.jumps@),
    {
        let ghost j = self.jumps@;
        let ghost nn = self.nodes@.len() as int;
        let ghost nl = self.leaves@.len() as int;
        let ghost len = j.len() as int;
        let ghost t = s.table(j);
        proof {
            s.lemma_cut(j, nn, nl, w);
            s.lemma_region(len, nl, i as int);
            assert(s.b.len() == b.len() && s.m.len() == m.len());
        }
        let mut out: Vec<Jump> = Vec::new();
        let mut x: usize = 0;
        while x < i
            invariant
                x <= i < len,
                len == j.len(),
                j == self.jumps@,
                nn == self.nodes@.len(),
                nl == self.leaves@.len(),
                self.inv(w),
                s.fits(j, nn, nl, w),
                s.i == i,
                t == s.table(j),
                out@.len() == x,
                forall|y: int| 0 <= y < out@.len() ==> out@[y] == t[y],
            decreases i - x,
        {
            proof {
                s.lemma_prefix(j, nn, nl, w, x as int);
            }
            out.push(self.jumps[x]);
            x += 1;
        }
        let rec = self.jumps[i];
        proof {
            lemma_bounded(j, nn, nl, w, i as int);
            assert(ints(b@)[1] == b@[1]);
            s.lemma_field(j, nn, nl, w, i as int);
        }
        out.push(
            Jump {
                parent_jump_index: rec.parent_jump_index,
                jump_to_node: rec.jump_to_node,
                next_major_node_dist: (pos - rec.jump_to_node) as usize,
                next_major_node: MajorNode::Jump { child_jump_index: b[1] },
                depth: rec.depth,
            },
        );
        let mut g: usize = 0;
        while g + 1 < b.len()
            invariant
                g + 1 <= b.len(),
                len == j.len(),
                j == self.jumps@,
                nn == self.nodes@.len(),
                nl == self.leaves@.len(),
                self.inv(w),
                s.fits(j, nn, nl, w),
                s.framed(len, nl),
                s == split_of(len, i as int, pos as int, ints(b@), ints(m@), ints(rb@), ints(rm@)),
                s.b.len() == b.len(),
                s.m.len() == m.len(),
                m.len() == b.len(),
                t == s.table(j),
                out@.len() == b@[g as int] + 1,
                forall|y: int| 0 <= y < out@.len() ==> out@[y] == t[y],
            decreases b.len() - g,
        {
            proof {
                assert(ints(b@)[g as int] == b@[g as int]);
                assert(ints(m@)[g as int] == m@[g as int]);
                assert(ints(b@)[g + 1] == b@[g + 1]);
                s.lemma_bounds(len, nl, g as int);
            }
            let mut x: usize = m[g];
            while x < b[g + 1]
                invariant
                    g + 1 < b.len(),
                    m@[g as int] <= x <= b@[g + 1],
                    b@[g as int] <= m@[g as int] <= b@[g + 1] <= len,
                    len == j.len(),
                    j == self.jumps@,
                    nn == self.nodes@.len(),
                    nl == self.leaves@.len(),
                    self.inv(w),
                    s.fits(j, nn, nl, w),
                    s.framed(len, nl),
                    s == split_of(
                        len,
                        i as int,
                        pos as int,
                        ints(b@),
                        ints(m@),
                        ints(rb@),
                        ints(rm@),
                    ),
                    s.b.len() == b.len(),
                    s.m.len() == m.len(),
                    m.len() == b.len(),
                    t == s.table(j),
                    out@.len() == b@[g as int] + 1 + (x - m@[g as int]),
                    forall|y: int| 0 <= y < out@.len() ==> out@[y] == t[y],
                decreases b@[g + 1] - x,
            {
                proof {
                    assert(ints(b@)[g as int] == b@[g as int]);
                    assert(ints(m@)[g as int] == m@[g as int]);
                    assert(ints(b@)[g + 1] == b@[g + 1]);
                    s.lemma_in_region(len, nl, g as int, x as int);
                    s.lemma_region(len, nl, x as int);
                    s.lemma_cut(j, nn, nl, w);
                }
                let r = self.image_of(x, g, false, i, pos, b, m, rb, rm, Ghost(s), Ghost(w));
                out.push(r);
                x += 1;
            }
            let mut x: usize = b[g];
            while x < m[g]
                invariant
                    g + 1 < b.len(),
                    b@[g as int] <= x <= m@[g as int],
                    b@[g as int] <= m@[g as int] <= b@[g + 1] <= len,
                    len == j.len(),
                    j == self.jumps@,
                    nn == self.nodes@.len(),
                    nl == self.leaves@.len(),
                    self.inv(w),
                    s.fits(j, nn, nl, w),
                    s.framed(len, nl),
                    s == split_of(
                        len,
                        i as int,
                        pos as int,
                        ints(b@),
                        ints(m@),
                        ints(rb@),
                        ints(rm@),
                    ),
                    s.b.len() == b.len(),
                    s.m.len() == m.len(),
                    m.len() == b.len(),
                    t == s.table(j),
                    out@.len() == b@[g as int] + 1 + (b@[g + 1] - m@[g as int]) + (x
                        - b@[g as int]),
                    forall|y: int| 0 <= y < out@.len() ==> out@[y] == t[y],
                decreases m@[g as int] - x,
            {
                proof {
                    assert(ints(b@)[g as int] == b@[g as int]);
                    assert(ints(m@)[g as int] == m@[g as int]);
                    assert(ints(b@)[g + 1] == b@[g + 1]);
                    s.lemma_in_region(len, nl, g as int, x as int);
                    s.lemma_region(len, nl, x as int);
                    s.lemma_cut(j, nn, nl, w);
                }
                let r = self.image_of(x, g, true, i, pos, b, m, rb, rm, Ghost(s), Ghost(w));
                out.push(r);
                x += 1;
            }
            g += 1;
        }
        proof {
            assert(ints(b@)[g as int] == b@[g as int]);
            assert(out@.len() == len + 1);
            assert(out@ =~= t);
        }
        out
    }

    /// The cut of the run under `cursor` behind the cursor.
    pub open spec fn cut(&self, cursor: RawCursor) -> Split {
        cut_at(
            self.jumps@,
            self.leaves@.len() as int,
            cursor.parent_jump_index as int,
            cursor.node_index as int,
        )
    }

    /// Cuts the run under `cursor` behind it, so that the cursor comes to sit
    /// on a major node. The tree stays the same.
    pub(crate) fn split_run(&mut self, cursor: RawCursor)
        requires
            old(self).wf(),
            old(self).valid_cursor(cursor),
            !old(self).at_major(cursor),
            old(self).jumps@.len() + 1 < isize::MAX,
        ensures
            final(self).wf(),
            final(self)@ == old(self)@,
            final(self).nodes@ == old(self).nodes@,
            final(self).jumps@.len() == old(self).jumps@.len() + 1,
            final(self).leaves@.len() == old(self).leaves@.len(),
            final(self).valid_cursor(cursor),
            final(self).at_major(cursor),
            final(self).jumps@[cursor.parent_jump_index as int].next_major_node.child().is_some(),
            final(self).jumps@ == old(self).cut(cursor).table(old(self).jumps@),
            final(self).leaves@ == old(self).cut(cursor).leaves(
                old(self).leaves@,
                old(self).spans(),
            ),
    {
        let ghost w = self.spans();
        let ghost j = self.jumps@;
        let ghost nn = self.nodes@.len() as int;
        let ghost nl = self.leaves@.len() as int;
        let ghost leaves0 = self.leaves@;
        let i: usize = cursor.parent_jump_index;
        let pos: isize = cursor.node_index;
        let (b, m) = self.region_starts(i);
        proof {
            lemma_starts(j, i as int, ints(b@), ints(m@));
            assert forall|g: int| 0 <= g < b@.len() implies (#[trigger] b@[g]) <= m@[g]
                <= j.len() by {
                assert(ints(b@)[g] == b@[g] && ints(m@)[g] == m@[g]);
                if g + 1 < b@.len() {
                    lemma_start(j, i as int, ints(b@), ints(m@), g);
                } else {
                    lemma_start(j, i as int, ints(b@), ints(m@), g - 1);
                }
            }
        }
        let (rb, rm) = self.region_ranks(&b, &m);
        let ghost s = split_of(
            j.len() as int,
            i as int,
            pos as int,
            ints(b@),
            ints(m@),
            ints(rb@),
            ints(rm@),
        );
        proof {
            assert(nl <= usize::MAX) by {
                assert(self.leaves.len() == nl);
            }
            lemma_regions(
                j,
                nn,
                nl,
                w,
                i as int,
                pos as int,
                ints(b@),
                ints(m@),
                ints(rb@),
                ints(rm@),
            );
            lemma_cut_at(
                j,
                nn,
                nl,
                w,
                i as int,
                pos as int,
                ints(b@),
                ints(m@),
                ints(rb@),
                ints(rm@),
            );
            assert(s == self.cut(cursor));
        }
        let table = self.cut_table(i, pos, &b, &m, &rb, &rm, Ghost(s), Ghost(w));
        cut_leaves(&mut self.leaves, &rb, &rm, Ghost(s), Ghost(j), Ghost(nn), Ghost(w));
        self.jumps = table;
        proof {
            s.lemma_split(j, nn, nl, w);
            s.lemma_listing(self.nodes@, j, leaves0, w);
            s.lemma_field(j, nn, nl, w, i as int);
            assert(self.inv(s.spans(j, nn, nl, w)));
        }
    }
}

} // verus!
