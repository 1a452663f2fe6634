//! The mathematical model of a trie: its nodes listed in preorder, each with
//! its depth and its optional value.
//!
//! A listing determines the tree. The subtree of a position is the longest
//! stretch of deeper positions that follows it, and the children of a position
//! are the positions of its subtree that lie exactly one level below it.

use vstd::prelude::*;

verus! {

/// One node of the listing.
pub struct Entry<N, L> {
    pub key: N,
    pub depth: int,
    pub value: Option<L>,
}

/// Depth of position `pos`; the virtual root, at `-1`, has depth `-1`.
pub open spec fn depth_at<N, L>(s: Seq<Entry<N, L>>, pos: int) -> int {
    if pos < 0 {
        -1
    } else {
        s[pos].depth
    }
}

/// Every position after `pos` up to `e` lies deeper than `pos`.
pub open spec fn within<N, L>(s: Seq<Entry<N, L>>, pos: int, e: int) -> bool {
    &&& -1 <= pos <= e < s.len()
    &&& forall|m: int| pos < m <= e ==> (#[trigger] s[m]).depth > depth_at(s, pos)
}

/// `e` is the last position of the subtree of `pos`.
pub open spec fn is_subtree_end<N, L>(s: Seq<Entry<N, L>>, pos: int, e: int) -> bool {
    &&& within(s, pos, e)
    &&& e + 1 < s.len() ==> s[e + 1].depth <= depth_at(s, pos)
}

/// The last position of the subtree of `pos`.
pub open spec fn subtree_end<N, L>(s: Seq<Entry<N, L>>, pos: int) -> int {
    choose|e: int| is_subtree_end(s, pos, e)
}

/// `c` is a child of `pos`.
pub open spec fn is_child<N, L>(s: Seq<Entry<N, L>>, pos: int, c: int) -> bool {
    &&& pos < c <= subtree_end(s, pos)
    &&& s[c].depth == depth_at(s, pos) + 1
}

/// `d` lies in the subtree of `pos`, `pos` itself included.
pub open spec fn is_descendant<N, L>(s: Seq<Entry<N, L>>, pos: int, d: int) -> bool {
    pos <= d <= subtree_end(s, pos)
}

/// `p` is the parent of `c`: the nearest earlier position one level up.
pub open spec fn is_parent<N, L>(s: Seq<Entry<N, L>>, c: int, p: int) -> bool {
    &&& -1 <= p < c < s.len()
    &&& depth_at(s, p) == s[c].depth - 1
    &&& forall|m: int| p < m < c ==> (#[trigger] s[m]).depth >= s[c].depth
}

/// A chain of single children: `keys[0]` at depth `depth`, each next key one
/// level deeper, the value on the last.
pub open spec fn chain<N, L>(keys: Seq<N>, depth: int, value: Option<L>) -> Seq<Entry<N, L>> {
    Seq::new(
        keys.len(),
        |k: int|
            Entry {
                key: keys[k],
                depth: depth + k,
                value: if k == keys.len() - 1 {
                    value
                } else {
                    None
                },
            },
    )
}

/// The listing after `keys` became the new last child chain of `pos`.
pub open spec fn inserted<N, L>(
    s: Seq<Entry<N, L>>,
    pos: int,
    keys: Seq<N>,
    value: Option<L>,
) -> Seq<Entry<N, L>> {
    let e = subtree_end(s, pos);
    s.subrange(0, e + 1) + chain(keys, depth_at(s, pos) + 1, value) + s.subrange(
        e + 1,
        s.len() as int,
    )
}

/// The listing after the subtree of `pos` was cut out.
pub open spec fn pruned<N, L>(s: Seq<Entry<N, L>>, pos: int) -> Seq<Entry<N, L>> {
    s.subrange(0, pos) + s.subrange(subtree_end(s, pos) + 1, s.len() as int)
}

/// The subtree of a position has one end only.
pub proof fn lemma_subtree_end_unique<N, L>(s: Seq<Entry<N, L>>, pos: int, e: int)
    requires
        is_subtree_end(s, pos, e),
    ensures
        subtree_end(s, pos) == e,
{
    let f = subtree_end(s, pos);
    assert(is_subtree_end(s, pos, f));
    if f < e {
        assert(s[f + 1].depth > depth_at(s, pos));
    }
    if e < f {
        assert(s[e + 1].depth > depth_at(s, pos));
    }
}

/// A stretch of deeper positions ends no later than the subtree.
pub proof fn lemma_within_end<N, L>(s: Seq<Entry<N, L>>, pos: int, e: int, end: int)
    requires
        within(s, pos, e),
        is_subtree_end(s, pos, end),
    ensures
        e <= end,
{
    if end < e {
        assert(s[end + 1].depth > depth_at(s, pos));
    }
}

/// The ancestor of `d` at depth `k`: the position of that depth whose
/// subtree holds `d`.
pub open spec fn ancestor_on<N, L>(s: Seq<Entry<N, L>>, d: int, k: int) -> int {
    choose|m: int| 0 <= m <= d && (#[trigger] s[m]).depth == k && within(s, m, d)
}

/// A position has one ancestor at each depth only.
pub proof fn lemma_ancestor_on<N, L>(s: Seq<Entry<N, L>>, d: int, k: int, m: int)
    requires
        0 <= m <= d,
        s[m].depth == k,
        within(s, m, d),
    ensures
        ancestor_on(s, d, k) == m,
{
    let a = ancestor_on(s, d, k);
    assert(0 <= a <= d && s[a].depth == k && within(s, a, d));
    if a < m {
        assert(s[m].depth > depth_at(s, a));
    }
    if m < a {
        assert(s[a].depth > depth_at(s, m));
    }
}

/// The parent of a position whose subtree holds `d` holds `d` too, and does
/// not lie before an ancestor `a` of the position.
pub proof fn lemma_parent_holds<N, L>(s: Seq<Entry<N, L>>, a: int, c: int, p: int, d: int)
    requires
        within(s, a, c),
        a < c,
        within(s, c, d),
        is_parent(s, c, p),
    ensures
        a <= p < c,
        within(s, p, d),
        p == a <==> s[c].depth == depth_at(s, a) + 1,
{
    assert(s[c].depth > depth_at(s, a));
    if p < a {
        assert(s[a].depth >= s[c].depth);
    }
    assert forall|m: int| p < m <= d implies (#[trigger] s[m]).depth > depth_at(s, p) by {
        if m < c {
            assert(s[m].depth >= s[c].depth);
        } else if m > c {
            assert(s[m].depth > depth_at(s, c));
        }
    }
    if s[c].depth == depth_at(s, a) + 1 && a < p {
        assert(s[p].depth > depth_at(s, a));
    }
}

/// `key` is the key of the ancestor of `d` at depth `k`, which lies
/// strictly between `a` and `d`.
pub open spec fn on_route<N, L>(s: Seq<Entry<N, L>>, a: int, d: int, k: int, key: N) -> bool {
    let m = ancestor_on(s, d, k);
    &&& a < m < d
    &&& within(s, m, d)
    &&& is_descendant(s, m, d)
    &&& key == s[m].key
}

/// As `on_route`, without the word on the subtree.
pub open spec fn on_way<N, L>(s: Seq<Entry<N, L>>, a: int, d: int, k: int, key: N) -> bool {
    let m = ancestor_on(s, d, k);
    &&& a < m < d
    &&& within(s, m, d)
    &&& key == s[m].key
}

} // verus!
