//! Thinning a sequence: which entries go, where the others come to stand,
//! and the call that takes the marked entries out of a vector.

use vstd::prelude::*;

verus! {

/// The number of entries before index `x` that stay.
pub open spec fn kept_before(gone: Seq<bool>, x: int) -> int
    decreases x,
{
    if x <= 0 {
        0
    } else {
        kept_before(gone, x - 1) + if gone[x - 1] {
            0int
        } else {
            1int
        }
    }
}

/// The index of the entry that comes to stand at `y`.
pub open spec fn origin_of(gone: Seq<bool>, y: int) -> int {
    choose|x: int| 0 <= x < gone.len() && !gone[x] && kept_before(gone, x) == y
}

/// A thinning of a sequence: the entries marked in `gone` leave, the entry
/// at `x` comes to stand at `idx[x]`, and the entry at `org[y]` is the one
/// that comes to stand at `y`.
pub struct Thin {
    pub gone: Seq<bool>,
    pub idx: Seq<int>,
    pub org: Seq<int>,
}

impl Thin {
    /// The thinning that `gone` describes.
    pub open spec fn of(gone: Seq<bool>) -> Thin {
        Thin {
            gone,
            idx: Seq::new(gone.len() + 1, |x: int| kept_before(gone, x)),
            org: Seq::new(kept_before(gone, gone.len() as int) as nat, |y: int| origin_of(gone, y)),
        }
    }

    /// The length before.
    pub open spec fn len(self) -> int {
        self.gone.len() as int
    }

    /// The length after.
    pub open spec fn rest(self) -> int {
        self.org.len() as int
    }

    /// The new index rises by one over an entry that stays.
    pub open spec fn step_ok(self, x: int) -> bool {
        self.idx[x + 1] == self.idx[x] + if self.gone[x] {
            0int
        } else {
            1int
        }
    }

    /// The entry named for `y` stays and comes to stand at `y`.
    pub open spec fn org_ok(self, y: int) -> bool {
        &&& 0 <= self.org[y] < self.gone.len()
        &&& !self.gone[self.org[y]]
        &&& self.idx[self.org[y]] == y
    }

    /// The thinning is consistent.
    #[verifier::opaque]
    pub open spec fn wf(self) -> bool {
        &&& self.idx.len() == self.gone.len() + 1
        &&& self.idx[0] == 0
        &&& self.org.len() == self.idx[self.gone.len() as int]
        &&& forall|x: int| 0 <= x < self.gone.len() ==> #[trigger] self.step_ok(x)
        &&& forall|y: int| 0 <= y < self.org.len() ==> #[trigger] self.org_ok(y)
    }

    /// The new indices rise from `x` to `y`, by no more than the old ones.
    proof fn lemma_up(self, x: int, y: int)
        requires
            self.wf(),
            0 <= x <= y <= self.len(),
        ensures
            self.idx[x] <= self.idx[y],
            self.idx[y] - self.idx[x] <= y - x,
            x < y && !self.gone[x] ==> self.idx[x] < self.idx[y],
        decreases y - x,
    {
        reveal(Thin::wf);
        if x < y {
            self.lemma_up(x, y - 1);
            assert(self.step_ok(y - 1));
        }
    }

    /// The new indices rise, by no more than the old ones.
    pub proof fn lemma_mono(self, x: int, y: int)
        requires
            self.wf(),
            0 <= x <= y <= self.len(),
        ensures
            0 <= self.idx[x] <= self.idx[y] <= self.rest(),
            self.idx[y] - self.idx[x] <= y - x,
            self.idx[x] <= x,
            x < y && !self.gone[x] ==> self.idx[x] < self.idx[y],
            self.idx.len() == self.len() + 1,
            self.rest() == self.idx[self.len()],
            self.rest() <= self.len(),
    {
        self.lemma_up(0, self.len());
        self.lemma_up(x, y);
        self.lemma_up(0, x);
        self.lemma_up(y, self.len());
        reveal(Thin::wf);
    }

    /// An entry that stays is the one named for its new index.
    pub proof fn lemma_kept(self, x: int)
        requires
            self.wf(),
            0 <= x < self.len(),
            !self.gone[x],
        ensures
            0 <= self.idx[x] < self.rest(),
            self.org[self.idx[x]] == x,
    {
        self.lemma_mono(x, x + 1);
        let y = self.idx[x];
        assert(self.org_ok(y)) by {
            reveal(Thin::wf);
        }
        let z = self.org[y];
        if z < x {
            self.lemma_mono(z, x);
        }
        if x < z {
            self.lemma_mono(x, z);
        }
    }

    /// The entry named for a new index stays; the entries between it and
    /// the next such entry leave.
    pub proof fn lemma_org(self, y: int)
        requires
            self.wf(),
            0 <= y < self.rest(),
        ensures
            self.org_ok(y),
            y + 1 < self.rest() ==> self.org[y] < self.org[y + 1],
            forall|z: int|
                self.org[y] < z < self.len() && (y + 1 < self.rest() ==> z < self.org[y + 1])
                    ==> #[trigger] self.gone[z],
            forall|z: int| 0 <= z < self.org[y] && y == 0 ==> #[trigger] self.gone[z],
    {
        reveal(Thin::wf);
        assert(self.org_ok(y));
        let a = self.org[y];
        if y + 1 < self.rest() {
            assert(self.org_ok(y + 1));
            let b = self.org[y + 1];
            if b <= a {
                self.lemma_mono(b, a);
            }
        }
        assert forall|z: int|
            a < z < self.len() && (y + 1 < self.rest() ==> z < self.org[y + 1])
                implies #[trigger] self.gone[z] by {
            if !self.gone[z] {
                self.lemma_mono(a, z);
                self.lemma_kept(z);
                if y + 1 < self.rest() {
                    self.lemma_mono(z, self.org[y + 1]);
                }
            }
        }
        assert forall|z: int| 0 <= z < a && y == 0 implies #[trigger] self.gone[z] by {
            if !self.gone[z] {
                self.lemma_mono(z, a);
                self.lemma_mono(0, z);
            }
        }
    }

    /// Where no entry leaves, the indices stay.
    pub proof fn lemma_all_kept(self, x: int)
        requires
            self.wf(),
            0 <= x <= self.len(),
            forall|z: int| 0 <= z < x ==> !(#[trigger] self.gone[z]),
        ensures
            self.idx[x] == x,
        decreases x,
    {
        reveal(Thin::wf);
        if x > 0 {
            self.lemma_all_kept(x - 1);
            assert(self.step_ok(x - 1));
        }
    }

    /// Every new index below the number of entries kept before `k` has its
    /// origin before `k`.
    proof fn lemma_origin_exists(gone: Seq<bool>, k: int, y: int)
        requires
            0 <= k <= gone.len(),
            0 <= y < kept_before(gone, k),
        ensures
            exists|x: int| 0 <= x < gone.len() && !gone[x] && kept_before(gone, x) == y,
        decreases k,
    {
        if k > 0 {
            if !gone[k - 1] && kept_before(gone, k - 1) == y {
                let x = k - 1;
                assert(0 <= x < gone.len() && !gone[x] && kept_before(gone, x) == y);
            } else {
                Self::lemma_origin_exists(gone, k - 1, y);
            }
        }
    }

    /// No more entries stay than there are.
    proof fn lemma_count_bounds(gone: Seq<bool>, k: int)
        requires
            0 <= k,
        ensures
            0 <= kept_before(gone, k) <= k,
        decreases k,
    {
        if k > 0 {
            Self::lemma_count_bounds(gone, k - 1);
        }
    }

    /// The thinning that `gone` describes is consistent.
    pub proof fn lemma_of(gone: Seq<bool>)
        ensures
            Self::of(gone).wf(),
            Self::of(gone).gone == gone,
    {
        let t = Self::of(gone);
        Self::lemma_count_bounds(gone, gone.len() as int);
        assert forall|y: int| 0 <= y < t.org.len() implies #[trigger] t.org_ok(y) by {
            Self::lemma_origin_exists(gone, gone.len() as int, y);
        }
        assert forall|x: int| 0 <= x < t.gone.len() implies #[trigger] t.step_ok(x) by {
            assert(kept_before(gone, x + 1) == kept_before(gone, x) + if gone[x] {
                0int
            } else {
                1int
            });
        }
        reveal(Thin::wf);
    }

    /// What stays of `s`.
    pub open spec fn thinned<T>(self, s: Seq<T>) -> Seq<T> {
        Seq::new(self.org.len(), |y: int| s[self.org[y]])
    }

    /// Filtering the first `k` entries keeps those that stay, in their order.
    proof fn lemma_filter_upto<T>(self, s: Seq<T>, keep: spec_fn(T) -> bool, k: int)
        requires
            self.wf(),
            s.len() == self.len(),
            forall|x: int| 0 <= x < s.len() ==> keep(#[trigger] s[x]) == !self.gone[x],
            0 <= k <= s.len(),
        ensures
            s.take(k).filter(keep).len() == self.idx[k],
            forall|y: int|
                0 <= y < self.idx[k] ==> (#[trigger] s.take(k).filter(keep)[y]) == s[self.org[y]],
        decreases k,
    {
        self.lemma_mono(0, k);
        reveal(Thin::wf);
        reveal_with_fuel(Seq::filter, 2);
        if k > 0 {
            self.lemma_filter_upto(s, keep, k - 1);
            assert(s.take(k).drop_last() =~= s.take(k - 1));
            assert(s.take(k).last() == s[k - 1]);
            assert(self.step_ok(k - 1));
            let f = s.take(k).filter(keep);
            let f0 = s.take(k - 1).filter(keep);
            if !self.gone[k - 1] {
                self.lemma_kept(k - 1);
                assert(f == f0.push(s[k - 1]));
            } else {
                assert(f == f0);
            }
            assert forall|y: int| 0 <= y < self.idx[k] implies (#[trigger] f[y])
                == s[self.org[y]] by {
                if y < self.idx[k - 1] {
                    assert(f0[y] == s[self.org[y]]);
                }
            }
        } else {
            assert(s.take(0).len() == 0);
        }
    }

    /// Filtering by a mark that agrees with `gone` thins the sequence.
    pub proof fn lemma_filter<T>(self, s: Seq<T>, keep: spec_fn(T) -> bool)
        requires
            self.wf(),
            s.len() == self.len(),
            forall|x: int| 0 <= x < s.len() ==> keep(#[trigger] s[x]) == !self.gone[x],
        ensures
            s.filter(keep) == self.thinned(s),
    {
        self.lemma_filter_upto(s, keep, s.len() as int);
        assert(s.take(s.len() as int) =~= s);
        reveal(Thin::wf);
        assert(s.filter(keep) =~= self.thinned(s));
    }
}

/// An entry with the mark that says whether it stays.
pub struct Slot<T> {
    pub item: T,
    pub keep: bool,
}

/// Takes the entries out whose mark says so.
///
/// This is `odds::vec::VecExt::retain_mut`, called with a predicate that
/// reads the mark. The contract records what that function's documentation
/// states: the entries for which the predicate holds stay, in their order,
/// and the others are removed. Nothing of it is proved here.
#[verifier::external_body]
pub(crate) fn retain_kept<T>(slots: &mut Vec<Slot<T>>)
    ensures
        final(slots)@ == old(slots)@.filter(|s: Slot<T>| s.keep),
{
    odds::vec::VecExt::retain_mut(slots, |s: &mut Slot<T>| s.keep)
}

/// The new index of every entry of a sequence thinned by `gone`.
pub fn new_indices(gone: &Vec<bool>) -> (idx: Vec<usize>)
    ensures
        idx@.len() == gone@.len() + 1,
        forall|x: int| 0 <= x <= gone@.len() ==> (#[trigger] idx@[x]) == Thin::of(gone@).idx[x],
{
    let mut idx: Vec<usize> = Vec::new();
    idx.push(0);
    let mut x: usize = 0;
    let mut count: usize = 0;
    while x < gone.len()
        invariant
            x <= gone@.len(),
            idx@.len() == x + 1,
            count == kept_before(gone@, x as int),
            count <= x,
            forall|k: int| 0 <= k <= x ==> (#[trigger] idx@[k]) == kept_before(gone@, k),
        decreases gone@.len() - x,
    {
        if !gone[x] {
            count += 1;
        }
        idx.push(count);
        x += 1;
    }
    idx
}

/// The entries of `items` that `gone` does not mark, in their order.
pub fn thin_out<T>(items: Vec<T>, gone: &Vec<bool>) -> (out: Vec<T>)
    requires
        items@.len() == gone@.len(),
    ensures
        out@ == Thin::of(gone@).thinned(items@),
{
    let ghost t = Thin::of(gone@);
    let ghost s = items@;
    let mut slots: Vec<Slot<T>> = Vec::new();
    let mut x: usize = 0;
    for item in it: items.into_iter()
        invariant
            it.seq() == s,
            s.len() == gone.len(),
            x == it.index(),
            slots@.len() == x,
            forall|k: int|
                0 <= k < x ==> (#[trigger] slots@[k]) == (Slot { item: s[k], keep: !gone@[k] }),
    {
        slots.push(Slot { item, keep: !gone[x] });
        x += 1;
    }
    let ghost marked = slots@;
    retain_kept(&mut slots);
    proof {
        Thin::lemma_of(gone@);
        assert forall|k: int| 0 <= k < marked.len() implies (|s: Slot<T>| s.keep)(
            #[trigger] marked[k],
        ) == !t.gone[k] by {}
        t.lemma_filter(marked, |s: Slot<T>| s.keep);
    }
    let ghost kept = slots@;
    let n_kept: usize = slots.len();
    let mut out: Vec<T> = Vec::new();
    let mut y: usize = 0;
    for slot in it: slots.into_iter()
        invariant
            it.seq() == kept,
            kept.len() == n_kept,
            y == it.index(),
            out@.len() == y,
            forall|k: int| 0 <= k < y ==> (#[trigger] out@[k]) == kept[k].item,
    {
        out.push(slot.item);
        y += 1;
    }
    proof {
        assert(out@.len() == kept.len());
        assert(kept == t.thinned(marked));
        assert forall|k: int| 0 <= k < out@.len() implies out@[k] == t.thinned(s)[k] by {
            t.lemma_org(k);
            assert(kept[k] == marked[t.org[k]]);
        }
        assert(out@ =~= t.thinned(s));
    }
    out
}

} // verus!
