//! The search for a value, round the jump table from a cursor, and the check
//! of the table's integrity.

use vstd::prelude::*;
use crate::jump::RawCursor;
use crate::layout::{inv_leaves, inv_links, inv_sorted, key_lt, lemma_bounded};
use crate::raw::RawTrie;

verus! {

impl<N, L> RawTrie<N, L> {
    /// The record that a walk round the table, which starts just behind
    /// record `i`, visits at step `k`.
    pub open spec fn wrap_index(&self, i: int, k: int) -> int {
        if i + 1 + k < self.jumps@.len() {
            i + 1 + k
        } else {
            i + 1 + k - self.jumps@.len()
        }
    }

    /// The cursor on the major node of record `x`.
    pub open spec fn major_cursor(&self, x: int) -> RawCursor {
        RawCursor {
            node_index: self.jumps@[x].major() as isize,
            parent_jump_index: x as usize,
            depth: (self.jumps@[x].depth + self.jumps@[x].next_major_node_dist) as isize,
        }
    }

    /// Record `x` carries a value that `by` accepts.
    pub open spec fn hit<F: Fn(&L) -> bool>(&self, by: &F, x: int) -> bool {
        match self.jumps@[x].next_major_node.leaf() {
            Some(v) => call_ensures(*by, (&self.leaves@[v],), true),
            None => false,
        }
    }

    /// Record `x` carries no value, or one that `by` rejects.
    pub open spec fn miss<F: Fn(&L) -> bool>(&self, by: &F, x: int) -> bool {
        match self.jumps@[x].next_major_node.leaf() {
            Some(v) => call_ensures(*by, (&self.leaves@[v],), false),
            None => true,
        }
    }

    /// The first record from `start` up to `end` that carries a value which
    /// `by` accepts.
    pub fn find_leaf_by<F: Fn(&L) -> bool>(&self, by: &F, start: usize, end: usize) -> (r: Option<
        usize,
    >)
        requires
            self.wf(),
            start <= end <= self.jumps@.len(),
            forall|v: int|
                0 <= v < self.leaves@.len() ==> call_requires(*by, (&#[trigger] self.leaves@[v],)),
        ensures
            match r {
                Some(x) => start <= x < end && self.hit(by, x as int) && forall|y: int|
                    start <= y < x ==> #[trigger] self.miss(by, y),
                None => forall|y: int| start <= y < end ==> #[trigger] self.miss(by, y),
            },
    {
        let ghost w = self.spans();
        let mut x: usize = start;
        while x < end
            invariant
                self.inv(w),
                start <= x <= end <= self.jumps@.len(),
                forall|v: int|
                    0 <= v < self.leaves@.len() ==> call_requires(
                        *by,
                        (&#[trigger] self.leaves@[v],),
                    ),
                forall|y: int| start <= y < x ==> #[trigger] self.miss(by, y),
            decreases end - x,
        {
            match self.jumps[x].next_major_node.leaf_index() {
                Some(v) => {
                    proof {
                        lemma_bounded(
                            self.jumps@,
                            self.nodes@.len() as int,
                            self.leaves@.len() as int,
                            w,
                            x as int,
                        );
                    }
                    if by(&self.leaves[v]) {
                        return Some(x);
                    }
                },
                None => {},
            }
            x += 1;
        }
        None
    }

    /// The first value that `by` accepts on a walk round the jump table that
    /// starts just behind the record of `cursor` and ends with that record.
    /// Returns the cursor on the node that carries the value.
    pub fn find_leaf_after_wrapping_by<F: Fn(&L) -> bool>(&self, cursor: RawCursor, by: F) -> (r:
        Option<RawCursor>)
        requires
            self.wf(),
            self.valid_cursor(cursor),
            forall|v: int|
                0 <= v < self.leaves@.len() ==> call_requires(by, (&#[trigger] self.leaves@[v],)),
        ensures
            match r {
                Some(c) => exists|k: int|
                    0 <= k < self.jumps@.len() && c == self.major_cursor(
                        #[trigger] self.wrap_index(cursor.parent_jump_index as int, k),
                    ) && self.hit(&by, self.wrap_index(cursor.parent_jump_index as int, k))
                        && forall|l: int|
                        0 <= l < k ==> self.miss(
                            &by,
                            #[trigger] self.wrap_index(cursor.parent_jump_index as int, l),
                        ),
                None => forall|x: int| 0 <= x < self.jumps@.len() ==> #[trigger] self.miss(&by, x),
            },
            r matches Some(c) ==> self.valid_cursor(c) && self.at_major(c) && self.leaf_index(
                c,
            ).is_some(),
            r.is_none() ==> forall|v: int|
                0 <= v < self.leaves@.len() ==> call_ensures(
                    by,
                    (&#[trigger] self.leaves@[v],),
                    false,
                ),
    {
        let ghost w = self.spans();
        let ghost j = self.jumps@;
        let i: usize = cursor.parent_jump_index;
        let len: usize = self.jumps.len();
        if self.leaves.len() == 0 {
            proof {
                assert forall|x: int| 0 <= x < j.len() implies #[trigger] self.miss(&by, x) by {
                    lemma_bounded(j, self.nodes@.len() as int, 0, w, x);
                }
            }
            return None;
        }
        let found = match self.find_leaf_by(&by, i + 1, len) {
            Some(x) => {
                proof {
                    let k = x - (i + 1);
                    assert(self.wrap_index(i as int, k) == x);
                    assert forall|l: int| 0 <= l < k implies self.miss(
                        &by,
                        #[trigger] self.wrap_index(i as int, l),
                    ) by {
                        assert(self.miss(&by, i + 1 + l));
                    }
                }
                Some(x)
            },
            None => {
                match self.find_leaf_by(&by, 0, i + 1) {
                    Some(x) => {
                        proof {
                            let k = x + (len - (i + 1));
                            assert(self.wrap_index(i as int, k) == x);
                            assert forall|l: int| 0 <= l < k implies self.miss(
                                &by,
                                #[trigger] self.wrap_index(i as int, l),
                            ) by {
                                if i + 1 + l < len {
                                    assert(self.miss(&by, i + 1 + l));
                                } else {
                                    assert(self.miss(&by, i + 1 + l - len));
                                }
                            }
                        }
                        Some(x)
                    },
                    None => {
                        proof {
                            assert forall|x: int| 0 <= x < j.len() implies #[trigger] self.miss(
                                &by,
                                x,
                            ) by {}
                            assert forall|v: int| 0 <= v < self.leaves@.len() implies call_ensures(
                                by,
                                (&#[trigger] self.leaves@[v],),
                                false,
                            ) by {
                                reveal(inv_leaves);
                                let x = w.leaf_owner[v];
                                assert(self.miss(&by, x));
                            }
                        }
                        None
                    },
                }
            },
        };
        match found {
            Some(x) => {
                let jump = self.jumps[x];
                proof {
                    lemma_bounded(
                        j,
                        self.nodes@.len() as int,
                        self.leaves@.len() as int,
                        w,
                        x as int,
                    );
                }
                Some(
                    RawCursor {
                        node_index: jump.jump_to_node + jump.next_major_node_dist as isize,
                        parent_jump_index: x,
                        depth: jump.depth + jump.next_major_node_dist as isize,
                    },
                )
            },
            None => None,
        }
    }

    /// Every value of the store is carried by a record of the table.
    pub proof fn lemma_values_held(&self)
        requires
            self.wf(),
        ensures
            forall|v: int|
                0 <= v < self.leaves@.len() ==> 0 <= (#[trigger] self.spans().leaf_owner[v])
                    < self.jumps@.len()
                    && self.jumps@[self.spans().leaf_owner[v]].next_major_node.leaf() == Some(v),
    {
        reveal(inv_leaves);
    }

    /// The table is sorted by parent record and first node.
    pub open spec fn sorted(&self) -> bool {
        forall|x: int, y: int|
            0 <= x < y < self.jumps@.len() ==> key_lt(
                #[trigger] self.jumps@[x],
                #[trigger] self.jumps@[y],
            )
    }

    /// Every reference to a first child names a record that names the
    /// referring record as its parent.
    pub open spec fn linked(&self) -> bool {
        forall|x: int|
            0 <= x < self.jumps@.len() ==> match (
            #[trigger] self.jumps@[x]).next_major_node.child() {
                Some(c) => c < self.jumps@.len() && self.jumps@[c].parent_jump_index == x,
                None => true,
            }
    }

    /// The ranks of the values rise along the table.
    pub open spec fn ranked(&self) -> bool {
        forall|x: int, y: int|
            0 <= x < y < self.jumps@.len() && (
            #[trigger] self.jumps@[x]).next_major_node.leaf().is_some() && (
            #[trigger] self.jumps@[y]).next_major_node.leaf().is_some()
                ==> self.jumps@[x].next_major_node.leaf().unwrap()
                < self.jumps@[y].next_major_node.leaf().unwrap()
    }

    /// The three conditions of integrity: the table is sorted, the child
    /// references agree with the parent references, and the ranks rise.
    pub open spec fn integrity(&self) -> bool {
        self.sorted() && self.linked() && self.ranked()
    }

    /// A well-formed trie has integrity.
    pub proof fn lemma_integrity(&self)
        requires
            self.wf(),
        ensures
            self.integrity(),
    {
        let w = self.spans();
        let j = self.jumps@;
        reveal(inv_sorted);
        reveal(inv_leaves);
        assert forall|x: int| 0 <= x < j.len() implies match (
        #[trigger] j[x]).next_major_node.child() {
            Some(c) => c < j.len() && j[c].parent_jump_index == x,
            None => true,
        } by {
            reveal(inv_links);
            match j[x].next_major_node.child() {
                Some(c) => {
                    assert(x < c < j.len());
                    assert(j[c].parent_jump_index == x);
                },
                None => {},
            }
        }
    }

    /// Whether the table is sorted, its child references agree with its
    /// parent references, and the ranks of its values rise.
    pub fn verify_tree_integrity(&self) -> (ok: bool)
        ensures
            ok == self.integrity(),
    {
        let ghost j = self.jumps@;
        let len: usize = self.jumps.len();
        let mut x: usize = 0;
        let mut last_rank: Option<usize> = None;
        let ghost mut last_at: int = -1;
        while x < len
            invariant
                j == self.jumps@,
                len == j.len(),
                x <= len,
                forall|a: int, b: int|
                    0 <= a < b < x ==> key_lt(#[trigger] j[a], #[trigger] j[b]),
                forall|a: int|
                    0 <= a < x ==> match (#[trigger] j[a]).next_major_node.child() {
                        Some(c) => c < j.len() && j[c].parent_jump_index == a,
                        None => true,
                    },
                forall|a: int, b: int|
                    0 <= a < b < x && (#[trigger] j[a]).next_major_node.leaf().is_some() && (
                    #[trigger] j[b]).next_major_node.leaf().is_some()
                        ==> j[a].next_major_node.leaf().unwrap()
                        < j[b].next_major_node.leaf().unwrap(),
                match last_rank {
                    Some(r) => 0 <= last_at < x && j[last_at].next_major_node.leaf() == Some(
                        r as int,
                    ) && forall|a: int|
                        last_at < a < x ==> (#[trigger] j[a]).next_major_node.leaf().is_none(),
                    None => forall|a: int|
                        0 <= a < x ==> (#[trigger] j[a]).next_major_node.leaf().is_none(),
                },
            decreases len - x,
        {
            let rec = self.jumps[x];
            if x > 0 {
                let before = self.jumps[x - 1];
                let below: bool = before.parent_jump_index < rec.parent_jump_index || (
                before.parent_jump_index == rec.parent_jump_index && before.jump_to_node
                    < rec.jump_to_node);
                if !below {
                    proof {
                        assert(!key_lt(j[x - 1], j[x as int]));
                    }
                    return false;
                }
                proof {
                    assert forall|a: int, b: int| 0 <= a < b < x + 1 implies key_lt(
                        #[trigger] j[a],
                        #[trigger] j[b],
                    ) by {
                        if b == x && a < x - 1 {
                            assert(key_lt(j[a], j[x - 1]));
                        }
                    }
                }
            }
            match rec.next_major_node.child_index() {
                Some(c) => {
                    let agrees: bool = if c < len {
                        let p: isize = self.jumps[c].parent_jump_index;
                        p >= 0 && p as usize == x
                    } else {
                        false
                    };
                    if !agrees {
                        proof {
                            assert(j[x as int].next_major_node.child() == Some(c as int));
                        }
                        return false;
                    }
                },
                None => {},
            }
            match rec.next_major_node.leaf_index() {
                Some(r) => {
                    match last_rank {
                        Some(q) => {
                            if q >= r {
                                proof {
                                    assert(j[last_at].next_major_node.leaf().is_some());
                                    assert(j[x as int].next_major_node.leaf().is_some());
                                }
                                return false;
                            }
                        },
                        None => {},
                    }
                    last_rank = Some(r);
                    proof {
                        last_at = x as int;
                    }
                },
                None => {},
            }
            x += 1;
        }
        true
    }
}

} // verus!
