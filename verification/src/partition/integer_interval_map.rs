//! Maps integer intervals to their associated values.

use crate::interval::I64Interval;
use crate::set::contiguous_integer_set::ContiguousIntegerSet;
use crate::traits::SubsetIndexable;
use vstd::prelude::*;

verus! {

/// The keys are non-empty and pairwise disjoint, stored in ascending order.
pub open spec fn entries_wf(s: Seq<(ContiguousIntegerSet, i64)>) -> bool {
    &&& forall|i: int| 0 <= i < s.len() ==> !(#[trigger] s[i]).0.spec_is_empty()
    &&& forall|i: int, j: int|
        0 <= i < j < s.len() ==> #[trigger] s[i].0.spec_end() < #[trigger] s[j].0.spec_start()
}

/// The value associated with the integer `x`: the value of the first stored
/// entry whose key interval contains `x`.
pub open spec fn val_at(s: Seq<(ContiguousIntegerSet, i64)>, x: int) -> Option<int>
    decreases s.len(),
{
    if s.len() == 0 {
        Option::None
    } else if s[0].0.spec_contains(x) {
        Option::Some(s[0].1 as int)
    } else {
        val_at(s.drop_first(), x)
    }
}

/// The value function after superposing `value` over every integer of `key`.
pub open spec fn aggregated(
    s: Seq<(ContiguousIntegerSet, i64)>,
    key: ContiguousIntegerSet,
    value: i64,
    x: int,
) -> Option<int> {
    if key.spec_contains(x) {
        match val_at(s, x) {
            Option::Some(v) => Option::Some(v + value),
            Option::None => Option::Some(value as int),
        }
    } else {
        val_at(s, x)
    }
}

/// With pairwise-disjoint keys, an entry containing `x` determines the value
/// at `x`.
pub proof fn lemma_val_at_some(s: Seq<(ContiguousIntegerSet, i64)>, k: int, x: int)
    requires
        forall|i: int, j: int|
            0 <= i < j < s.len() ==> #[trigger] s[i].0.spec_end() < #[trigger] s[j].0.spec_start(),
        0 <= k < s.len(),
        s[k].0.spec_contains(x),
    ensures
        val_at(s, x) == Option::Some(s[k].1 as int),
    decreases s.len(),
{
    if k == 0 {
    } else {
        assert(s[0].0.spec_end() < s[k].0.spec_start());
        assert(!s[0].0.spec_contains(x));
        let t = s.drop_first();
        assert forall|i: int, j: int| 0 <= i < j < t.len() implies #[trigger] t[i].0.spec_end()
            < #[trigger] t[j].0.spec_start() by {
            assert(s[i + 1].0.spec_end() < s[j + 1].0.spec_start());
        }
        assert(t[k - 1] == s[k]);
        lemma_val_at_some(t, k - 1, x);
    }
}

/// If no entry's key contains `x`, no value is associated with `x`.
pub proof fn lemma_val_at_none(s: Seq<(ContiguousIntegerSet, i64)>, x: int)
    requires
        forall|i: int| 0 <= i < s.len() ==> !(#[trigger] s[i]).0.spec_contains(x),
    ensures
        val_at(s, x) == Option::<int>::None,
    decreases s.len(),
{
    if s.len() > 0 {
        let t = s.drop_first();
        assert forall|i: int| 0 <= i < t.len() implies !(#[trigger] t[i]).0.spec_contains(x) by {
            assert(t[i] == s[i + 1]);
        }
        lemma_val_at_none(t, x);
    }
}

/// Whether some stored entry's key contains the integer `x`.
pub open spec fn entry_covers(s: Seq<(ContiguousIntegerSet, i64)>, x: int) -> bool {
    exists|t: int| 0 <= t < s.len() && #[trigger] s[t].0.spec_contains(x)
}

pub proof fn lemma_entry_covers_push(
    s: Seq<(ContiguousIntegerSet, i64)>,
    e: (ContiguousIntegerSet, i64),
    t: Seq<(ContiguousIntegerSet, i64)>,
)
    requires
        t == s.push(e),
    ensures
        forall|x: int| entry_covers(t, x) <==> (entry_covers(s, x) || e.0.spec_contains(x)),
{
    assert forall|x: int|
        entry_covers(t, x) <==> (entry_covers(s, x) || e.0.spec_contains(x)) by {
        if entry_covers(t, x) {
            let u = choose|u: int| 0 <= u < t.len() && #[trigger] t[u].0.spec_contains(x);
            if u < s.len() {
                assert(s[u].0.spec_contains(x));
            } else {
                assert(e.0.spec_contains(x));
            }
        }
        if entry_covers(s, x) {
            let u = choose|u: int| 0 <= u < s.len() && #[trigger] s[u].0.spec_contains(x);
            assert(t[u].0.spec_contains(x));
        }
        if e.0.spec_contains(x) {
            assert(t[s.len() as int].0.spec_contains(x));
        }
    }
}

/// Whether some stored entry's key starts exactly at `x`.
pub open spec fn entry_starts_at(s: Seq<(ContiguousIntegerSet, i64)>, x: int) -> bool {
    exists|t: int| 0 <= t < s.len() && (#[trigger] s[t]).0.spec_start() == x
}

/// Whether `x` lies strictly inside some stored entry's key, so that the
/// entry holds both `x - 1` and `x`.
pub open spec fn entry_interior(s: Seq<(ContiguousIntegerSet, i64)>, x: int) -> bool {
    exists|t: int|
        0 <= t < s.len() && (#[trigger] s[t]).0.spec_start() < x && x <= s[t].0.spec_end()
}

pub proof fn lemma_entry_interior_push(
    s: Seq<(ContiguousIntegerSet, i64)>,
    e: (ContiguousIntegerSet, i64),
    t: Seq<(ContiguousIntegerSet, i64)>,
)
    requires
        t == s.push(e),
    ensures
        forall|x: int|
            entry_interior(t, x) <==> (entry_interior(s, x) || (e.0.spec_start() < x && x
                <= e.0.spec_end())),
{
    assert forall|x: int|
        entry_interior(t, x) <==> (entry_interior(s, x) || (e.0.spec_start() < x && x
            <= e.0.spec_end())) by {
        if entry_interior(t, x) {
            let u = choose|u: int|
                0 <= u < t.len() && (#[trigger] t[u]).0.spec_start() < x && x <= t[u].0.spec_end();
            if u < s.len() {
                assert(s[u].0.spec_start() < x && x <= s[u].0.spec_end());
            }
        }
        if entry_interior(s, x) {
            let u = choose|u: int|
                0 <= u < s.len() && (#[trigger] s[u]).0.spec_start() < x && x <= s[u].0.spec_end();
            assert(t[u].0.spec_start() < x && x <= t[u].0.spec_end());
        }
        if e.0.spec_start() < x && x <= e.0.spec_end() {
            assert(t[s.len() as int].0.spec_start() < x && x <= t[s.len() as int].0.spec_end());
        }
    }
}

/// With disjoint ascending keys, no stored entry starts at an integer lying
/// strictly inside the `k`th entry, and none ends just before one.
pub proof fn lemma_no_cut_within(s: Seq<(ContiguousIntegerSet, i64)>, k: int, x: int)
    requires
        entries_wf(s),
        0 <= k < s.len(),
        s[k].0.spec_start() < x <= s[k].0.spec_end(),
    ensures
        !exists|t: int| 0 <= t < s.len() && (#[trigger] s[t]).0.spec_start() == x,
        !exists|t: int| 0 <= t < s.len() && (#[trigger] s[t]).0.spec_end() == x - 1,
{
    assert forall|t: int| 0 <= t < s.len() implies (#[trigger] s[t]).0.spec_start() != x by {
        if t < k {
            assert(s[t].0.spec_end() < s[k].0.spec_start());
        }
        if t > k {
            assert(s[k].0.spec_end() < s[t].0.spec_start());
        }
    }
    assert forall|t: int| 0 <= t < s.len() implies (#[trigger] s[t]).0.spec_end() != x - 1 by {
        if t < k {
            assert(s[t].0.spec_end() < s[k].0.spec_start());
        }
        if t > k {
            assert(s[k].0.spec_end() < s[t].0.spec_start());
        }
    }
}

/// A boundary of the inputs to an aggregation: an edge of the key, or an
/// edge of a stored entry. An aggregation may begin an output entry only at
/// such a point; between two consecutive boundaries the value function is
/// constant, so splitting there would fragment the map needlessly.
#[verifier::opaque]
pub open spec fn aggregate_cut(
    s: Seq<(ContiguousIntegerSet, i64)>,
    key: ContiguousIntegerSet,
    x: int,
) -> bool {
    ||| x == key.spec_start()
    ||| x == key.spec_end() + 1
    ||| exists|t: int| 0 <= t < s.len() && (#[trigger] s[t]).0.spec_start() == x
    ||| exists|t: int| 0 <= t < s.len() && (#[trigger] s[t]).0.spec_end() == x - 1
}

/// Maps `I64Interval`s to `i64` values, with pairwise-disjoint keys held in
/// ascending order.
#[derive(Clone, Debug, PartialEq, Eq)]
pub struct IntegerIntervalMap {
    pub entries: Vec<(ContiguousIntegerSet, i64)>,
}

impl IntegerIntervalMap {
    /// The disjoint-key invariant.
    #[verifier::inline]
    pub open spec fn well_formed(self) -> bool {
        entries_wf(self.entries@)
    }

    /// The value currently associated with the integer `x`.
    #[verifier::inline]
    pub open spec fn spec_value_at(self, x: int) -> Option<int> {
        val_at(self.entries@, x)
    }

    pub fn new() -> (r: Self)
        ensures
            r.well_formed(),
            r.entries@.len() == 0,
            forall|x: int| r.spec_value_at(x) == Option::<int>::None,
    {
        IntegerIntervalMap { entries: Vec::new() }
    }

    /// Adds an integer interval as the `key` with an associated `value`.
    /// Any existing intervals intersecting the `key` are broken up: the
    /// regions of intersection have a value being the sum of the existing
    /// value and the new `value`, while the non-intersecting regions retain
    /// their original values.
    #[verifier::rlimit(80)]
    #[verifier::spinoff_prover]
    pub fn aggregate(&mut self, key: I64Interval, value: i64)
        requires
            old(self).well_formed(),
            !key.spec_is_empty(),
            forall|i: int|
                0 <= i < old(self).entries@.len() && (#[trigger] old(self).entries@[
                    i]).0.spec_start() <= key.spec_end() && key.spec_start() <= old(
                    self,
                ).entries@[i].0.spec_end() ==> i64::MIN <= old(self).entries@[i].1 + value
                    <= i64::MAX,
        ensures
            final(self).well_formed(),
            forall|x: int|
                #[trigger] final(self).spec_value_at(x) == aggregated(
                    old(self).entries@,
                    key,
                    value,
                    x,
                ),
            forall|x: int|
                #[trigger] entry_starts_at(final(self).entries@, x) <==> (aggregated(
                    old(self).entries@,
                    key,
                    value,
                    x,
                ).is_some() && (aggregated(old(self).entries@, key, value, x - 1).is_none()
                    || aggregate_cut(old(self).entries@, key, x))),
    {
        let ghost olds = self.entries@;
        let n = self.entries.len();
        let mut out: Vec<(ContiguousIntegerSet, i64)> = Vec::new();
        // the part of `key` not yet merged with any stored entry is
        // [rem_start, key.end]; `i128` keeps the bound safe from overflow
        let mut rem_start: i128 = key.start as i128;
        let mut k: usize = 0;
        proof {
            assert(aggregate_cut(olds, key, key.spec_start())) by {
                reveal(aggregate_cut);
            }
            assert forall|x: int| #![trigger entry_covers(out@, x)]
                (aggregated(olds, key, value, x).is_some() && (0 < n ==> x < olds[
                    0].0.spec_start()) && (x < rem_start || x > key.spec_end()))
                    implies entry_covers(out@, x) by {
                if !key.spec_contains(x) {
                    if val_at(olds, x).is_some() {
                        assert(entry_covers(olds, x)) by {
                            if !entry_covers(olds, x) {
                                lemma_val_at_none(olds, x);
                            }
                        }
                        let u = choose|u: int|
                            0 <= u < olds.len() && #[trigger] olds[u].0.spec_contains(x);
                        if u > 0 {
                            assert(olds[0].0.spec_end() < olds[u].0.spec_start());
                        }
                        assert(false);
                    }
                }
            }
        }
        while k < n
            invariant
                olds == self.entries@,
                entries_wf(olds),
                n == olds.len(),
                k <= n,
                !key.spec_is_empty(),
                forall|i: int|
                    0 <= i < olds.len() && (#[trigger] olds[i]).0.spec_start() <= key.spec_end()
                        && key.spec_start() <= olds[i].0.spec_end() ==> i64::MIN <= olds[i].1
                        + value <= i64::MAX,
                key.spec_start() <= rem_start,
                k > 0 && rem_start <= key.spec_end() ==> olds[k - 1].0.spec_end() < rem_start,
                rem_start <= key.spec_end() && k < n ==> (rem_start == key.spec_start()
                    || rem_start <= olds[k as int].0.spec_start()),
                rem_start > key.spec_end() && k < n ==> key.spec_end() < olds[
                    k as int].0.spec_start(),
                entries_wf(out@),
                forall|t: int|
                    0 <= t < out@.len() ==> ((k < n ==> (#[trigger] out@[t]).0.spec_end() < olds[
                        k as int].0.spec_start()) && (rem_start <= key.spec_end() ==> out@[
                    t].0.spec_end() < rem_start)),
                forall|t: int, x: int|
                    0 <= t < out@.len() && #[trigger] out@[t].0.spec_contains(x) ==> aggregated(
                        olds,
                        key,
                        value,
                        x,
                    ) == Option::Some(out@[t].1 as int),
                forall|x: int| #![trigger entry_covers(out@, x)]
                    (aggregated(olds, key, value, x).is_some() && (k < n ==> x < olds[
                        k as int].0.spec_start()) && (x < rem_start || x > key.spec_end()))
                        ==> entry_covers(out@, x),
                rem_start <= key.spec_end() ==> aggregate_cut(olds, key, rem_start as int),
                forall|t: int|
                    0 <= t < out@.len() ==> aggregate_cut(
                        olds,
                        key,
                        (#[trigger] out@[t]).0.spec_start(),
                    ),
                forall|x: int| #![trigger aggregate_cut(olds, key, x)]
                    aggregate_cut(olds, key, x) ==> !entry_interior(out@, x),
            decreases n - k,
        {
            let (c, v) = self.entries[k];
            let ghost old_rem = rem_start;
            proof {
                assert(olds[k as int] == (c, v));
            }
            // first flush the part of the key that lies strictly before this
            // entry
            if rem_start <= (key.end as i128) && rem_start < (c.start as i128) {
                let piece_end = if key.end <= c.start - 1 {
                    key.end
                } else {
                    c.start - 1
                };
                let piece = ContiguousIntegerSet::new(rem_start as i64, piece_end);
                let ghost old_out = out@;
                out.push((piece, value));
                rem_start = (piece_end as i128) + 1;
                proof {
                    lemma_entry_covers_push(old_out, (piece, value), out@);
                    lemma_entry_interior_push(old_out, (piece, value), out@);
                    // the piece starts at the unconsumed key bound, a cut
                    assert(aggregate_cut(olds, key, piece.spec_start()));
                    // if the key runs on, it resumes at this entry's start
                    assert(rem_start <= key.spec_end() ==> aggregate_cut(
                        olds,
                        key,
                        rem_start as int,
                    )) by {
                        reveal(aggregate_cut);
                        if rem_start <= key.spec_end() {
                            assert(olds[k as int].0.spec_start() == rem_start as int);
                        }
                    }
                    // no input boundary lies strictly inside the piece
                    assert forall|x: int|
                        piece.spec_start() < x <= piece.spec_end() implies !aggregate_cut(
                        olds,
                        key,
                        x,
                    ) by {
                        reveal(aggregate_cut);
                        if exists|u: int|
                            0 <= u < olds.len() && (#[trigger] olds[u]).0.spec_start() == x {
                            let u = choose|u: int|
                                0 <= u < olds.len() && (#[trigger] olds[u]).0.spec_start() == x;
                            if u < k {
                                assert(olds[u].0.spec_end() <= olds[k - 1].0.spec_end()) by {
                                    if u < k - 1 {
                                        assert(olds[u].0.spec_end() < olds[k - 1].0.spec_start());
                                    }
                                }
                                assert(false);
                            } else {
                                if u > k {
                                    assert(olds[k as int].0.spec_end() < olds[u].0.spec_start());
                                }
                                assert(olds[u].0.spec_start() >= c.spec_start());
                                assert(false);
                            }
                        }
                        if exists|u: int|
                            0 <= u < olds.len() && (#[trigger] olds[u]).0.spec_end() == x - 1 {
                            let u = choose|u: int|
                                0 <= u < olds.len() && (#[trigger] olds[u]).0.spec_end() == x - 1;
                            if u < k {
                                assert(olds[u].0.spec_end() <= olds[k - 1].0.spec_end()) by {
                                    if u < k - 1 {
                                        assert(olds[u].0.spec_end() < olds[k - 1].0.spec_start());
                                    }
                                }
                                assert(false);
                            } else {
                                if u > k {
                                    assert(olds[k as int].0.spec_end() < olds[u].0.spec_start());
                                }
                                assert(olds[u].0.spec_end() >= c.spec_start());
                                assert(false);
                            }
                        }
                    }
                    assert forall|x: int| piece.spec_contains(x) implies aggregated(
                        olds,
                        key,
                        value,
                        x,
                    ) == Option::Some(value as int) by {
                        assert forall|i: int|
                            0 <= i < olds.len() implies !(#[trigger] olds[i]).0.spec_contains(
                            x,
                        ) by {
                            if i < k {
                                assert(olds[i].0.spec_end() <= olds[k - 1].0.spec_end()) by {
                                    if i < k - 1 {
                                        assert(olds[i].0.spec_end() < olds[k - 1].0.spec_start());
                                    }
                                }
                            } else if i > k {
                                assert(olds[k as int].0.spec_end() < olds[i].0.spec_start());
                            }
                        }
                        lemma_val_at_none(olds, x);
                    }
                }
            }
            // then the entry itself: its sub-range left of the key, the
            // overlap with the key, and its sub-range right of the key
            if c.start < key.start {
                let left_end = if c.end <= key.start - 1 {
                    c.end
                } else {
                    key.start - 1
                };
                let ghost before_left = out@;
                out.push((ContiguousIntegerSet::new(c.start, left_end), v));
                proof {
                    let piece = ContiguousIntegerSet { start: c.start, end: left_end };
                    lemma_entry_covers_push(before_left, (piece, v), out@);
                    lemma_entry_interior_push(before_left, (piece, v), out@);
                    assert(aggregate_cut(olds, key, piece.spec_start())) by {
                        reveal(aggregate_cut);
                        assert(olds[k as int].0.spec_start() == piece.spec_start());
                    }
                    assert forall|x: int|
                        piece.spec_start() < x <= piece.spec_end() implies !aggregate_cut(
                        olds,
                        key,
                        x,
                    ) by {
                        reveal(aggregate_cut);
                        lemma_no_cut_within(olds, k as int, x);
                    }
                    assert forall|x: int| piece.spec_contains(x) implies aggregated(
                        olds,
                        key,
                        value,
                        x,
                    ) == Option::Some(v as int) by {
                        lemma_val_at_some(olds, k as int, x);
                    }
                }
            }
            let lo = if c.start >= key.start {
                c.start
            } else {
                key.start
            };
            let hi = if c.end <= key.end {
                c.end
            } else {
                key.end
            };
            if lo <= hi {
                proof {
                    // the entry meets the key, so its summed value is in range
                    assert(olds[k as int].0.spec_start() <= key.spec_end());
                    assert(key.spec_start() <= olds[k as int].0.spec_end());
                }
                let ghost before_mid = out@;
                out.push((ContiguousIntegerSet::new(lo, hi), v + value));
                rem_start = (hi as i128) + 1;
                proof {
                    let piece = ContiguousIntegerSet { start: lo, end: hi };
                    lemma_entry_covers_push(before_mid, (piece, (v + value) as i64), out@);
                    lemma_entry_interior_push(before_mid, (piece, (v + value) as i64), out@);
                    assert(aggregate_cut(olds, key, piece.spec_start())) by {
                        reveal(aggregate_cut);
                        if c.start >= key.start {
                            assert(olds[k as int].0.spec_start() == piece.spec_start());
                        }
                    }
                    assert(rem_start <= key.spec_end() ==> aggregate_cut(
                        olds,
                        key,
                        rem_start as int,
                    )) by {
                        reveal(aggregate_cut);
                        if rem_start <= key.spec_end() {
                            assert(olds[k as int].0.spec_end() == rem_start - 1);
                        }
                    }
                    assert forall|x: int|
                        piece.spec_start() < x <= piece.spec_end() implies !aggregate_cut(
                        olds,
                        key,
                        x,
                    ) by {
                        reveal(aggregate_cut);
                        lemma_no_cut_within(olds, k as int, x);
                    }
                    assert forall|x: int| piece.spec_contains(x) implies aggregated(
                        olds,
                        key,
                        value,
                        x,
                    ) == Option::Some(v + value) by {
                        lemma_val_at_some(olds, k as int, x);
                    }
                }
            }
            if c.end > key.end {
                let right_start = if c.start >= key.end + 1 {
                    c.start
                } else {
                    key.end + 1
                };
                let ghost before_right = out@;
                out.push((ContiguousIntegerSet::new(right_start, c.end), v));
                proof {
                    let piece = ContiguousIntegerSet { start: right_start, end: c.end };
                    lemma_entry_covers_push(before_right, (piece, v), out@);
                    lemma_entry_interior_push(before_right, (piece, v), out@);
                    assert(aggregate_cut(olds, key, piece.spec_start())) by {
                        reveal(aggregate_cut);
                        if c.start >= key.end + 1 {
                            assert(olds[k as int].0.spec_start() == piece.spec_start());
                        }
                    }
                    assert forall|x: int|
                        piece.spec_start() < x <= piece.spec_end() implies !aggregate_cut(
                        olds,
                        key,
                        x,
                    ) by {
                        reveal(aggregate_cut);
                        lemma_no_cut_within(olds, k as int, x);
                    }
                    assert forall|x: int| piece.spec_contains(x) implies aggregated(
                        olds,
                        key,
                        value,
                        x,
                    ) == Option::Some(v as int) by {
                        lemma_val_at_some(olds, k as int, x);
                    }
                }
            }
            k = k + 1;
            proof {
                let ghost cur_rem = rem_start;
                assert forall|x: int| #![trigger entry_covers(out@, x)]
                    (aggregated(olds, key, value, x).is_some() && (k < n ==> x < olds[
                        k as int].0.spec_start()) && (x < cur_rem || x > key.spec_end()))
                        implies entry_covers(out@, x) by {
                    if !entry_covers(out@, x) {
                        // nothing emitted this round holds x, and nothing
                        // emitted before does either
                        assert(!c.spec_contains(x)) by {
                            if c.spec_contains(x) {
                                if x < key.spec_start() {
                                    assert(c.spec_start() < key.spec_start());
                                } else if x > key.spec_end() {
                                    assert(c.spec_end() > key.spec_end());
                                    assert(x >= key.spec_end() + 1);
                                    assert((ContiguousIntegerSet {
                                        start: if c.start >= key.end + 1 {
                                            c.start
                                        } else {
                                            (key.end + 1) as i64
                                        },
                                        end: c.end,
                                    }).spec_contains(x));
                                } else {
                                    assert((ContiguousIntegerSet {
                                        start: if c.start >= key.start {
                                            c.start
                                        } else {
                                            key.start
                                        },
                                        end: if c.end <= key.end {
                                            c.end
                                        } else {
                                            key.end
                                        },
                                    }).spec_contains(x));
                                }
                            }
                        }
                        if key.spec_contains(x) && x < cur_rem {
                            // this round has emitted every integer of the key
                            // between the old and the new remainder bound
                            if x < old_rem {
                                // already emitted in an earlier round
                                assert(old_rem != key.spec_start());
                                assert(x < c.spec_start());
                                assert(entry_covers(out@, x));
                            } else if x < c.spec_start() {
                                // held by the key piece flushed before the
                                // entry
                                let piece_end = if key.end <= c.start - 1 {
                                    key.end
                                } else {
                                    (c.start - 1) as i64
                                };
                                assert((ContiguousIntegerSet {
                                    start: old_rem as i64,
                                    end: piece_end,
                                }).spec_contains(x));
                            } else {
                                assert(c.spec_contains(x));
                            }
                            assert(false);
                        } else if !key.spec_contains(x) {
                            assert(entry_covers(olds, x)) by {
                                if !entry_covers(olds, x) {
                                    lemma_val_at_none(olds, x);
                                }
                            }
                            let u = choose|u: int|
                                0 <= u < olds.len() && #[trigger] olds[u].0.spec_contains(x);
                            if u == k - 1 {
                                assert(c.spec_contains(x));
                            } else if u < k - 1 {
                                assert(olds[u].0.spec_end() < olds[k - 1].0.spec_start());
                                // x was below both old frontiers
                                assert(x < olds[k - 1].0.spec_start());
                                assert(x < old_rem || x > key.spec_end());
                                assert(entry_covers(out@, x));
                            } else {
                                assert(x >= olds[u].0.spec_start());
                                if u > k as int {
                                    assert(olds[k as int].0.spec_end() < olds[u].0.spec_start());
                                }
                                assert(false);
                            }
                        }
                    }
                }
            }
        }
        // whatever is left of the key becomes a fresh entry of its own
        let ghost pre_tail = out@;
        let ghost tail_rem = rem_start;
        if rem_start <= (key.end as i128) {
            let piece = ContiguousIntegerSet::new(rem_start as i64, key.end);
            out.push((piece, value));
            proof {
                lemma_entry_covers_push(pre_tail, (piece, value), out@);
                lemma_entry_interior_push(pre_tail, (piece, value), out@);
                assert(aggregate_cut(olds, key, piece.spec_start()));
                assert forall|x: int|
                    piece.spec_start() < x <= piece.spec_end() implies !aggregate_cut(
                    olds,
                    key,
                    x,
                ) by {
                    reveal(aggregate_cut);
                    assert forall|u: int| 0 <= u < olds.len() implies (
                    #[trigger] olds[u]).0.spec_end() < tail_rem by {
                        if u < n - 1 {
                            assert(olds[u].0.spec_end() < olds[n - 1].0.spec_start());
                        }
                    }
                }
                assert forall|x: int| piece.spec_contains(x) implies aggregated(
                    olds,
                    key,
                    value,
                    x,
                ) == Option::Some(value as int) by {
                    assert forall|i: int|
                        0 <= i < olds.len() implies !(#[trigger] olds[i]).0.spec_contains(x) by {
                        if i < n - 1 {
                            assert(olds[i].0.spec_end() < olds[n - 1].0.spec_start());
                        }
                        assert(olds[n - 1].0.spec_end() < tail_rem);
                    }
                    lemma_val_at_none(olds, x);
                }
            }
        }
        self.entries = out;
        proof {
            assert forall|x: int|
                #[trigger] val_at(self.entries@, x) == aggregated(olds, key, value, x) by {
                if entry_covers(self.entries@, x) {
                    let t = choose|t: int|
                        0 <= t < self.entries@.len() && #[trigger] self.entries@[
                        t].0.spec_contains(x);
                    lemma_val_at_some(self.entries@, t, x);
                } else {
                    lemma_val_at_none(self.entries@, x);
                    if aggregated(olds, key, value, x).is_some() {
                        if key.spec_contains(x) && tail_rem <= x <= key.spec_end() {
                            assert(entry_covers(self.entries@, x));
                        } else {
                            assert(entry_covers(pre_tail, x));
                            let t = choose|t: int|
                                0 <= t < pre_tail.len() && #[trigger] pre_tail[t].0.spec_contains(
                                x);
                            assert(self.entries@[t].0.spec_contains(x));
                        }
                        assert(false);
                    }
                }
            }
            // every entry starts at an input boundary
            assert forall|t: int| 0 <= t < self.entries@.len() implies aggregate_cut(
                olds,
                key,
                (#[trigger] self.entries@[t]).0.spec_start(),
            ) by {
                if t < pre_tail.len() {
                    assert(self.entries@[t] == pre_tail[t]);
                    assert(aggregate_cut(olds, key, pre_tail[t].0.spec_start()));
                }
            }
            // no input boundary lies strictly inside any entry
            assert forall|x: int| #![trigger aggregate_cut(olds, key, x)]
                aggregate_cut(olds, key, x) implies !entry_interior(self.entries@, x) by {
                assert(!entry_interior(pre_tail, x));
            }
            // together with the value function this pins the entry list: an
            // entry begins exactly where a value is defined and either the
            // previous integer has none or an input boundary sits between
            assert forall|x: int|
                #[trigger] entry_starts_at(self.entries@, x) <==> (aggregated(
                    olds,
                    key,
                    value,
                    x,
                ).is_some() && (aggregated(olds, key, value, x - 1).is_none() || aggregate_cut(
                    olds,
                    key,
                    x,
                ))) by {
                if entry_starts_at(self.entries@, x) {
                    let t = choose|t: int|
                        0 <= t < self.entries@.len() && (#[trigger] self.entries@[
                        t]).0.spec_start() == x;
                    assert(self.entries@[t].0.spec_contains(x));
                    lemma_val_at_some(self.entries@, t, x);
                    assert(val_at(self.entries@, x).is_some());
                    assert(aggregate_cut(olds, key, x));
                }
                if aggregated(olds, key, value, x).is_some() && (aggregated(
                    olds,
                    key,
                    value,
                    x - 1,
                ).is_none() || aggregate_cut(olds, key, x)) && !entry_starts_at(
                    self.entries@,
                    x,
                ) {
                    assert(val_at(self.entries@, x).is_some());
                    assert(entry_covers(self.entries@, x)) by {
                        if !entry_covers(self.entries@, x) {
                            lemma_val_at_none(self.entries@, x);
                        }
                    }
                    let t = choose|t: int|
                        0 <= t < self.entries@.len() && #[trigger] self.entries@[
                        t].0.spec_contains(x);
                    assert(self.entries@[t].0.spec_start() < x);
                    assert(self.entries@[t].0.spec_contains(x - 1));
                    lemma_val_at_some(self.entries@, t, x - 1);
                    assert(val_at(self.entries@, x - 1).is_some());
                    assert(entry_interior(self.entries@, x));
                    assert(false);
                }
            }
        }
    }

    /// Yields the stored `(interval, value)` pairs in ascending key order.
    pub fn iter(&self) -> (r: Vec<(ContiguousIntegerSet, i64)>)
        ensures
            r@ == self.entries@,
    {
        let n = self.entries.len();
        let mut r: Vec<(ContiguousIntegerSet, i64)> = Vec::new();
        for k in 0..n
            invariant
                n == self.entries@.len(),
                r@ == self.entries@.subrange(0, k as int),
        {
            r.push(self.entries[k]);
            proof {
                assert(r@ =~= self.entries@.subrange(0, k + 1 as int));
            }
        }
        proof {
            assert(r@ =~= self.entries@);
        }
        r
    }

    /// Converts into the underlying entry list.
    pub fn into_vec(self) -> (r: Vec<(ContiguousIntegerSet, i64)>)
        ensures
            r == self.entries,
    {
        self.entries
    }

    /// Returns a `Some` value only if the key corresponds to one of the
    /// current exact intervals and not its subset or superset.
    pub fn get(&self, key: &I64Interval) -> (r: Option<i64>)
        ensures
            match r {
                Option::Some(v) => exists|i: int|
                    0 <= i < self.entries@.len() && #[trigger] self.entries@[i] == (*key, v),
                Option::None => forall|i: int|
                    0 <= i < self.entries@.len() ==> (#[trigger] self.entries@[i]).0 != *key,
            },
    {
        let n = self.entries.len();
        for k in 0..n
            invariant
                n == self.entries@.len(),
                forall|i: int| 0 <= i < k ==> (#[trigger] self.entries@[i]).0 != *key,
        {
            let (c, v) = self.entries[k];
            if c.start == key.start && c.end == key.end {
                proof {
                    assert(self.entries@[k as int] == (*key, v));
                }
                return Option::Some(v);
            }
            proof {
                assert(self.entries@[k as int].0 != *key);
            }
        }
        Option::None
    }
}

impl Default for IntegerIntervalMap {
    /// The empty map.
    fn default() -> (r: Self)
        ensures
            r.well_formed(),
            r.entries@.len() == 0,
    {
        IntegerIntervalMap::new()
    }
}

impl SubsetIndexable<I64Interval, I64Interval> for IntegerIntervalMap {
    open spec fn get_set_containing_req(&self, subset: I64Interval) -> bool {
        true
    }

    open spec fn get_set_containing_post(
        &self,
        subset: I64Interval,
        r: Option<I64Interval>,
    ) -> bool {
        match r {
            Option::Some(c) => subset.spec_subset_of(c) && exists|i: int|
                0 <= i < self.entries@.len() && (#[trigger] self.entries@[i]).0 == c,
            Option::None => forall|i: int|
                0 <= i < self.entries@.len() ==> !subset.spec_subset_of(
                    (#[trigger] self.entries@[i]).0,
                ),
        }
    }

    fn get_set_containing(&self, subset: &I64Interval) -> (r: Option<I64Interval>) {
        let n = self.entries.len();
        for k in 0..n
            invariant
                n == self.entries@.len(),
                forall|i: int|
                    0 <= i < k ==> !subset.spec_subset_of((#[trigger] self.entries@[i]).0),
        {
            let (c, _) = self.entries[k];
            if subset.is_subset_of(&c) {
                proof {
                    assert(self.entries@[k as int].0 == c);
                }
                return Option::Some(c);
            }
        }
        Option::None
    }
}

} // verus!

