use crate::interval::traits::{Coalesce, CoalesceIntervals};
use crate::set::contiguous_integer_set::ContiguousIntegerSet;
use crate::set::traits::{Finite, Intersect, SetLike};
use crate::traits::{Collecting, Slicing};
use vstd::prelude::*;

verus! {

/// Whether the integer `x` belongs to one of the intervals of `s`.
pub open spec fn seq_covers(s: Seq<ContiguousIntegerSet>, x: int) -> bool {
    exists|i: int| 0 <= i < s.len() && s[i].spec_contains(x)
}

/// Like `seq_covers`, with the interval at position `k` left out.
pub open spec fn seq_covers_except(s: Seq<ContiguousIntegerSet>, k: int, x: int) -> bool {
    exists|i: int| 0 <= i < s.len() && i != k && s[i].spec_contains(x)
}

/// The intervals are sorted by their starts (duplicates and overlaps allowed).
pub open spec fn sorted_by_start(s: Seq<ContiguousIntegerSet>) -> bool {
    forall|i: int, j: int| 0 <= i < j < s.len() ==> s[i].spec_start() <= s[j].spec_start()
}

/// The coalesced-set invariant: all intervals are non-empty and successive
/// intervals are neither overlapping nor adjacent, so each integer subset
/// has exactly one such representation.
pub open spec fn is_canonical(s: Seq<ContiguousIntegerSet>) -> bool {
    &&& forall|i: int| 0 <= i < s.len() ==> !(#[trigger] s[i]).spec_is_empty()
    &&& forall|i: int, j: int|
        0 <= i < j < s.len() ==> #[trigger] s[i].spec_end() + 1 < #[trigger] s[j].spec_start()
}

pub proof fn lemma_covers_push(
    s: Seq<ContiguousIntegerSet>,
    el: ContiguousIntegerSet,
    t: Seq<ContiguousIntegerSet>,
)
    requires
        t == s.push(el),
    ensures
        forall|x: int| seq_covers(t, x) <==> (seq_covers(s, x) || el.spec_contains(x)),
{
    assert forall|x: int| seq_covers(t, x) <==> (seq_covers(s, x) || el.spec_contains(x)) by {
        if seq_covers(t, x) {
            let i = choose|i: int| 0 <= i < t.len() && t[i].spec_contains(x);
            if i < s.len() {
                assert(s[i].spec_contains(x));
            } else {
                assert(el.spec_contains(x));
            }
        }
        if seq_covers(s, x) {
            let i = choose|i: int| 0 <= i < s.len() && s[i].spec_contains(x);
            assert(t[i].spec_contains(x));
        }
        if el.spec_contains(x) {
            assert(t[s.len() as int].spec_contains(x));
        }
    }
}

pub proof fn lemma_covers_insert(
    s: Seq<ContiguousIntegerSet>,
    k: int,
    el: ContiguousIntegerSet,
    t: Seq<ContiguousIntegerSet>,
)
    requires
        0 <= k <= s.len(),
        t == s.insert(k, el),
    ensures
        forall|x: int| seq_covers(t, x) <==> (seq_covers(s, x) || el.spec_contains(x)),
{
    assert forall|x: int| seq_covers(t, x) <==> (seq_covers(s, x) || el.spec_contains(x)) by {
        if seq_covers(t, x) {
            let i = choose|i: int| 0 <= i < t.len() && t[i].spec_contains(x);
            if i < k {
                assert(s[i].spec_contains(x));
            } else if i == k {
                assert(el.spec_contains(x));
            } else {
                assert(s[i - 1].spec_contains(x));
            }
        }
        if seq_covers(s, x) {
            let i = choose|i: int| 0 <= i < s.len() && s[i].spec_contains(x);
            if i < k {
                assert(t[i].spec_contains(x));
            } else {
                assert(t[i + 1].spec_contains(x));
            }
        }
        if el.spec_contains(x) {
            assert(t[k].spec_contains(x));
        }
    }
}

pub proof fn lemma_covers_update(
    s: Seq<ContiguousIntegerSet>,
    k: int,
    el: ContiguousIntegerSet,
    t: Seq<ContiguousIntegerSet>,
)
    requires
        0 <= k < s.len(),
        t == s.update(k, el),
    ensures
        forall|x: int|
            seq_covers(t, x) <==> (seq_covers_except(s, k, x) || el.spec_contains(x)),
{
    assert forall|x: int|
        seq_covers(t, x) <==> (seq_covers_except(s, k, x) || el.spec_contains(x)) by {
        if seq_covers(t, x) {
            let i = choose|i: int| 0 <= i < t.len() && t[i].spec_contains(x);
            if i == k {
                assert(el.spec_contains(x));
            } else {
                assert(0 <= i < s.len() && i != k && s[i].spec_contains(x));
            }
        }
        if seq_covers_except(s, k, x) {
            let i = choose|i: int| 0 <= i < s.len() && i != k && s[i].spec_contains(x);
            assert(t[i].spec_contains(x));
        }
        if el.spec_contains(x) {
            assert(t[k].spec_contains(x));
        }
    }
}

pub proof fn lemma_covers_remove(
    s: Seq<ContiguousIntegerSet>,
    k: int,
    t: Seq<ContiguousIntegerSet>,
)
    requires
        0 <= k < s.len(),
        t == s.remove(k),
    ensures
        forall|x: int| seq_covers(t, x) <==> seq_covers_except(s, k, x),
{
    assert forall|x: int| seq_covers(t, x) <==> seq_covers_except(s, k, x) by {
        if seq_covers(t, x) {
            let i = choose|i: int| 0 <= i < t.len() && t[i].spec_contains(x);
            if i < k {
                assert(0 <= i < s.len() && i != k && s[i].spec_contains(x));
            } else {
                assert(0 <= i + 1 < s.len() && i + 1 != k && s[i + 1].spec_contains(x));
            }
        }
        if seq_covers_except(s, k, x) {
            let i = choose|i: int| 0 <= i < s.len() && i != k && s[i].spec_contains(x);
            if i < k {
                assert(t[i].spec_contains(x));
            } else {
                assert(t[i - 1].spec_contains(x));
            }
        }
    }
}

/// A canonical (coalesced) interval sequence is uniquely determined by the
/// set of integers it covers: two canonical sequences covering the same
/// integers are equal.
pub proof fn lemma_canonical_unique(a: Seq<ContiguousIntegerSet>, b: Seq<ContiguousIntegerSet>)
    requires
        is_canonical(a),
        is_canonical(b),
        forall|x: int| seq_covers(a, x) <==> seq_covers(b, x),
    ensures
        a == b,
    decreases a.len(),
{
    if a.len() == 0 {
        if b.len() > 0 {
            assert(b[0].spec_contains(b[0].spec_start()));
            assert(seq_covers(b, b[0].spec_start()));
            assert(false);
        }
        assert(a =~= b);
    } else if b.len() == 0 {
        assert(a[0].spec_contains(a[0].spec_start()));
        assert(seq_covers(a, a[0].spec_start()));
        assert(false);
    } else {
        // the first intervals have equal starts: each one's start is the
        // minimum covered integer
        assert(a[0].spec_contains(a[0].spec_start()));
        assert(seq_covers(a, a[0].spec_start()));
        assert(b[0].spec_contains(b[0].spec_start()));
        assert(seq_covers(b, b[0].spec_start()));
        let ja = choose|j: int| 0 <= j < b.len() && b[j].spec_contains(a[0].spec_start());
        let jb = choose|j: int| 0 <= j < a.len() && a[j].spec_contains(b[0].spec_start());
        assert(b[0].spec_start() <= b[ja].spec_start());
        assert(a[0].spec_start() <= a[jb].spec_start());
        assert(a[0].spec_start() == b[0].spec_start());
        // equal ends: if one ended earlier, the integer just after its end
        // would be covered on one side only
        if a[0].spec_end() < b[0].spec_end() {
            let x = a[0].spec_end() + 1;
            assert(b[0].spec_contains(x));
            assert(seq_covers(b, x));
            let i = choose|i: int| 0 <= i < a.len() && a[i].spec_contains(x);
            assert(i > 0 && a[0].spec_end() + 1 < a[i].spec_start());
            assert(false);
        }
        if b[0].spec_end() < a[0].spec_end() {
            let x = b[0].spec_end() + 1;
            assert(a[0].spec_contains(x));
            assert(seq_covers(a, x));
            let i = choose|i: int| 0 <= i < b.len() && b[i].spec_contains(x);
            assert(i > 0 && b[0].spec_end() + 1 < b[i].spec_start());
            assert(false);
        }
        assert(a[0] == b[0]);
        // the tails cover the same integers, so they are equal by induction
        let at = a.drop_first();
        let bt = b.drop_first();
        assert forall|i: int| 0 <= i < at.len() implies !(#[trigger] at[i]).spec_is_empty() by {
            assert(at[i] == a[i + 1]);
        }
        assert forall|i: int, j: int| 0 <= i < j < at.len() implies #[trigger] at[i].spec_end() + 1
            < #[trigger] at[j].spec_start() by {
            assert(a[i + 1].spec_end() + 1 < a[j + 1].spec_start());
        }
        assert forall|i: int| 0 <= i < bt.len() implies !(#[trigger] bt[i]).spec_is_empty() by {
            assert(bt[i] == b[i + 1]);
        }
        assert forall|i: int, j: int| 0 <= i < j < bt.len() implies #[trigger] bt[i].spec_end() + 1
            < #[trigger] bt[j].spec_start() by {
            assert(b[i + 1].spec_end() + 1 < b[j + 1].spec_start());
        }
        assert forall|x: int| seq_covers(at, x) <==> seq_covers(bt, x) by {
            if seq_covers(at, x) {
                let i = choose|i: int| 0 <= i < at.len() && at[i].spec_contains(x);
                assert(a[i + 1].spec_contains(x));
                assert(seq_covers(a, x));
                assert(a[0].spec_end() + 1 < a[i + 1].spec_start());
                let j = choose|j: int| 0 <= j < b.len() && b[j].spec_contains(x);
                assert(j > 0);
                assert(bt[j - 1].spec_contains(x));
            }
            if seq_covers(bt, x) {
                let i = choose|i: int| 0 <= i < bt.len() && bt[i].spec_contains(x);
                assert(b[i + 1].spec_contains(x));
                assert(seq_covers(b, x));
                assert(b[0].spec_end() + 1 < b[i + 1].spec_start());
                let j = choose|j: int| 0 <= j < a.len() && a[j].spec_contains(x);
                assert(j > 0);
                assert(at[j - 1].spec_contains(x));
            }
        }
        lemma_canonical_unique(at, bt);
        assert(a.len() == b.len());
        assert forall|i: int| 0 <= i < a.len() implies a[i] == b[i] by {
            if i > 0 {
                assert(a[i] == at[i - 1]);
                assert(b[i] == bt[i - 1]);
            }
        }
        assert(a =~= b);
    }
}

/// The integers covered by an interval list depend only on which intervals
/// occur in it, not on their order or multiplicity: interval lists with equal
/// multisets cover the same integers.
pub proof fn lemma_multiset_same_coverage(
    s1: Seq<ContiguousIntegerSet>,
    s2: Seq<ContiguousIntegerSet>,
)
    requires
        s1.to_multiset() == s2.to_multiset(),
    ensures
        forall|x: int| seq_covers(s1, x) <==> seq_covers(s2, x),
{
    broadcast use vstd::seq_lib::group_to_multiset_ensures;

    assert forall|x: int| seq_covers(s1, x) <==> seq_covers(s2, x) by {
        if seq_covers(s1, x) {
            let i = choose|i: int| 0 <= i < s1.len() && s1[i].spec_contains(x);
            assert(s1.contains(s1[i]));
            assert(s1.to_multiset().count(s1[i]) > 0);
            assert(s2.to_multiset().count(s1[i]) > 0);
            assert(s2.contains(s1[i]));
            let j = choose|j: int| 0 <= j < s2.len() && s2[j] == s1[i];
            assert(s2[j].spec_contains(x));
        }
        if seq_covers(s2, x) {
            let i = choose|i: int| 0 <= i < s2.len() && s2[i].spec_contains(x);
            assert(s2.contains(s2[i]));
            assert(s2.to_multiset().count(s2[i]) > 0);
            assert(s1.to_multiset().count(s2[i]) > 0);
            assert(s1.contains(s2[i]));
            let j = choose|j: int| 0 <= j < s1.len() && s1[j] == s2[i];
            assert(s1[j].spec_contains(x));
        }
    }
}

/// Canonical-set construction is order-independent: if two interval lists
/// are permutations of each other (equal multisets), the canonical sets
/// built from them have identical interval sequences.
pub proof fn lemma_construction_order_independent(
    s1: Seq<ContiguousIntegerSet>,
    s2: Seq<ContiguousIntegerSet>,
    a: OrderedIntegerSet,
    b: OrderedIntegerSet,
)
    requires
        s1.to_multiset() == s2.to_multiset(),
        a.well_formed(),
        b.well_formed(),
        forall|x: int| a.set_contains(x) <==> seq_covers(s1, x),
        forall|x: int| b.set_contains(x) <==> seq_covers(s2, x),
    ensures
        a.intervals@ == b.intervals@,
{
    lemma_multiset_same_coverage(s1, s2);
    assert forall|x: int|
        seq_covers(a.intervals@, x) <==> seq_covers(b.intervals@, x) by {
        assert(seq_covers(a.intervals@, x) <==> seq_covers(s1, x));
        assert(seq_covers(s1, x) <==> seq_covers(s2, x));
        assert(seq_covers(b.intervals@, x) <==> seq_covers(s2, x));
    }
    lemma_canonical_unique(a.intervals@, b.intervals@);
}

pub proof fn lemma_covers_concat(
    s1: Seq<ContiguousIntegerSet>,
    s2: Seq<ContiguousIntegerSet>,
    t: Seq<ContiguousIntegerSet>,
)
    requires
        t == s1 + s2,
    ensures
        forall|x: int| seq_covers(t, x) <==> (seq_covers(s1, x) || seq_covers(s2, x)),
{
    assert forall|x: int| seq_covers(t, x) <==> (seq_covers(s1, x) || seq_covers(s2, x)) by {
        if seq_covers(t, x) {
            let i = choose|i: int| 0 <= i < t.len() && t[i].spec_contains(x);
            if i < s1.len() {
                assert(s1[i].spec_contains(x));
            } else {
                assert(s2[i - s1.len()].spec_contains(x));
            }
        }
        if seq_covers(s1, x) {
            let i = choose|i: int| 0 <= i < s1.len() && s1[i].spec_contains(x);
            assert(t[i].spec_contains(x));
        }
        if seq_covers(s2, x) {
            let i = choose|i: int| 0 <= i < s2.len() && s2[i].spec_contains(x);
            assert(t[s1.len() + i].spec_contains(x));
        }
    }
}

/// An `OrderedIntegerSet` consists of a sequence of `ContiguousIntegerSet`s
/// that are sorted in ascending order where successive intervals are not
/// coalesceable, i.e., if intervals A and B are successive intervals, then
/// A.end + 1 < B.start.
///
/// E.g. an `OrderedIntegerSet` containing the `ContiguousIntegerSet`s [2,3]
/// and [5,7] represents the set of integers {2, 3, 5, 6, 7}.
#[derive(Clone, Debug, PartialEq, Eq)]
pub struct OrderedIntegerSet {
    pub intervals: Vec<ContiguousIntegerSet>,
}

impl OrderedIntegerSet {
    /// The coalesced-representation invariant.
    #[verifier::inline]
    pub open spec fn well_formed(self) -> bool {
        is_canonical(self.intervals@)
    }

    /// The integers that belong to the set.
    #[verifier::inline]
    pub open spec fn set_contains(self, x: int) -> bool {
        seq_covers(self.intervals@, x)
    }

    pub fn new() -> (r: OrderedIntegerSet)
        ensures
            r.well_formed(),
            forall|x: int| !r.set_contains(x),
            r.intervals@.len() == 0,
    {
        OrderedIntegerSet { intervals: Vec::new() }
    }

    /// Creates an `OrderedIntegerSet` where the i-th interval is represented
    /// by the i-th two-element array in `slice`.
    ///
    /// E.g. [[2, 3], [5, 7]] will create an `OrderedIntegerSet` representing
    /// {2, 3, 5, 6, 7}, where the contiguous integers are stored as
    /// `ContiguousIntegerSet`s.
    ///
    /// Note that the intervals in the `slice` parameter do not have to be
    /// sorted or non-overlapping.
    pub fn from_slice(slice: &[[i64; 2]]) -> (r: OrderedIntegerSet)
        ensures
            r.well_formed(),
            forall|x: int|
                r.set_contains(x) <==> exists|i: int|
                    0 <= i < slice@.len() && (#[trigger] slice@[i])[0] <= x && x <= slice@[i][1],
    {
        let mut intervals: Vec<ContiguousIntegerSet> = Vec::new();
        let ghost s = slice@;
        let n = slice.len();
        for k in 0..n
            invariant
                n == s.len(),
                s == slice@,
                intervals@.len() == k,
                forall|i: int|
                    0 <= i < k ==> (#[trigger] intervals@[i]).start == s[i][0] && intervals@[i].end
                        == s[i][1],
        {
            let pair = slice[k];
            intervals.push(ContiguousIntegerSet::new(pair[0], pair[1]));
        }
        proof {
            assert forall|x: int|
                seq_covers(intervals@, x) <==> exists|i: int|
                    0 <= i < s.len() && (#[trigger] s[i])[0] <= x && x <= s[i][1] by {
                if seq_covers(intervals@, x) {
                    let i = choose|i: int|
                        0 <= i < intervals@.len() && intervals@[i].spec_contains(x);
                    assert(s[i][0] <= x && x <= s[i][1]);
                }
                if exists|i: int| 0 <= i < s.len() && (#[trigger] s[i])[0] <= x && x <= s[i][1] {
                    let i = choose|i: int| 0 <= i < s.len() && (#[trigger] s[i])[0] <= x && x <= s[i][1];
                    assert(intervals@[i].spec_contains(x));
                }
            }
        }
        OrderedIntegerSet { intervals: intervals.into_coalesced() }
    }

    pub fn from_contiguous_integer_sets(sets: Vec<ContiguousIntegerSet>) -> (r: OrderedIntegerSet)
        ensures
            r.well_formed(),
            forall|x: int| r.set_contains(x) <==> seq_covers(sets@, x),
    {
        OrderedIntegerSet { intervals: sets.into_coalesced() }
    }

    pub fn from_ordered_coalesced_contiguous_integer_sets(sets: Vec<ContiguousIntegerSet>) -> (r:
        OrderedIntegerSet)
        requires
            is_canonical(sets@),
        ensures
            r.well_formed(),
            r.intervals@ == sets@,
    {
        OrderedIntegerSet { intervals: sets }
    }

    /// Returns the smallest element in the set,
    /// e.g. {[1,3], [4,8]} -> 1.
    pub fn first(&self) -> (r: Option<i64>)
        requires
            self.well_formed(),
        ensures
            match r {
                Option::Some(m) => self.set_contains(m as int) && forall|x: int|
                    x < m ==> !self.set_contains(x),
                Option::None => forall|x: int| !self.set_contains(x),
            },
    {
        if self.intervals.len() == 0 {
            proof {
                assert forall|x: int| !self.set_contains(x) by {}
            }
            Option::None
        } else {
            let interval = self.intervals[0];
            proof {
                assert(self.intervals@[0].spec_contains(interval.spec_start()));
                assert forall|x: int| x < interval.start implies !self.set_contains(x) by {
                    if self.set_contains(x) {
                        let i = choose|i: int|
                            0 <= i < self.intervals@.len() && self.intervals@[i].spec_contains(x);
                        if i > 0 {
                            assert(self.intervals@[0].spec_end() + 1
                                < self.intervals@[i].spec_start());
                        }
                    }
                }
            }
            Option::Some(interval.start)
        }
    }

    /// Returns the largest element in the set,
    /// e.g. {[1,3], [4,8]} -> 8.
    pub fn last(&self) -> (r: Option<i64>)
        requires
            self.well_formed(),
        ensures
            match r {
                Option::Some(m) => self.set_contains(m as int) && forall|x: int|
                    x > m ==> !self.set_contains(x),
                Option::None => forall|x: int| !self.set_contains(x),
            },
    {
        let n = self.intervals.len();
        if n == 0 {
            Option::None
        } else {
            let interval = self.intervals[n - 1];
            proof {
                assert(self.intervals@[n - 1].spec_contains(interval.spec_end()));
                assert forall|x: int| x > interval.end implies !self.set_contains(x) by {
                    if self.set_contains(x) {
                        let i = choose|i: int|
                            0 <= i < self.intervals@.len() && self.intervals@[i].spec_contains(x);
                        if i < n - 1 {
                            assert(self.intervals@[i].spec_end() + 1 < self.intervals@[
                                n - 1].spec_start());
                        }
                    }
                }
            }
            Option::Some(interval.end)
        }
    }

    pub fn is_empty(&self) -> (r: bool)
        requires
            self.well_formed(),
        ensures
            r <==> forall|x: int| !self.set_contains(x),
    {
        let r = self.intervals.len() == 0;
        proof {
            if !r {
                let c = self.intervals@[0];
                assert(c.spec_contains(c.spec_start()));
                assert(seq_covers(self.intervals@, c.spec_start()));
            }
        }
        r
    }

    /// Returns both the smallest and the largest element in the set,
    /// e.g. {[1,3], [4,8]} -> the tuple (1, 8).
    pub fn first_and_last(&self) -> (r: Option<(i64, i64)>)
        requires
            self.well_formed(),
        ensures
            match r {
                Option::Some(p) => self.set_contains(p.0 as int) && self.set_contains(p.1 as int)
                    && forall|x: int| self.set_contains(x) ==> p.0 <= x <= p.1,
                Option::None => forall|x: int| !self.set_contains(x),
            },
    {
        let first = self.first();
        let last = self.last();
        match (first, last) {
            (Option::Some(a), Option::Some(b)) => Option::Some((a, b)),
            _ => Option::None,
        }
    }

    #[verifier::inline]
    pub open spec fn spec_num_intervals(self) -> int {
        self.intervals@.len() as int
    }

    pub fn to_non_empty_intervals(&self) -> (r: Self)
        requires
            self.well_formed(),
        ensures
            r.intervals@ == self.intervals@,
    {
        let n = self.intervals.len();
        let mut intervals: Vec<ContiguousIntegerSet> = Vec::new();
        for k in 0..n
            invariant
                n == self.intervals@.len(),
                intervals@ == self.intervals@.subrange(0, k as int),
        {
            intervals.push(self.intervals[k]);
            proof {
                assert(intervals@ =~= self.intervals@.subrange(0, k + 1 as int));
            }
        }
        proof {
            assert(intervals@ =~= self.intervals@);
        }
        OrderedIntegerSet { intervals }
    }

    pub fn into_non_empty_intervals(self) -> (r: Self)
        requires
            self.well_formed(),
        ensures
            r == self,
    {
        self
    }

    /// Under the coalesced-set invariant every stored interval is non-empty,
    /// so there is nothing to discard.
    pub fn remove_empty_intervals(&mut self)
        requires
            old(self).well_formed(),
        ensures
            *final(self) == *old(self),
    {
    }

    pub fn get_intervals_by_ref(&self) -> (r: &Vec<ContiguousIntegerSet>)
        ensures
            r == &self.intervals,
    {
        &self.intervals
    }

    pub fn into_intervals(self) -> (r: Vec<ContiguousIntegerSet>)
        ensures
            r == self.intervals,
    {
        self.intervals
    }

    pub fn num_intervals(&self) -> (r: usize)
        ensures
            r == self.spec_num_intervals(),
    {
        self.intervals.len()
    }

    /// The positional slice `[start, end)`: the set of members whose ordinal
    /// index in the flattened ascending member sequence lies between `start`
    /// (inclusive) and `end` (exclusive).
    #[verifier::rlimit(50)]
    pub fn slice(&self, start: usize, end: usize) -> (r: OrderedIntegerSet)
        requires
            self.well_formed(),
            total_len(self.intervals@) <= usize::MAX,
        ensures
            r.well_formed(),
            forall|x: int| #![trigger seq_covers(r.intervals@, x)]
                r.set_contains(x) <==> (self.set_contains(x) && start <= rank(self.intervals@, x)
                    < end),
    {
        let ghost s = self.intervals@;
        let mut out: Vec<ContiguousIntegerSet> = Vec::new();
        if start >= end {
            return OrderedIntegerSet { intervals: out };
        }
        let n = self.intervals.len();
        let mut skip = start;
        let mut remaining = end - start;
        let mut k: usize = 0;
        proof {
            assert(s.subrange(0, 0) =~= Seq::<ContiguousIntegerSet>::empty());
            lemma_total_len_nonneg(s);
        }
        while k < n && remaining > 0
            invariant
                s == self.intervals@,
                is_canonical(s),
                total_len(s) <= usize::MAX,
                n == s.len(),
                k <= n,
                start < end,
                skip as int == (if total_len(s.subrange(0, k as int)) < start {
                    start - total_len(s.subrange(0, k as int))
                } else {
                    0
                }),
                remaining as int == (if total_len(s.subrange(0, k as int)) < start {
                    end - start
                } else if total_len(s.subrange(0, k as int)) < end {
                    end - total_len(s.subrange(0, k as int))
                } else {
                    0
                }),
                is_canonical(out@),
                forall|t: int|
                    0 <= t < out@.len() && k < n ==> (#[trigger] out@[t]).spec_end() + 1 < s[
                        k as int].spec_start(),
                forall|x: int| #![trigger seq_covers(out@, x)]
                    seq_covers(out@, x) <==> (seq_covers(s.subrange(0, k as int), x) && start
                        <= rank(s, x) < end),
            decreases n - k,
        {
            let c = self.intervals[k];
            let ghost p = total_len(s.subrange(0, k as int));
            proof {
                let prefix = s.subrange(0, k as int);
                let next_prefix = s.subrange(0, k + 1 as int);
                assert(next_prefix =~= prefix.push(c));
                lemma_total_len_push(prefix, c);
                lemma_total_len_split(s, k + 1 as int);
                lemma_total_len_nonneg(s.subrange(k + 1 as int, n as int));
                lemma_total_len_nonneg(prefix);
                lemma_covers_push(prefix, c, next_prefix);
            }
            let size = if c.start > c.end {
                0usize
            } else {
                (((c.end as i128) - (c.start as i128) + 1) as u128) as usize
            };
            if skip >= size {
                // this fragment lies entirely before the window
                skip = skip - size;
                proof {
                    assert forall|x: int| #![trigger seq_covers(out@, x)]
                        seq_covers(out@, x) <==> (seq_covers(s.subrange(0, k + 1 as int), x)
                            && start <= rank(s, x) < end) by {
                        if c.spec_contains(x) {
                            lemma_rank_member(s, k as int, x);
                            assert(rank(s, x) < start);
                        }
                    }
                }
            } else {
                let available = size - skip;
                let take = if remaining <= available {
                    remaining
                } else {
                    available
                };
                let pstart = ((c.start as i128) + (skip as i128)) as i64;
                let pend = ((c.start as i128) + (skip as i128) + (take as i128) - 1) as i64;
                let piece = ContiguousIntegerSet::new(pstart, pend);
                let ghost old_out = out@;
                out.push(piece);
                remaining = remaining - take;
                skip = 0;
                proof {
                    lemma_covers_push(old_out, piece, out@);
                    assert forall|x: int| #![trigger seq_covers(out@, x)]
                        seq_covers(out@, x) <==> (seq_covers(s.subrange(0, k + 1 as int), x)
                            && start <= rank(s, x) < end) by {
                        if c.spec_contains(x) {
                            lemma_rank_member(s, k as int, x);
                        }
                        if piece.spec_contains(x) {
                            assert(c.spec_contains(x));
                        }
                    }
                    assert forall|a: int, b: int| 0 <= a < b < out@.len() implies out@[
                    a].spec_end() + 1 < out@[b].spec_start() by {
                        if b < out@.len() - 1 {
                            assert(old_out[a].spec_end() + 1 < old_out[b].spec_start());
                        } else if a < old_out.len() - 1 {
                            assert(old_out[a].spec_end() + 1 < old_out[
                                old_out.len() - 1].spec_start());
                        }
                    }
                }
            }
            k = k + 1;
        }
        proof {
            assert forall|x: int| #![trigger seq_covers(out@, x)]
                seq_covers(out@, x) <==> (seq_covers(s, x) && start <= rank(s, x) < end) by {
                if k as int == n {
                    assert(s.subrange(0, n as int) =~= s);
                } else {
                    // the window is exhausted: every member of a later
                    // fragment ranks at or beyond its end
                    if seq_covers(s, x) && !seq_covers(s.subrange(0, k as int), x) {
                        let j = choose|j: int| 0 <= j < s.len() && s[j].spec_contains(x);
                        if j < k {
                            assert(s.subrange(0, k as int)[j].spec_contains(x));
                            assert(false);
                        }
                        lemma_rank_member(s, j, x);
                        lemma_total_len_split(s.subrange(0, j), k as int);
                        assert(s.subrange(0, j).subrange(0, k as int) =~= s.subrange(0, k as int));
                        lemma_total_len_nonneg(s.subrange(0, j).subrange(k as int, j));
                        assert(rank(s, x) >= total_len(s.subrange(0, k as int)));
                    }
                    if seq_covers(s.subrange(0, k as int), x) {
                        let j = choose|j: int|
                            0 <= j < s.subrange(0, k as int).len() && s.subrange(0, k as int)[
                            j].spec_contains(x);
                        assert(s[j].spec_contains(x));
                        assert(seq_covers(s, x));
                    }
                }
            }
        }
        OrderedIntegerSet { intervals: out }
    }
}

impl OrderedIntegerSet {
    /// Binary search for an interval that contains `item` or is adjacent to
    /// it (within a distance of one); `Err` carries the position at which a
    /// fresh singleton fragment belongs.
    fn locate_near(&self, item: i64) -> (r: Result<usize, usize>)
        requires
            self.well_formed(),
        ensures
            match r {
                Result::Ok(i) => i < self.intervals@.len() && self.intervals@[
                    i as int].spec_start() - 1 <= item as int && item as int <= self.intervals@[
                    i as int].spec_end() + 1,
                Result::Err(p) => p <= self.intervals@.len() && (forall|k: int|
                    0 <= k < p ==> (#[trigger] self.intervals@[k]).spec_end() + 1 < item as int)
                    && (forall|k: int|
                    p <= k < self.intervals@.len() ==> (item as int) + 1 < (
                    #[trigger] self.intervals@[k]).spec_start()),
            },
    {
        let mut lo: usize = 0;
        let mut hi: usize = self.intervals.len();
        while lo < hi
            invariant
                lo <= hi <= self.intervals@.len(),
                self.well_formed(),
                forall|k: int|
                    0 <= k < lo ==> (#[trigger] self.intervals@[k]).spec_end() + 1 < item as int,
                forall|k: int|
                    hi <= k < self.intervals@.len() ==> (item as int) + 1 < (
                    #[trigger] self.intervals@[k]).spec_start(),
            decreases hi - lo,
        {
            let mid = lo + (hi - lo) / 2;
            let c = self.intervals[mid];
            if (c.end as i128) + 1 < (item as i128) {
                proof {
                    assert forall|k: int| 0 <= k < mid + 1 implies (
                    #[trigger] self.intervals@[k]).spec_end() + 1 < item as int by {
                        if k < mid {
                            assert(self.intervals@[k].spec_end() + 1 < self.intervals@[
                                mid as int].spec_start());
                        }
                    }
                }
                lo = mid + 1;
            } else if (c.start as i128) > (item as i128) + 1 {
                proof {
                    assert forall|k: int| mid <= k < self.intervals@.len() implies (item as int) + 1
                        < (#[trigger] self.intervals@[k]).spec_start() by {
                        if k > mid {
                            assert(self.intervals@[mid as int].spec_end() + 1 < self.intervals@[
                                k].spec_start());
                        }
                    }
                }
                hi = mid;
            } else {
                return Result::Ok(mid);
            }
        }
        Result::Err(lo)
    }

    /// Extends the interval at position `i` by the adjacent or contained
    /// `item`, then restores the coalesced invariant by merging a neighbor
    /// that the extension newly touches.
    #[verifier::rlimit(80)]
    #[verifier::spinoff_prover]
    fn absorb_at(&mut self, i: usize, item: i64)
        requires
            old(self).well_formed(),
            i < old(self).intervals@.len(),
            old(self).intervals@[i as int].spec_start() - 1 <= item as int,
            item as int <= old(self).intervals@[i as int].spec_end() + 1,
        ensures
            final(self).well_formed(),
            forall|x: int|
                final(self).set_contains(x) <==> (old(self).set_contains(x) || x == item as int),
    {
        let ghost old_iv = self.intervals@;
        let cur = self.intervals[i];
        // extend the located interval so that it absorbs the item
        let merged_start = if cur.start <= item {
            cur.start
        } else {
            item
        };
        let merged_end = if cur.end >= item {
            cur.end
        } else {
            item
        };
        let merged = ContiguousIntegerSet::new(merged_start, merged_end);
        self.intervals.set(i, merged);
        proof {
            lemma_covers_update(old_iv, i as int, merged, self.intervals@);
            assert forall|x: int|
                seq_covers(self.intervals@, x) <==> (seq_covers(old_iv, x) || x == item as int) by {
                if seq_covers_except(old_iv, i as int, x) {
                    assert(seq_covers(old_iv, x));
                }
                if seq_covers(old_iv, x) {
                    let k = choose|k: int| 0 <= k < old_iv.len() && old_iv[k].spec_contains(x);
                    if k == i {
                        assert(merged.spec_contains(x));
                    } else {
                        assert(seq_covers_except(old_iv, i as int, x));
                    }
                }
            }
        }
        let ghost mid_iv = self.intervals@;
        if i > 0 && {
            let left = self.intervals[i - 1];
            (left.end as i128) + 1 >= (merged.start as i128)
        } {
            // the extension newly touches the left neighbor
            let left = self.intervals[i - 1];
            let m2 = ContiguousIntegerSet::new(left.start, merged.end);
            self.intervals.set(i - 1, m2);
            let ghost upd_iv = self.intervals@;
            proof {
                lemma_covers_update(mid_iv, i - 1 as int, m2, upd_iv);
            }
            self.intervals.remove(i);
            proof {
                lemma_covers_remove(upd_iv, i as int, self.intervals@);
                // the left neighbor can only be touched by a one-step
                // extension to the left
                assert(old_iv[i - 1 as int].spec_end() + 1 < old_iv[i as int].spec_start());
                assert(item as int == cur.spec_start() - 1);
                assert(merged.spec_end() == cur.spec_end());
                assert forall|x: int|
                    seq_covers(self.intervals@, x) <==> (seq_covers(old_iv, x) || x == item as int)
                    by {
                    if seq_covers_except(upd_iv, i as int, x) {
                        let k = choose|k: int|
                            0 <= k < upd_iv.len() && k != i && upd_iv[k].spec_contains(x);
                        if k == i - 1 {
                            assert(m2.spec_contains(x));
                            if x < cur.spec_start() - 1 {
                                assert(old_iv[i - 1 as int].spec_contains(x));
                                assert(seq_covers(old_iv, x));
                            } else if x == item as int {
                            } else {
                                assert(old_iv[i as int].spec_contains(x));
                                assert(seq_covers(old_iv, x));
                            }
                        } else {
                            assert(old_iv[k].spec_contains(x));
                            assert(seq_covers(old_iv, x));
                        }
                    }
                    if seq_covers(old_iv, x) {
                        let k = choose|k: int| 0 <= k < old_iv.len() && old_iv[k].spec_contains(x);
                        if k == i {
                            assert(m2.spec_contains(x));
                            assert(upd_iv[i - 1 as int].spec_contains(x));
                            assert(seq_covers_except(upd_iv, i as int, x));
                        } else if k == i - 1 {
                            assert(m2.spec_contains(x));
                            assert(upd_iv[i - 1 as int].spec_contains(x));
                            assert(seq_covers_except(upd_iv, i as int, x));
                        } else {
                            assert(upd_iv[k].spec_contains(x));
                            assert(seq_covers_except(upd_iv, i as int, x));
                        }
                    }
                    if x == item as int {
                        assert(m2.spec_contains(x));
                        assert(upd_iv[i - 1 as int].spec_contains(x));
                        assert(seq_covers_except(upd_iv, i as int, x));
                    }
                }
                assert forall|a: int, b: int| 0 <= a < b < self.intervals@.len() implies
                    self.intervals@[a].spec_end() + 1 < self.intervals@[b].spec_start() by {
                    assert(self.intervals@[a] == if a < i - 1 {
                        old_iv[a]
                    } else if a == i - 1 {
                        m2
                    } else {
                        old_iv[a + 1]
                    });
                    assert(self.intervals@[b] == if b < i - 1 {
                        old_iv[b]
                    } else if b == i - 1 {
                        m2
                    } else {
                        old_iv[b + 1]
                    });
                    if b < i - 1 {
                        assert(old_iv[a].spec_end() + 1 < old_iv[b].spec_start());
                    } else if b == i - 1 {
                        // m2 ends where cur ends, and everything before the
                        // left neighbor keeps its gap
                        assert(old_iv[a].spec_end() + 1 < old_iv[i - 1 as int].spec_start());
                    } else {
                        if a < i - 1 {
                            assert(old_iv[a].spec_end() + 1 < old_iv[b + 1].spec_start());
                        } else if a == i - 1 {
                            assert(old_iv[i as int].spec_end() + 1 < old_iv[b + 1].spec_start());
                        } else {
                            assert(old_iv[a + 1].spec_end() + 1 < old_iv[b + 1].spec_start());
                        }
                    }
                }
            }
        } else {
            // possibly merge with the right neighbor
            let len_now = self.intervals.len();
            if i + 1 < len_now && {
                let right = self.intervals[i + 1];
                (merged.end as i128) + 1 >= (right.start as i128)
            } {
                let right = self.intervals[i + 1];
                let m2 = ContiguousIntegerSet::new(merged.start, right.end);
                self.intervals.set(i, m2);
                let ghost upd_iv = self.intervals@;
                proof {
                    lemma_covers_update(mid_iv, i as int, m2, upd_iv);
                }
                self.intervals.remove(i + 1);
                proof {
                    lemma_covers_remove(upd_iv, i + 1 as int, self.intervals@);
                    // the right neighbor can only be touched by a one-step
                    // extension to the right
                    assert(old_iv[i as int].spec_end() + 1 < old_iv[i + 1 as int].spec_start());
                    assert(item as int == cur.spec_end() + 1);
                    assert(merged.spec_start() == cur.spec_start());
                    assert forall|x: int|
                        seq_covers(self.intervals@, x) <==> (seq_covers(old_iv, x) || x
                            == item as int) by {
                        if seq_covers_except(upd_iv, i + 1 as int, x) {
                            let k = choose|k: int|
                                0 <= k < upd_iv.len() && k != i + 1 && upd_iv[k].spec_contains(x);
                            if k == i {
                                assert(m2.spec_contains(x));
                                if x > cur.spec_end() + 1 {
                                    assert(old_iv[i + 1 as int].spec_contains(x));
                                    assert(seq_covers(old_iv, x));
                                } else if x == item as int {
                                } else {
                                    assert(old_iv[i as int].spec_contains(x));
                                    assert(seq_covers(old_iv, x));
                                }
                            } else {
                                assert(old_iv[k].spec_contains(x));
                                assert(seq_covers(old_iv, x));
                            }
                        }
                        if seq_covers(old_iv, x) {
                            let k = choose|k: int|
                                0 <= k < old_iv.len() && old_iv[k].spec_contains(x);
                            if k == i {
                                assert(m2.spec_contains(x));
                                assert(upd_iv[i as int].spec_contains(x));
                                assert(seq_covers_except(upd_iv, i + 1 as int, x));
                            } else if k == i + 1 {
                                assert(m2.spec_contains(x));
                                assert(upd_iv[i as int].spec_contains(x));
                                assert(seq_covers_except(upd_iv, i + 1 as int, x));
                            } else {
                                assert(upd_iv[k].spec_contains(x));
                                assert(seq_covers_except(upd_iv, i + 1 as int, x));
                            }
                        }
                        if x == item as int {
                            assert(m2.spec_contains(x));
                            assert(upd_iv[i as int].spec_contains(x));
                            assert(seq_covers_except(upd_iv, i + 1 as int, x));
                        }
                    }
                    assert forall|a: int, b: int| 0 <= a < b < self.intervals@.len() implies
                        self.intervals@[a].spec_end() + 1 < self.intervals@[b].spec_start() by {
                        assert(self.intervals@[a] == if a < i {
                            old_iv[a]
                        } else if a == i {
                            m2
                        } else {
                            old_iv[a + 1]
                        });
                        assert(self.intervals@[b] == if b < i {
                            old_iv[b]
                        } else if b == i {
                            m2
                        } else {
                            old_iv[b + 1]
                        });
                        if b < i {
                            assert(old_iv[a].spec_end() + 1 < old_iv[b].spec_start());
                        } else if b == i {
                            assert(old_iv[a].spec_end() + 1 < old_iv[i as int].spec_start());
                        } else {
                            if a < i {
                                assert(old_iv[a].spec_end() + 1 < old_iv[b + 1].spec_start());
                            } else if a == i {
                                assert(old_iv[i + 1 as int].spec_end() + 1 < old_iv[
                                    b + 1].spec_start());
                            } else {
                                assert(old_iv[a + 1].spec_end() + 1 < old_iv[b + 1].spec_start());
                            }
                        }
                    }
                }
            } else {
                // no neighbor is touched: the extension keeps all the gaps
                proof {
                    assert forall|a: int, b: int| 0 <= a < b < self.intervals@.len() implies
                        self.intervals@[a].spec_end() + 1 < self.intervals@[b].spec_start() by {
                        if b == i {
                            if a == i - 1 {
                                assert(old_iv[a].spec_end() + 1 < merged.spec_start());
                            } else {
                                assert(old_iv[a].spec_end() + 1 < old_iv[i - 1].spec_start());
                                assert(old_iv[i - 1].spec_end() + 1 < merged.spec_start());
                            }
                        } else if a == i {
                            if b == i + 1 {
                                assert(merged.spec_end() + 1 < old_iv[b].spec_start());
                            } else {
                                assert(merged.spec_end() + 1 < old_iv[i + 1].spec_start());
                                assert(old_iv[i + 1].spec_end() + 1 < old_iv[b].spec_start());
                            }
                        } else {
                            assert(old_iv[a].spec_end() + 1 < old_iv[b].spec_start());
                        }
                    }
                }
            }
        }
        proof {
            assert(is_canonical(self.intervals@));
            assert forall|x: int|
                seq_covers(self.intervals@, x) <==> (seq_covers(old(self).intervals@, x) || x
                    == item as int) by {
                assert(seq_covers(self.intervals@, x) <==> (seq_covers(old_iv, x) || x
                    == item as int));
            }
        }
    }

    /// Inserts a fresh singleton fragment for `item` at position `p`, which
    /// must be the sorted position among fragments that are all at least two
    /// integers away from `item`.
    fn insert_fragment_at(&mut self, p: usize, item: i64)
        requires
            old(self).well_formed(),
            p <= old(self).intervals@.len(),
            forall|k: int|
                0 <= k < p ==> (#[trigger] old(self).intervals@[k]).spec_end() + 1 < item as int,
            forall|k: int|
                p <= k < old(self).intervals@.len() ==> (item as int) + 1 < (#[trigger] old(
                    self,
                ).intervals@[k]).spec_start(),
        ensures
            final(self).well_formed(),
            forall|x: int|
                final(self).set_contains(x) <==> (old(self).set_contains(x) || x == item as int),
    {
        let ghost old_iv = self.intervals@;
        let singleton = ContiguousIntegerSet::new(item, item);
        self.intervals.insert(p, singleton);
        proof {
            lemma_covers_insert(old_iv, p as int, singleton, self.intervals@);
            assert forall|a: int, b: int| 0 <= a < b < self.intervals@.len() implies
                self.intervals@[a].spec_end() + 1 < self.intervals@[b].spec_start() by {
                let pa = p as int;
                assert(self.intervals@[a] == if a < pa {
                    old_iv[a]
                } else if a == pa {
                    singleton
                } else {
                    old_iv[a - 1]
                });
                assert(self.intervals@[b] == if b == pa {
                    singleton
                } else if b < pa {
                    old_iv[b]
                } else {
                    old_iv[b - 1]
                });
            }
        }
    }
}

impl Collecting<i64> for OrderedIntegerSet {
    open spec fn collect_req(&self, item: i64) -> bool {
        self.well_formed()
    }

    open spec fn collect_post(&self, item: i64, next: Self) -> bool {
        next.well_formed() && forall|x: int|
            next.set_contains(x) <==> (self.set_contains(x) || x == item as int)
    }

    fn collect(&mut self, item: i64) {
        let singleton = ContiguousIntegerSet::new(item, item);
        let n = self.intervals.len();
        // optimize for the special case where the item is to the right of
        // or extends the last interval
        if n == 0 {
            let ghost old_iv = self.intervals@;
            self.intervals.push(singleton);
            proof {
                lemma_covers_push(old_iv, singleton, self.intervals@);
            }
            return;
        }
        let last = self.intervals[n - 1];
        if (item as i128) > (last.end as i128) + 1 {
            // strictly beyond the last interval: append a singleton
            let ghost old_iv = self.intervals@;
            self.intervals.push(singleton);
            proof {
                lemma_covers_push(old_iv, singleton, self.intervals@);
                assert forall|i: int, j: int| 0 <= i < j < self.intervals@.len() implies
                    self.intervals@[i].spec_end() + 1 < self.intervals@[j].spec_start() by {
                    if j < self.intervals@.len() - 1 {
                        assert(old_iv[i].spec_end() + 1 < old_iv[j].spec_start());
                    } else if i < n - 1 {
                        assert(old_iv[i].spec_end() + 1 < old_iv[n - 1 as int].spec_start());
                    }
                }
            }
            return;
        }
        if item >= last.start {
            // inside the last interval, or extending it by one on the right
            let merged = if item > last.end {
                ContiguousIntegerSet::new(last.start, item)
            } else {
                last
            };
            let ghost old_iv = self.intervals@;
            self.intervals.set(n - 1, merged);
            proof {
                lemma_covers_update(old_iv, n - 1 as int, merged, self.intervals@);
                assert forall|x: int|
                    seq_covers(self.intervals@, x) <==> (seq_covers(old_iv, x) || x == item as int)
                    by {
                    if seq_covers_except(old_iv, n - 1 as int, x) {
                        assert(seq_covers(old_iv, x));
                    }
                    if seq_covers(old_iv, x) {
                        let i = choose|i: int| 0 <= i < old_iv.len() && old_iv[i].spec_contains(x);
                        if i == n - 1 {
                            assert(merged.spec_contains(x));
                        } else {
                            assert(seq_covers_except(old_iv, n - 1 as int, x));
                        }
                    }
                }
                assert forall|i: int, j: int| 0 <= i < j < self.intervals@.len() implies
                    self.intervals@[i].spec_end() + 1 < self.intervals@[j].spec_start() by {
                    assert(old_iv[i].spec_end() + 1 < old_iv[j].spec_start());
                }
            }
            return;
        }
        match self.locate_near(item) {
            Result::Ok(i) => {
                self.absorb_at(i, item);
            },
            Result::Err(p) => {
                self.insert_fragment_at(p, item);
            },
        }
    }
}

/// Merges two coalesced fragment lists into the coalesced fragment list of
/// their intersection, advancing past whichever current fragment ends first.
fn intersect_fragments(
    aa: &Vec<ContiguousIntegerSet>,
    bb: &Vec<ContiguousIntegerSet>,
) -> (out: Vec<ContiguousIntegerSet>)
    requires
        is_canonical(aa@),
        is_canonical(bb@),
    ensures
        is_canonical(out@),
        forall|x: int| #![trigger seq_covers(out@, x)]
            seq_covers(out@, x) <==> (seq_covers(aa@, x) && seq_covers(bb@, x)),
{
    let na = aa.len();
    let nb = bb.len();
    let mut out: Vec<ContiguousIntegerSet> = Vec::new();
    let mut i: usize = 0;
    let mut j: usize = 0;
    while i < na && j < nb
        invariant
            is_canonical(aa@),
            is_canonical(bb@),
            na == aa@.len(),
            nb == bb@.len(),
            i <= na,
            j <= nb,
            is_canonical(out@),
            forall|x: int| #![trigger seq_covers(out@, x)]
                seq_covers(out@, x) ==> (seq_covers(aa@, x) && seq_covers(bb@, x)),
            forall|x: int| #![trigger seq_covers(out@, x)]
                (seq_covers(aa@, x) && seq_covers(bb@, x) && !seq_covers(out@, x)) ==> exists|
                    p: int,
                    q: int,
                |
                    i <= p < na && j <= q < nb && #[trigger] aa@[p].spec_contains(x)
                        && #[trigger] bb@[q].spec_contains(x),
            out@.len() > 0 && i < na && j < nb ==> (out@.last().spec_end() + 1 < aa@[
                i as int].spec_start() || out@.last().spec_end() + 1 < bb@[j as int].spec_start()),
        decreases (na - i) + (nb - j),
    {
        let a = aa[i];
        let b = bb[j];
        let lo = if a.start >= b.start {
            a.start
        } else {
            b.start
        };
        let hi = if a.end <= b.end {
            a.end
        } else {
            b.end
        };
        let ghost old_out = out@;
        if lo <= hi {
            let piece = ContiguousIntegerSet::new(lo, hi);
            out.push(piece);
            proof {
                lemma_covers_push(old_out, piece, out@);
                assert forall|p1: int, p2: int| 0 <= p1 < p2 < out@.len() implies out@[
                p1].spec_end() + 1 < out@[p2].spec_start() by {
                    if p2 < out@.len() - 1 {
                        assert(old_out[p1].spec_end() + 1 < old_out[p2].spec_start());
                    } else if p1 < old_out.len() - 1 {
                        assert(old_out[p1].spec_end() + 1 < old_out[
                            old_out.len() - 1].spec_start());
                    }
                }
            }
        }
        let ghost mid_out = out@;
        let ghost old_i = i as int;
        let ghost old_j = j as int;
        if b.end <= a.end {
            j = j + 1;
        } else {
            i = i + 1;
        }
        proof {
            if out@.len() > 0 && i < na && j < nb {
                if lo <= hi {
                    // the freshly pushed piece ends where the consumed
                    // fragment ends, strictly before the next fragment starts
                    if b.end <= a.end {
                        assert(out@.last().spec_end() == b.spec_end());
                        assert(bb@[old_j].spec_end() + 1 < bb@[j as int].spec_start());
                    } else {
                        assert(out@.last().spec_end() == a.spec_end());
                        assert(aa@[old_i].spec_end() + 1 < aa@[i as int].spec_start());
                    }
                } else {
                    if b.end <= a.end {
                        if !(out@.last().spec_end() + 1 < aa@[i as int].spec_start()) {
                            assert(out@.last().spec_end() + 1 < bb@[old_j].spec_start());
                            assert(!bb@[old_j].spec_is_empty());
                            assert(bb@[old_j].spec_end() + 1 < bb@[j as int].spec_start());
                        }
                    } else {
                        if !(out@.last().spec_end() + 1 < bb@[j as int].spec_start()) {
                            assert(out@.last().spec_end() + 1 < aa@[old_i].spec_start());
                            assert(!aa@[old_i].spec_is_empty());
                            assert(aa@[old_i].spec_end() + 1 < aa@[i as int].spec_start());
                        }
                    }
                }
            }
            assert forall|x: int| #![trigger seq_covers(out@, x)]
                (seq_covers(aa@, x) && seq_covers(bb@, x) && !seq_covers(out@, x)) implies exists|
                p: int,
                q: int,
            |
                i <= p < na && j <= q < nb && #[trigger] aa@[p].spec_contains(x)
                    && #[trigger] bb@[q].spec_contains(x) by {
                if !seq_covers(old_out, x) {
                    let (p, q) = choose|p: int, q: int|
                        old_i <= p < na && old_j <= q < nb && #[trigger] aa@[p].spec_contains(x)
                            && #[trigger] bb@[q].spec_contains(x);
                    if p == old_i && q == old_j {
                        // the current pair's overlap was just emitted
                        assert(lo <= x <= hi);
                        assert(out@[out@.len() - 1].spec_contains(x));
                        assert(false);
                    } else if b.end <= a.end {
                        // `j` advanced; a later `aa` fragment cannot reach
                        // back into the consumed `bb` fragment
                        if q == old_j && p > old_i {
                            assert(aa@[old_i].spec_end() + 1 < aa@[p].spec_start());
                            assert(false);
                        }
                    } else {
                        if p == old_i && q > old_j {
                            assert(bb@[old_j].spec_end() + 1 < bb@[q].spec_start());
                            assert(false);
                        }
                    }
                } else {
                    assert(seq_covers(out@, x));
                    assert(false);
                }
            }
        }
    }
    proof {
        assert forall|x: int| #![trigger seq_covers(out@, x)]
            seq_covers(out@, x) <==> (seq_covers(aa@, x) && seq_covers(bb@, x)) by {}
    }
    out
}

/// The total number of integers in a fragment sequence.
pub open spec fn total_len(s: Seq<ContiguousIntegerSet>) -> int
    decreases s.len(),
{
    if s.len() == 0 {
        0
    } else {
        s[0].spec_length() + total_len(s.drop_first())
    }
}

pub proof fn lemma_total_len_nonneg(s: Seq<ContiguousIntegerSet>)
    ensures
        total_len(s) >= 0,
    decreases s.len(),
{
    if s.len() > 0 {
        lemma_total_len_nonneg(s.drop_first());
    }
}

pub proof fn lemma_total_len_push(s: Seq<ContiguousIntegerSet>, e: ContiguousIntegerSet)
    ensures
        total_len(s.push(e)) == total_len(s) + e.spec_length(),
    decreases s.len(),
{
    if s.len() == 0 {
        assert(s.push(e)[0] == e);
        assert(s.push(e).drop_first() =~= Seq::<ContiguousIntegerSet>::empty());
        assert(total_len(s.push(e)) == e.spec_length() + total_len(s.push(e).drop_first()));
        assert(total_len(s.push(e).drop_first()) == 0);
        assert(total_len(s) == 0);
    } else {
        assert(s.push(e)[0] == s[0]);
        assert(s.push(e).drop_first() =~= s.drop_first().push(e));
        lemma_total_len_push(s.drop_first(), e);
        assert(total_len(s.push(e)) == s[0].spec_length() + total_len(s.push(e).drop_first()));
        assert(total_len(s) == s[0].spec_length() + total_len(s.drop_first()));
    }
}

impl Finite for OrderedIntegerSet {
    open spec fn size_req(&self) -> bool {
        total_len(self.intervals@) <= usize::MAX
    }

    open spec fn size_post(&self, r: usize) -> bool {
        r == total_len(self.intervals@)
    }

    fn size(&self) -> (r: usize) {
        let n = self.intervals.len();
        let mut acc: usize = 0;
        proof {
            assert(self.intervals@.subrange(0, 0) =~= Seq::<ContiguousIntegerSet>::empty());
            lemma_total_len_nonneg(self.intervals@);
        }
        for k in 0..n
            invariant
                n == self.intervals@.len(),
                total_len(self.intervals@) <= usize::MAX,
                acc == total_len(self.intervals@.subrange(0, k as int)),
                total_len(self.intervals@.subrange(0, k as int)) <= total_len(self.intervals@),
        {
            let c = self.intervals[k];
            proof {
                let prefix = self.intervals@.subrange(0, k as int);
                let next_prefix = self.intervals@.subrange(0, k + 1 as int);
                assert(next_prefix =~= prefix.push(c));
                lemma_total_len_push(prefix, c);
                lemma_total_len_split(self.intervals@, k + 1 as int);
                lemma_total_len_nonneg(self.intervals@.subrange(k + 1 as int, n as int));
                lemma_total_len_nonneg(prefix);
                assert(c.spec_length() <= usize::MAX);
            }
            let len = if c.start > c.end {
                0usize
            } else {
                (((c.end as i128) - (c.start as i128) + 1) as u128) as usize
            };
            acc = acc + len;
        }
        proof {
            assert(self.intervals@.subrange(0, n as int) =~= self.intervals@);
        }
        acc
    }
}

/// The total length of a fragment sequence splits across any cut point.
pub proof fn lemma_total_len_split(s: Seq<ContiguousIntegerSet>, k: int)
    requires
        0 <= k <= s.len(),
    ensures
        total_len(s) == total_len(s.subrange(0, k)) + total_len(s.subrange(k, s.len() as int)),
    decreases k,
{
    if k == 0 {
        assert(s.subrange(0, 0) =~= Seq::<ContiguousIntegerSet>::empty());
        assert(s.subrange(0, s.len() as int) =~= s);
    } else {
        let t = s.drop_first();
        lemma_total_len_split(t, k - 1);
        assert(s.subrange(0, k).drop_first() =~= t.subrange(0, k - 1));
        assert(s.subrange(k, s.len() as int) =~= t.subrange(k - 1, t.len() as int));
        assert(total_len(s.subrange(0, k)) == s[0].spec_length() + total_len(
            t.subrange(0, k - 1),
        ));
    }
}

impl SetLike<i64> for OrderedIntegerSet {
    open spec fn is_empty_post(&self, r: bool) -> bool {
        r == (self.intervals@.len() == 0)
    }

    open spec fn contains_post(&self, element: i64, r: bool) -> bool {
        r == self.set_contains(element as int)
    }

    fn is_empty(&self) -> (r: bool) {
        self.intervals.len() == 0
    }

    fn contains(&self, element: &i64) -> (r: bool) {
        let item = *element;
        let n = self.intervals.len();
        for k in 0..n
            invariant
                item == *element,
                n == self.intervals@.len(),
                forall|i: int|
                    0 <= i < k ==> !(#[trigger] self.intervals@[i]).spec_contains(item as int),
        {
            let c = self.intervals[k];
            if item >= c.start && item <= c.end {
                proof {
                    assert(self.intervals@[k as int].spec_contains(item as int));
                    assert(seq_covers(self.intervals@, item as int));
                }
                return true;
            }
        }
        false
    }
}

impl Intersect<&OrderedIntegerSet, OrderedIntegerSet> for OrderedIntegerSet {
    open spec fn intersect_req(&self, other: &OrderedIntegerSet) -> bool {
        self.well_formed() && other.well_formed()
    }

    open spec fn intersect_post(
        &self,
        other: &OrderedIntegerSet,
        r: OrderedIntegerSet,
    ) -> bool {
        r.well_formed() && forall|x: int| #![trigger seq_covers(r.intervals@, x)]
            r.set_contains(x) <==> (self.set_contains(x) && other.set_contains(x))
    }

    open spec fn non_empty_intersection_post(&self, other: &OrderedIntegerSet, r: bool) -> bool {
        r == exists|x: int| self.set_contains(x) && other.set_contains(x)
    }

    fn intersect(&self, other: &OrderedIntegerSet) -> (r: OrderedIntegerSet) {
        OrderedIntegerSet { intervals: intersect_fragments(&self.intervals, &other.intervals) }
    }

    fn has_non_empty_intersection_with(&self, other: &OrderedIntegerSet) -> (r: bool) {
        let inter = self.intersect(other);
        let r = inter.intervals.len() > 0;
        proof {
            if r {
                let c = inter.intervals@[0];
                assert(c.spec_contains(c.spec_start()));
                assert(seq_covers(inter.intervals@, c.spec_start()));
            } else {
                assert forall|x: int|
                    !(self.set_contains(x) && other.set_contains(x)) by {
                    assert(!seq_covers(inter.intervals@, x));
                }
            }
        }
        r
    }
}

impl Intersect<&ContiguousIntegerSet, OrderedIntegerSet> for OrderedIntegerSet {
    open spec fn intersect_req(&self, other: &ContiguousIntegerSet) -> bool {
        self.well_formed()
    }

    open spec fn intersect_post(
        &self,
        other: &ContiguousIntegerSet,
        r: OrderedIntegerSet,
    ) -> bool {
        r.well_formed() && forall|x: int| #![trigger seq_covers(r.intervals@, x)]
            r.set_contains(x) <==> (self.set_contains(x) && other.spec_contains(x))
    }

    open spec fn non_empty_intersection_post(&self, other: &ContiguousIntegerSet, r: bool) -> bool {
        r == exists|x: int| self.set_contains(x) && other.spec_contains(x)
    }

    fn intersect(&self, other: &ContiguousIntegerSet) -> (r: OrderedIntegerSet) {
        let mut rhs: Vec<ContiguousIntegerSet> = Vec::new();
        if other.start <= other.end {
            rhs.push(*other);
        }
        let out = intersect_fragments(&self.intervals, &rhs);
        proof {
            assert forall|x: int| seq_covers(rhs@, x) <==> other.spec_contains(x) by {
                if other.spec_contains(x) {
                    assert(rhs@[0].spec_contains(x));
                }
            }
        }
        OrderedIntegerSet { intervals: out }
    }

    fn has_non_empty_intersection_with(&self, other: &ContiguousIntegerSet) -> (r: bool) {
        let inter = self.intersect(other);
        let r = inter.intervals.len() > 0;
        proof {
            if r {
                let c = inter.intervals@[0];
                assert(c.spec_contains(c.spec_start()));
                assert(seq_covers(inter.intervals@, c.spec_start()));
            } else {
                assert forall|x: int|
                    !(self.set_contains(x) && other.spec_contains(x)) by {
                    assert(!seq_covers(inter.intervals@, x));
                }
            }
        }
        r
    }
}

impl Intersect<&OrderedIntegerSet, OrderedIntegerSet> for ContiguousIntegerSet {
    open spec fn intersect_req(&self, other: &OrderedIntegerSet) -> bool {
        other.well_formed()
    }

    open spec fn intersect_post(
        &self,
        other: &OrderedIntegerSet,
        r: OrderedIntegerSet,
    ) -> bool {
        r.well_formed() && forall|x: int| #![trigger seq_covers(r.intervals@, x)]
            r.set_contains(x) <==> (self.spec_contains(x) && other.set_contains(x))
    }

    open spec fn non_empty_intersection_post(&self, other: &OrderedIntegerSet, r: bool) -> bool {
        r == exists|x: int| self.spec_contains(x) && other.set_contains(x)
    }

    fn intersect(&self, other: &OrderedIntegerSet) -> (r: OrderedIntegerSet) {
        let mut lhs: Vec<ContiguousIntegerSet> = Vec::new();
        if self.start <= self.end {
            lhs.push(*self);
        }
        let out = intersect_fragments(&lhs, &other.intervals);
        proof {
            assert forall|x: int| seq_covers(lhs@, x) <==> self.spec_contains(x) by {
                if self.spec_contains(x) {
                    assert(lhs@[0].spec_contains(x));
                }
            }
        }
        OrderedIntegerSet { intervals: out }
    }

    fn has_non_empty_intersection_with(&self, other: &OrderedIntegerSet) -> (r: bool) {
        let inter = self.intersect(other);
        let r = inter.intervals.len() > 0;
        proof {
            if r {
                let c = inter.intervals@[0];
                assert(c.spec_contains(c.spec_start()));
                assert(seq_covers(inter.intervals@, c.spec_start()));
            } else {
                assert forall|x: int|
                    !(self.spec_contains(x) && other.set_contains(x)) by {
                    assert(!seq_covers(inter.intervals@, x));
                }
            }
        }
        r
    }
}

/// The number of members of the interval `c` that are strictly below `x`.
pub open spec fn below_count(c: ContiguousIntegerSet, x: int) -> int {
    if c.spec_is_empty() || x <= c.spec_start() {
        0
    } else if x > c.spec_end() {
        c.spec_length()
    } else {
        x - c.spec_start()
    }
}

/// The ordinal position of `x` in the flattened member sequence: the number
/// of set members strictly below `x`.
pub open spec fn rank(s: Seq<ContiguousIntegerSet>, x: int) -> int
    decreases s.len(),
{
    if s.len() == 0 {
        0
    } else {
        below_count(s[0], x) + rank(s.drop_first(), x)
    }
}

/// Nothing ranks below a point that lies at or before every interval.
pub proof fn lemma_rank_zero(s: Seq<ContiguousIntegerSet>, x: int)
    requires
        forall|i: int| 0 <= i < s.len() ==> x <= (#[trigger] s[i]).spec_start(),
    ensures
        rank(s, x) == 0,
    decreases s.len(),
{
    if s.len() > 0 {
        let t = s.drop_first();
        assert forall|i: int| 0 <= i < t.len() implies x <= (#[trigger] t[i]).spec_start() by {
            assert(t[i] == s[i + 1]);
        }
        lemma_rank_zero(t, x);
    }
}

/// In a canonical set, a member's rank is the total length of the fragments
/// before its own, plus its offset into that fragment.
pub proof fn lemma_rank_member(s: Seq<ContiguousIntegerSet>, k: int, x: int)
    requires
        is_canonical(s),
        0 <= k < s.len(),
        s[k].spec_contains(x),
    ensures
        rank(s, x) == total_len(s.subrange(0, k)) + x - s[k].spec_start(),
    decreases s.len(),
{
    if k == 0 {
        let t = s.drop_first();
        assert forall|i: int| 0 <= i < t.len() implies x <= (#[trigger] t[i]).spec_start() by {
            assert(s[0].spec_end() + 1 < s[i + 1].spec_start());
            assert(t[i] == s[i + 1]);
        }
        lemma_rank_zero(t, x);
        assert(s.subrange(0, 0) =~= Seq::<ContiguousIntegerSet>::empty());
    } else {
        let t = s.drop_first();
        assert forall|i: int, j: int| 0 <= i < j < t.len() implies #[trigger] t[i].spec_end() + 1
            < #[trigger] t[j].spec_start() by {
            assert(s[i + 1].spec_end() + 1 < s[j + 1].spec_start());
        }
        assert forall|i: int| 0 <= i < t.len() implies !(#[trigger] t[i]).spec_is_empty() by {
            assert(t[i] == s[i + 1]);
        }
        assert(t[k - 1] == s[k]);
        lemma_rank_member(t, k - 1, x);
        assert(s[0].spec_end() + 1 < s[k].spec_start());
        assert(below_count(s[0], x) == s[0].spec_length());
        assert(s.subrange(0, k).drop_first() =~= t.subrange(0, k - 1));
        assert(total_len(s.subrange(0, k)) == s[0].spec_length() + total_len(
            t.subrange(0, k - 1),
        ));
    }
}

/// An iterator that yields the members of an `OrderedIntegerSet` in
/// ascending order: `current_interval_index` addresses the fragment being
/// walked and `current_element_index` the offset inside it.
pub struct IntegerSetIter {
    pub ordered_integer_set: OrderedIntegerSet,
    pub current_interval_index: usize,
    pub current_element_index: i128,
}

impl IntegerSetIter {
    /// The cursor addresses a position in the flattened member sequence.
    pub open spec fn cursor_ok(self) -> bool {
        &&& self.ordered_integer_set.well_formed()
        &&& self.current_interval_index <= self.ordered_integer_set.intervals@.len()
        &&& 0 <= self.current_element_index
        &&& (self.current_interval_index < self.ordered_integer_set.intervals@.len()
            ==> self.current_element_index <= self.ordered_integer_set.intervals@[
            self.current_interval_index as int].spec_length())
        &&& (self.current_interval_index == self.ordered_integer_set.intervals@.len()
            ==> self.current_element_index == 0)
    }

    /// The number of members already yielded.
    pub open spec fn yielded(self) -> int {
        total_len(self.ordered_integer_set.intervals@.subrange(
            0,
            self.current_interval_index as int,
        )) + self.current_element_index
    }

    /// Yields the member at the cursor's ordinal position, if any is left.
    pub fn next(&mut self) -> (r: Option<i64>)
        requires
            old(self).cursor_ok(),
        ensures
            final(self).cursor_ok(),
            final(self).ordered_integer_set == old(self).ordered_integer_set,
            match r {
                Option::Some(v) => {
                    &&& old(self).yielded() < total_len(old(self).ordered_integer_set.intervals@)
                    &&& old(self).ordered_integer_set.set_contains(v as int)
                    &&& rank(old(self).ordered_integer_set.intervals@, v as int) == old(
                        self,
                    ).yielded()
                    &&& final(self).yielded() == old(self).yielded() + 1
                },
                Option::None => old(self).yielded() == total_len(
                    old(self).ordered_integer_set.intervals@,
                ),
            },
    {
        let ghost s = self.ordered_integer_set.intervals@;
        let n = self.ordered_integer_set.intervals.len();
        if self.current_interval_index < n {
            let c = self.ordered_integer_set.intervals[self.current_interval_index];
            let clen = ((c.end as i128) - (c.start as i128)) + 1;
            if self.current_element_index >= clen {
                // the current fragment is exhausted: move to the next one
                proof {
                    let k = self.current_interval_index as int;
                    let prefix = s.subrange(0, k);
                    assert(s.subrange(0, k + 1) =~= prefix.push(c));
                    lemma_total_len_push(prefix, c);
                }
                self.current_interval_index = self.current_interval_index + 1;
                self.current_element_index = 0;
            }
        }
        if self.current_interval_index >= n {
            proof {
                assert(s.subrange(0, n as int) =~= s);
            }
            return Option::None;
        }
        let c = self.ordered_integer_set.intervals[self.current_interval_index];
        let val = ((c.start as i128) + self.current_element_index) as i64;
        proof {
            let k = self.current_interval_index as int;
            lemma_rank_member(s, k, val as int);
            assert(s[k].spec_contains(val as int));
            assert(seq_covers(s, val as int));
            lemma_total_len_split(s, k + 1);
            lemma_total_len_nonneg(s.subrange(k + 1, s.len() as int));
            let prefix = s.subrange(0, k);
            assert(s.subrange(0, k + 1) =~= prefix.push(c));
            lemma_total_len_push(prefix, c);
        }
        self.current_element_index = self.current_element_index + 1;
        Option::Some(val)
    }
}

impl From<OrderedIntegerSet> for IntegerSetIter {
    fn from(ordered_integer_set: OrderedIntegerSet) -> (r: IntegerSetIter) {
        IntegerSetIter {
            ordered_integer_set,
            current_interval_index: 0,
            current_element_index: 0,
        }
    }
}

impl vstd::std_specs::convert::FromSpecImpl<OrderedIntegerSet> for IntegerSetIter {
    open spec fn obeys_from_spec() -> bool {
        true
    }

    open spec fn from_spec(ordered_integer_set: OrderedIntegerSet) -> Self {
        IntegerSetIter { ordered_integer_set, current_interval_index: 0, current_element_index: 0 }
    }
}

impl crate::traits::ToIterator<'_, IntegerSetIter, i64> for OrderedIntegerSet {
    open spec fn to_iter_req(&self) -> bool {
        self.well_formed()
    }

    open spec fn to_iter_post(&self, r: IntegerSetIter) -> bool {
        &&& r.cursor_ok()
        &&& r.ordered_integer_set.intervals@ == self.intervals@
        &&& r.yielded() == 0
    }

    fn to_iter(&self) -> (r: IntegerSetIter) {
        let copy = self.to_non_empty_intervals();
        proof {
            assert(copy.intervals@.subrange(0, 0) =~= Seq::<ContiguousIntegerSet>::empty());
        }
        IntegerSetIter::from(copy)
    }
}

/// Round-trip law: inserting the elements of a finite sequence one at a time
/// via `collect` yields the same canonical fragments as bulk-constructing a
/// set from the full element list, because both produce the canonical set
/// whose members are exactly the listed elements, and that representation is
/// unique.
pub proof fn lemma_incremental_equals_bulk(
    items: Seq<i64>,
    a: OrderedIntegerSet,
    b: OrderedIntegerSet,
)
    requires
        a.well_formed(),
        b.well_formed(),
        forall|x: int|
            a.set_contains(x) <==> exists|i: int|
                0 <= i < items.len() && (#[trigger] items[i]) as int == x,
        forall|x: int|
            b.set_contains(x) <==> exists|i: int|
                0 <= i < items.len() && (#[trigger] items[i]) as int == x,
    ensures
        a.intervals@ == b.intervals@,
{
    assert forall|x: int| seq_covers(a.intervals@, x) <==> seq_covers(b.intervals@, x) by {
        assert(seq_covers(a.intervals@, x) <==> exists|i: int|
            0 <= i < items.len() && (#[trigger] items[i]) as int == x);
        assert(seq_covers(b.intervals@, x) <==> exists|i: int|
            0 <= i < items.len() && (#[trigger] items[i]) as int == x);
    }
    lemma_canonical_unique(a.intervals@, b.intervals@);
}

/// For an `OrderedIntegerSet` with n members, the range `a..b` slices out
/// the members from the a-th (inclusive) to the b-th (exclusive) position.
impl Slicing<&OrderedIntegerSet, OrderedIntegerSet> for core::ops::Range<usize> {
    open spec fn slice_req(self, input: &OrderedIntegerSet) -> bool {
        input.well_formed() && total_len(input.intervals@) <= usize::MAX
    }

    open spec fn slice_post(self, input: &OrderedIntegerSet, r: OrderedIntegerSet) -> bool {
        r.well_formed() && forall|x: int| #![trigger seq_covers(r.intervals@, x)]
            r.set_contains(x) <==> (input.set_contains(x) && self.start <= rank(
                input.intervals@,
                x,
            ) < self.end)
    }

    fn slice(self, input: &OrderedIntegerSet) -> (r: OrderedIntegerSet) {
        input.slice(self.start, self.end)
    }
}

/// For a `ContiguousIntegerSet`, the range `a..b` addresses the members from
/// the a-th (inclusive) to the b-th (exclusive) position; an empty request,
/// or one starting past the last member, yields nothing. The end is not
/// clamped: a range reaching past the set extends the result beyond it.
impl Slicing<&ContiguousIntegerSet, Option<ContiguousIntegerSet>> for core::ops::Range<usize> {
    open spec fn slice_req(self, input: &ContiguousIntegerSet) -> bool {
        &&& input.spec_length() <= usize::MAX
        &&& input.spec_start() + self.end <= i64::MAX + 1
    }

    open spec fn slice_post(
        self,
        input: &ContiguousIntegerSet,
        r: Option<ContiguousIntegerSet>,
    ) -> bool {
        match r {
            Option::Some(c) => self.start < self.end && self.start < input.spec_length()
                && c.spec_start() == input.spec_start() + self.start && c.spec_end()
                == input.spec_start() + self.end - 1,
            Option::None => self.start >= self.end || self.start >= input.spec_length(),
        }
    }

    fn slice(self, input: &ContiguousIntegerSet) -> (r: Option<ContiguousIntegerSet>) {
        let size = if input.start > input.end {
            0usize
        } else {
            (((input.end as i128) - (input.start as i128) + 1) as u128) as usize
        };
        if self.start >= self.end || self.start >= size {
            return Option::None;
        }
        let pstart = ((input.start as i128) + (self.start as i128)) as i64;
        let pend = ((input.start as i128) + (self.end as i128) - 1) as i64;
        Option::Some(ContiguousIntegerSet::new(pstart, pend))
    }
}

impl Default for OrderedIntegerSet {
    /// The empty set.
    fn default() -> (r: Self)
        ensures
            r.well_formed(),
            forall|x: int| !r.set_contains(x),
    {
        OrderedIntegerSet::new()
    }
}

impl CoalesceIntervals<ContiguousIntegerSet> for OrderedIntegerSet {
    open spec fn to_coalesced_post(&self, r: Vec<ContiguousIntegerSet>) -> bool {
        is_canonical(r@) && forall|x: int| seq_covers(r@, x) <==> self.set_contains(x)
    }

    open spec fn coalesce_inplace_post(&self, next: Self) -> bool {
        next.well_formed() && forall|x: int| next.set_contains(x) <==> self.set_contains(x)
    }

    fn to_coalesced_intervals(&self) -> (r: Vec<ContiguousIntegerSet>) {
        self.intervals.to_coalesced_intervals()
    }

    fn coalesce_intervals_inplace(&mut self) {
        self.intervals.coalesce_intervals_inplace();
    }

    fn into_coalesced(self) -> (r: Self) {
        let mut v = self;
        v.coalesce_intervals_inplace();
        v
    }
}

/// Exact characterization of the set difference `a - b` between two
/// contiguous integer sets, as an `OrderedIntegerSet`.
pub open spec fn difference_of(
    a: ContiguousIntegerSet,
    b: ContiguousIntegerSet,
    d: OrderedIntegerSet,
) -> bool {
    d.well_formed() && forall|x: int| #![trigger seq_covers(d.intervals@, x)]
        d.set_contains(x) <==> (a.spec_contains(x) && !b.spec_contains(x))
}

/// Whether `x` belongs to an optional contiguous integer set.
pub open spec fn opt_contains(i: Option<ContiguousIntegerSet>, x: int) -> bool {
    match i {
        Option::Some(c) => c.spec_contains(x),
        Option::None => false,
    }
}

/// Law: for all ranges A and B, the intersection `A ∩ B` and the difference
/// `A - B` partition A: their union is A and they are disjoint.
pub proof fn lemma_intersection_difference_partition(
    a: ContiguousIntegerSet,
    b: ContiguousIntegerSet,
    i: Option<ContiguousIntegerSet>,
    d: OrderedIntegerSet,
)
    requires
        a.intersection_of(b, i),
        difference_of(a, b, d),
    ensures
        forall|x: int| (opt_contains(i, x) || d.set_contains(x)) <==> a.spec_contains(x),
        forall|x: int| !(opt_contains(i, x) && d.set_contains(x)),
{
    assert forall|x: int|
        (opt_contains(i, x) || d.set_contains(x)) <==> a.spec_contains(x) by {
        assert(d.set_contains(x) <==> (a.spec_contains(x) && !b.spec_contains(x)));
        match i {
            Option::Some(c) => {
                assert(c.spec_contains(x) <==> (a.spec_contains(x) && b.spec_contains(x)));
            },
            Option::None => {
                assert(!(a.spec_contains(x) && b.spec_contains(x)));
            },
        }
    }
    assert forall|x: int| !(opt_contains(i, x) && d.set_contains(x)) by {
        assert(d.set_contains(x) <==> (a.spec_contains(x) && !b.spec_contains(x)));
        match i {
            Option::Some(c) => {
                assert(c.spec_contains(x) <==> (a.spec_contains(x) && b.spec_contains(x)));
            },
            Option::None => {},
        }
    }
}

impl ContiguousIntegerSet {
    /// Set difference between two contiguous integer sets: `self - rhs`,
    /// consisting of the sub-range of `self` left of `rhs` and the sub-range
    /// of `self` right of `rhs`, each included only if non-empty.
    pub fn difference(&self, rhs: &ContiguousIntegerSet) -> (d: OrderedIntegerSet)
        ensures
            difference_of(*self, *rhs, d),
            d.intervals@.len() <= 2,
    {
        let mut diff: Vec<ContiguousIntegerSet> = Vec::new();
        if self.start > self.end {
            return OrderedIntegerSet { intervals: diff };
        }
        if rhs.start > rhs.end {
            diff.push(*self);
            proof {
                assert forall|x: int|
                    seq_covers(diff@, x) <==> (self.spec_contains(x) && !rhs.spec_contains(x)) by {
                    if self.spec_contains(x) {
                        assert(diff@[0].spec_contains(x));
                    }
                }
            }
            return OrderedIntegerSet { intervals: diff };
        }
        if rhs.start > self.start {
            let left_end = if self.end <= rhs.start - 1 {
                self.end
            } else {
                rhs.start - 1
            };
            diff.push(ContiguousIntegerSet::new(self.start, left_end));
        }
        if rhs.end < self.end {
            let right_start = if rhs.end + 1 >= self.start {
                rhs.end + 1
            } else {
                self.start
            };
            diff.push(ContiguousIntegerSet::new(right_start, self.end));
        }
        proof {
            assert forall|x: int|
                seq_covers(diff@, x) <==> (self.spec_contains(x) && !rhs.spec_contains(x)) by {
                if self.spec_contains(x) && !rhs.spec_contains(x) {
                    if x < rhs.spec_start() {
                        assert(diff@[0].spec_contains(x));
                    } else {
                        assert(x > rhs.spec_end());
                        assert(diff@[diff@.len() - 1].spec_contains(x));
                    }
                }
                if seq_covers(diff@, x) {
                    let k = choose|k: int| 0 <= k < diff@.len() && diff@[k].spec_contains(x);
                    assert(self.spec_contains(x) && !rhs.spec_contains(x));
                }
            }
        }
        OrderedIntegerSet { intervals: diff }
    }

    /// Set difference `self - rhs` between a contiguous integer set and a
    /// canonical integer set: a single left-to-right sweep over the
    /// subtrahend's fragments, carrying the still-unconsumed remainder of
    /// `self`.
    pub fn difference_set(&self, rhs: &OrderedIntegerSet) -> (d: OrderedIntegerSet)
        requires
            rhs.well_formed(),
        ensures
            d.well_formed(),
            forall|x: int| #![trigger seq_covers(d.intervals@, x)]
                d.set_contains(x) <==> (self.spec_contains(x) && !rhs.set_contains(x)),
    {
        let mut out: Vec<ContiguousIntegerSet> = Vec::new();
        if self.start > self.end {
            return OrderedIntegerSet { intervals: out };
        }
        let n = rhs.intervals.len();
        // the remainder of `self` not yet accounted for is
        // [rem_start, self.end]; the bound is kept in `i128` so that moving
        // it one past a fragment's end cannot overflow
        let mut rem_start: i128 = self.start as i128;
        let mut j: usize = 0;
        while j < n && rhs.intervals[j].start <= self.end
            invariant
                rhs.well_formed(),
                n == rhs.intervals@.len(),
                j <= n,
                self.start <= self.end,
                self.start as i128 <= rem_start,
                is_canonical(out@),
                forall|i: int| 0 <= i < out@.len() ==> (#[trigger] out@[i]).spec_end() + 1 < rem_start as int,
                forall|k: int|
                    0 <= k < j ==> ((#[trigger] rhs.intervals@[k]).spec_end()) < rem_start as int,
                forall|x: int| #![trigger seq_covers(out@, x)]
                    seq_covers(out@, x) ==> (self.spec_contains(x) && !seq_covers(
                        rhs.intervals@,
                        x,
                    )),
                forall|x: int| #![trigger seq_covers(out@, x)]
                    (self.spec_contains(x) && !seq_covers(rhs.intervals@, x) && x < rem_start as int)
                        ==> seq_covers(out@, x),
            decreases n - j,
        {
            let b = rhs.intervals[j];
            if (b.end as i128) >= rem_start {
                let ghost old_out = out@;
                let ghost old_rem = rem_start;
                if (b.start as i128) > rem_start {
                    // the part of the remainder left of this fragment
                    // survives the subtraction
                    let piece = ContiguousIntegerSet::new(rem_start as i64, b.start - 1);
                    out.push(piece);
                    proof {
                        lemma_covers_push(old_out, piece, out@);
                        assert forall|x: int|
                            piece.spec_contains(x) implies (self.spec_contains(x) && !seq_covers(
                            rhs.intervals@,
                            x,
                        )) by {
                            if seq_covers(rhs.intervals@, x) {
                                let k = choose|k: int|
                                    0 <= k < rhs.intervals@.len() && rhs.intervals@[
                                    k].spec_contains(x);
                                if k < j {
                                    assert(rhs.intervals@[k].spec_end() < old_rem as int);
                                } else if k > j {
                                    assert(rhs.intervals@[j as int].spec_end() + 1 < rhs.intervals@[
                                        k].spec_start());
                                }
                                assert(false);
                            }
                        }
                    }
                }
                rem_start = (b.end as i128) + 1;
                proof {
                    assert forall|x: int|
                        (self.spec_contains(x) && !seq_covers(rhs.intervals@, x) && x
                            < rem_start as int) implies seq_covers(out@, x) by {
                        if x >= old_rem {
                            // between the old remainder bound and the new one,
                            // everything not in the subtrahend fragment lies
                            // in the piece that was just pushed
                            assert(!b.spec_contains(x));
                            assert(x < b.spec_start());
                            assert(out@[out@.len() - 1].spec_contains(x));
                        }
                    }
                }
            } else {
                proof {
                    assert(rhs.intervals@[j as int].spec_end() < rem_start as int);
                }
            }
            j = j + 1;
        }
        // whatever the sweep has not consumed survives verbatim
        let ghost old_out = out@;
        let ghost final_j = j as int;
        if rem_start <= (self.end as i128) {
            let piece = ContiguousIntegerSet::new(rem_start as i64, self.end);
            out.push(piece);
            proof {
                lemma_covers_push(old_out, piece, out@);
                assert forall|x: int|
                    piece.spec_contains(x) implies (self.spec_contains(x) && !seq_covers(
                    rhs.intervals@,
                    x,
                )) by {
                    if seq_covers(rhs.intervals@, x) {
                        let k = choose|k: int|
                            0 <= k < rhs.intervals@.len() && rhs.intervals@[k].spec_contains(x);
                        if k < final_j {
                            assert(rhs.intervals@[k].spec_end() < rem_start as int);
                        } else {
                            // the loop stopped only once the remaining
                            // fragments all start beyond `self`
                            assert(rhs.intervals@[final_j].spec_start() > self.spec_end());
                            if k > final_j {
                                assert(rhs.intervals@[final_j].spec_end() + 1 < rhs.intervals@[
                                    k].spec_start());
                                assert(!rhs.intervals@[final_j].spec_is_empty());
                            }
                            assert(rhs.intervals@[k].spec_start() > self.spec_end());
                        }
                        assert(false);
                    }
                }
            }
        }
        proof {
            assert forall|x: int|
                seq_covers(out@, x) <==> (self.spec_contains(x) && !seq_covers(rhs.intervals@, x))
                by {
                if self.spec_contains(x) && !seq_covers(rhs.intervals@, x) && x >= rem_start as int {
                    assert(out@[out@.len() - 1].spec_contains(x));
                }
            }
        }
        OrderedIntegerSet { intervals: out }
    }
}

/// Appends the fragments of one source interval to a growing coalesced
/// fragment list, all of whose entries end at least two integers before the
/// source interval starts.
fn append_fragments(
    out: &mut Vec<ContiguousIntegerSet>,
    frags: &Vec<ContiguousIntegerSet>,
    Ghost(a): Ghost<ContiguousIntegerSet>,
)
    requires
        is_canonical(old(out)@),
        is_canonical(frags@),
        forall|x: int| #![trigger seq_covers(frags@, x)]
            seq_covers(frags@, x) ==> a.spec_contains(x),
        forall|i: int|
            0 <= i < old(out)@.len() ==> (#[trigger] old(out)@[i]).spec_end() + 1
                < a.spec_start(),
    ensures
        final(out)@ == old(out)@ + frags@,
        is_canonical(final(out)@),
{
    let m = frags.len();
    proof {
        assert(out@ =~= old(out)@ + frags@.subrange(0, 0));
    }
    for t in 0..m
        invariant
            m == frags@.len(),
            is_canonical(frags@),
            is_canonical(out@),
            out@ == old(out)@ + frags@.subrange(0, t as int),
            forall|x: int| #![trigger seq_covers(frags@, x)]
                seq_covers(frags@, x) ==> a.spec_contains(x),
            forall|i: int|
                0 <= i < old(out)@.len() ==> (#[trigger] old(out)@[i]).spec_end() + 1
                    < a.spec_start(),
    {
        let f = frags[t];
        let ghost before = out@;
        out.push(f);
        proof {
            assert(out@ =~= old(out)@ + frags@.subrange(0, t + 1 as int));
            assert(!frags@[t as int].spec_is_empty());
            assert(frags@[t as int].spec_contains(f.spec_start()));
            assert(seq_covers(frags@, f.spec_start()));
            assert(f.spec_start() >= a.spec_start());
            assert forall|i: int, j: int| 0 <= i < j < out@.len() implies out@[i].spec_end() + 1
                < out@[j].spec_start() by {
                if j < out@.len() - 1 {
                    assert(before[i].spec_end() + 1 < before[j].spec_start());
                } else {
                    if i < old(out)@.len() {
                        assert(out@[i] == old(out)@[i]);
                        assert(old(out)@[i].spec_end() + 1 < a.spec_start());
                    } else {
                        let fi = i - old(out)@.len();
                        assert(out@[i] == frags@[fi]);
                        assert(frags@[fi].spec_end() + 1 < frags@[t as int].spec_start());
                    }
                }
            }
        }
    }
    proof {
        assert(frags@.subrange(0, m as int) =~= frags@);
    }
}

impl OrderedIntegerSet {
    /// Set difference `self - rhs` between a canonical integer set and a
    /// single contiguous integer set.
    pub fn difference_contiguous(&self, rhs: &ContiguousIntegerSet) -> (d: OrderedIntegerSet)
        requires
            self.well_formed(),
        ensures
            d.well_formed(),
            forall|x: int| #![trigger seq_covers(d.intervals@, x)]
                d.set_contains(x) <==> (self.set_contains(x) && !rhs.spec_contains(x)),
    {
        let mut out: Vec<ContiguousIntegerSet> = Vec::new();
        let n = self.intervals.len();
        let mut k: usize = 0;
        while k < n
            invariant
                self.well_formed(),
                n == self.intervals@.len(),
                k <= n,
                is_canonical(out@),
                forall|x: int| #![trigger seq_covers(out@, x)]
                    seq_covers(out@, x) <==> (seq_covers(self.intervals@.subrange(0, k as int), x)
                        && !rhs.spec_contains(x)),
                forall|i: int|
                    0 <= i < out@.len() && k < n ==> (#[trigger] out@[i]).spec_end() + 1
                        < self.intervals@[k as int].spec_start(),
            decreases n - k,
        {
            let a = self.intervals[k];
            let frag_set = a.difference(rhs);
            let ghost before = out@;
            append_fragments(&mut out, &frag_set.intervals, Ghost(a));
            proof {
                lemma_covers_concat(before, frag_set.intervals@, out@);
                let ghost prefix = self.intervals@.subrange(0, k as int);
                let ghost next_prefix = self.intervals@.subrange(0, k + 1 as int);
                assert(next_prefix =~= prefix.push(a));
                lemma_covers_push(prefix, a, next_prefix);
                assert forall|x: int|
                    seq_covers(out@, x) <==> (seq_covers(next_prefix, x) && !rhs.spec_contains(x))
                    by {
                    assert(seq_covers(out@, x) <==> (seq_covers(before, x) || seq_covers(
                        frag_set.intervals@,
                        x,
                    )));
                    assert(seq_covers(frag_set.intervals@, x) <==> (a.spec_contains(x)
                        && !rhs.spec_contains(x)));
                    assert(seq_covers(before, x) <==> (seq_covers(prefix, x)
                        && !rhs.spec_contains(x)));
                    assert(seq_covers(next_prefix, x) <==> (seq_covers(prefix, x)
                        || a.spec_contains(x)));
                }
                assert forall|i: int| 0 <= i < out@.len() && k + 1 < n implies (
                #[trigger] out@[i]).spec_end() + 1 < self.intervals@[k + 1 as int].spec_start() by {
                    if i < before.len() {
                        assert(before[i].spec_end() + 1 < self.intervals@[k as int].spec_start());
                        assert(self.intervals@[k as int].spec_end() + 1 < self.intervals@[
                            k + 1 as int].spec_start());
                    } else {
                        let f = out@[i];
                        assert(f == frag_set.intervals@[i - before.len()]);
                        assert(f.spec_contains(f.spec_end()));
                        assert(seq_covers(frag_set.intervals@, f.spec_end()));
                        assert(a.spec_contains(f.spec_end()));
                        assert(self.intervals@[k as int].spec_end() + 1 < self.intervals@[
                            k + 1 as int].spec_start());
                    }
                }
            }
            k = k + 1;
        }
        proof {
            assert(self.intervals@.subrange(0, n as int) =~= self.intervals@);
        }
        OrderedIntegerSet { intervals: out }
    }

    /// Set difference `self - rhs` between two canonical integer sets.
    pub fn difference(&self, rhs: &OrderedIntegerSet) -> (d: OrderedIntegerSet)
        requires
            self.well_formed(),
            rhs.well_formed(),
        ensures
            d.well_formed(),
            forall|x: int| #![trigger seq_covers(d.intervals@, x)]
                d.set_contains(x) <==> (self.set_contains(x) && !rhs.set_contains(x)),
    {
        let mut out: Vec<ContiguousIntegerSet> = Vec::new();
        let n = self.intervals.len();
        for k in 0..n
            invariant
                self.well_formed(),
                rhs.well_formed(),
                n == self.intervals@.len(),
                is_canonical(out@),
                forall|x: int| #![trigger seq_covers(out@, x)]
                    seq_covers(out@, x) <==> (seq_covers(self.intervals@.subrange(0, k as int), x)
                        && !seq_covers(rhs.intervals@, x)),
                forall|i: int|
                    0 <= i < out@.len() && k < n ==> (#[trigger] out@[i]).spec_end() + 1
                        < self.intervals@[k as int].spec_start(),
        {
            let a = self.intervals[k];
            let frag_set = a.difference_set(rhs);
            let ghost before = out@;
            append_fragments(&mut out, &frag_set.intervals, Ghost(a));
            proof {
                lemma_covers_concat(before, frag_set.intervals@, out@);
                let ghost prefix = self.intervals@.subrange(0, k as int);
                let ghost next_prefix = self.intervals@.subrange(0, k + 1 as int);
                assert(next_prefix =~= prefix.push(a));
                lemma_covers_push(prefix, a, next_prefix);
                assert forall|x: int|
                    seq_covers(out@, x) <==> (seq_covers(next_prefix, x) && !seq_covers(
                        rhs.intervals@,
                        x,
                    )) by {
                    assert(seq_covers(out@, x) <==> (seq_covers(before, x) || seq_covers(
                        frag_set.intervals@,
                        x,
                    )));
                    assert(seq_covers(frag_set.intervals@, x) <==> (a.spec_contains(x)
                        && !seq_covers(rhs.intervals@, x)));
                    assert(seq_covers(before, x) <==> (seq_covers(prefix, x) && !seq_covers(
                        rhs.intervals@,
                        x,
                    )));
                    assert(seq_covers(next_prefix, x) <==> (seq_covers(prefix, x)
                        || a.spec_contains(x)));
                }
                assert forall|i: int| 0 <= i < out@.len() && k + 1 < n implies (
                #[trigger] out@[i]).spec_end() + 1 < self.intervals@[k + 1 as int].spec_start() by {
                    if i < before.len() {
                        assert(before[i].spec_end() + 1 < self.intervals@[k as int].spec_start());
                        assert(self.intervals@[k as int].spec_end() + 1 < self.intervals@[
                            k + 1 as int].spec_start());
                    } else {
                        let f = out@[i];
                        assert(f == frag_set.intervals@[i - before.len()]);
                        assert(f.spec_contains(f.spec_end()));
                        assert(seq_covers(frag_set.intervals@, f.spec_end()));
                        assert(a.spec_contains(f.spec_end()));
                        assert(self.intervals@[k as int].spec_end() + 1 < self.intervals@[
                            k + 1 as int].spec_start());
                    }
                }
            }
        }
        proof {
            assert(self.intervals@.subrange(0, n as int) =~= self.intervals@);
        }
        OrderedIntegerSet { intervals: out }
    }
}

} // verus!
