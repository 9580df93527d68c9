use crate::interval::traits::{Coalesce, Interval};
use crate::set::traits::{Finite, Intersect, SetLike};
use crate::traits::Slicing;
use vstd::prelude::*;

verus! {

/// Represents the set of integers in `[start, end]`.
/// `Ord` is automatically derived so that comparison is done lexicographically
/// with `start` first and `end` second.
#[derive(Copy, Clone, Eq, PartialEq, Structural, Hash, Debug, Ord, PartialOrd)]
pub struct ContiguousIntegerSet {
    pub start: i64,
    pub end: i64,
}

impl ContiguousIntegerSet {
    pub open spec fn spec_start(self) -> int {
        self.start as int
    }

    pub open spec fn spec_end(self) -> int {
        self.end as int
    }

    pub open spec fn spec_is_empty(self) -> bool {
        self.start > self.end
    }

    /// The integers that belong to the set.
    pub open spec fn spec_contains(self, x: int) -> bool {
        self.spec_start() <= x && x <= self.spec_end()
    }

    /// Number of integers in the set.
    pub open spec fn spec_length(self) -> int {
        if self.spec_is_empty() {
            0
        } else {
            self.spec_end() - self.spec_start() + 1
        }
    }

    /// Semantic subset relation between two contiguous integer sets.
    pub open spec fn spec_subset_of(self, other: Self) -> bool {
        forall|x: int| self.spec_contains(x) ==> other.spec_contains(x)
    }

    /// Exact characterization of the intersection of two contiguous
    /// integer sets: `None` means the intersection is empty; `Some(i)`
    /// is the non-empty set of integers common to both.
    pub open spec fn intersection_of(self, other: Self, r: Option<Self>) -> bool {
        match r {
            Option::Some(i) => !i.spec_is_empty() && forall|x: int|
                i.spec_contains(x) <==> (self.spec_contains(x) && other.spec_contains(x)),
            Option::None => forall|x: int| !(self.spec_contains(x) && other.spec_contains(x)),
        }
    }

    /// Creates an integer set `[start, end]`, where the `end` is inclusive.
    pub fn new(start: i64, end: i64) -> (r: Self)
        ensures
            r.start == start,
            r.end == end,
    {
        ContiguousIntegerSet { start, end }
    }

    /// The `slicer` can be any value that implements the `Slicing` trait,
    /// e.g. a `Range<usize>` selecting members by their ordinal position.
    pub fn slice<'a, I: Slicing<&'a ContiguousIntegerSet, Option<ContiguousIntegerSet>>>(
        &'a self,
        slicer: I,
    ) -> (r: Option<ContiguousIntegerSet>)
        requires
            slicer.slice_req(self),
        ensures
            slicer.slice_post(self, r),
    {
        slicer.slice(self)
    }

    pub fn get_start_and_end(&self) -> (r: (i64, i64))
        ensures
            r == (self.start, self.end),
    {
        (self.start, self.end)
    }

    pub fn is_subset_of(&self, other: &ContiguousIntegerSet) -> (r: bool)
        ensures
            r == self.spec_subset_of(*other),
    {
        // note that the empty set is a subset of any set
        let r = self.start > self.end || (other.start <= self.start && self.end <= other.end);
        proof {
            if r {
                assert forall|x: int| self.spec_contains(x) implies other.spec_contains(x) by {}
            } else {
                // a witness integer that lies in `self` but not in `other`
                if other.start > self.start {
                    assert(self.spec_contains(self.spec_start())
                        && !other.spec_contains(self.spec_start()));
                } else {
                    assert(self.spec_contains(self.spec_end())
                        && !other.spec_contains(self.spec_end()));
                }
            }
        }
        r
    }

    pub fn is_strict_subset_of(&self, other: &ContiguousIntegerSet) -> (r: bool)
        ensures
            r == (self.spec_subset_of(*other) && exists|x: int|
                other.spec_contains(x) && !self.spec_contains(x)),
    {
        let subset = self.is_subset_of(other);
        let r = subset && !(self.start == other.start && self.end == other.end)
            && !(other.start > other.end);
        proof {
            if r {
                // exhibit an element of `other` that is missing from `self`
                if self.start > self.end {
                    assert(other.spec_contains(other.spec_start())
                        && !self.spec_contains(other.spec_start()));
                } else {
                    // `self` is non-empty, so the subset relation bounds it
                    // by `other` on both sides
                    assert(other.spec_contains(self.spec_start()));
                    assert(other.spec_contains(self.spec_end()));
                    if other.start < self.start {
                        assert(other.spec_contains(other.spec_start())
                            && !self.spec_contains(other.spec_start()));
                    } else {
                        assert(other.spec_contains(other.spec_end())
                            && !self.spec_contains(other.spec_end()));
                    }
                }
            } else {
                if subset && !(other.start > other.end) {
                    // `self` and `other` are structurally equal non-empty sets,
                    // so no element of `other` is missing from `self`
                    assert(forall|x: int| other.spec_contains(x) ==> self.spec_contains(x));
                }
            }
        }
        r
    }
}

impl SetLike<i64> for ContiguousIntegerSet {
    open spec fn is_empty_post(&self, r: bool) -> bool {
        r == self.spec_is_empty()
    }

    open spec fn contains_post(&self, element: i64, r: bool) -> bool {
        r == self.spec_contains(element as int)
    }

    fn is_empty(&self) -> (r: bool) {
        self.start > self.end
    }

    fn contains(&self, element: &i64) -> (r: bool) {
        let item = *element;
        item >= self.start && item <= self.end
    }
}

impl Interval<i64> for ContiguousIntegerSet {
    open spec fn from_boundaries_post(start: i64, end_inclusive: i64, r: Self) -> bool {
        r.start == start && r.end == end_inclusive
    }

    open spec fn get_start_post(&self, r: i64) -> bool {
        r == self.start
    }

    open spec fn get_end_post(&self, r: i64) -> bool {
        r == self.end
    }

    open spec fn length_req(&self) -> bool {
        self.spec_length() <= i64::MAX
    }

    open spec fn length_post(&self, r: i64) -> bool {
        r == self.spec_length()
    }

    open spec fn start_if_nonempty_post(&self, r: Option<i64>) -> bool {
        r == if self.spec_is_empty() {
            Option::<i64>::None
        } else {
            Option::Some(self.start)
        }
    }

    open spec fn end_if_nonempty_post(&self, r: Option<i64>) -> bool {
        r == if self.spec_is_empty() {
            Option::<i64>::None
        } else {
            Option::Some(self.end)
        }
    }

    fn from_boundaries(start: i64, end_inclusive: i64) -> (r: Self) {
        ContiguousIntegerSet::new(start, end_inclusive)
    }

    fn get_start(&self) -> (r: i64) {
        self.start
    }

    fn get_end(&self) -> (r: i64) {
        self.end
    }

    fn length(&self) -> (r: i64) {
        if self.start > self.end {
            0
        } else {
            self.end - self.start + 1
        }
    }

    fn get_start_if_nonempty(&self) -> (r: Option<i64>) {
        if self.start > self.end {
            Option::None
        } else {
            Option::Some(self.start)
        }
    }

    fn get_end_if_nonempty(&self) -> (r: Option<i64>) {
        if self.start > self.end {
            Option::None
        } else {
            Option::Some(self.end)
        }
    }
}

impl Intersect<&ContiguousIntegerSet, Option<ContiguousIntegerSet>> for ContiguousIntegerSet {
    open spec fn intersect_req(&self, other: &ContiguousIntegerSet) -> bool {
        true
    }

    open spec fn intersect_post(
        &self,
        other: &ContiguousIntegerSet,
        r: Option<ContiguousIntegerSet>,
    ) -> bool {
        self.intersection_of(*other, r)
    }

    open spec fn non_empty_intersection_post(&self, other: &ContiguousIntegerSet, r: bool) -> bool {
        r == exists|x: int| self.spec_contains(x) && other.spec_contains(x)
    }

    fn intersect(&self, other: &ContiguousIntegerSet) -> (r: Option<ContiguousIntegerSet>) {
        if self.start > self.end || other.start > other.end || other.end < self.start
            || other.start > self.end {
            Option::None
        } else {
            let start = if self.start >= other.start {
                self.start
            } else {
                other.start
            };
            let end = if self.end <= other.end {
                self.end
            } else {
                other.end
            };
            Option::Some(ContiguousIntegerSet::new(start, end))
        }
    }

    fn has_non_empty_intersection_with(&self, other: &ContiguousIntegerSet) -> (r: bool) {
        let r = self.intersect(other);
        proof {
            match r {
                Option::Some(i) => {
                    assert(i.spec_contains(i.spec_start()));
                },
                Option::None => {},
            }
        }
        r.is_some()
    }
}

/// Returns an interval if and only if the two intervals can be merged into
/// a single non-empty interval.
/// An empty interval can be merged with any other non-empty interval.
impl Coalesce<Self> for ContiguousIntegerSet {
    open spec fn coalesce_post(&self, other: Self, r: Option<Self>) -> bool {
        match r {
            Option::Some(c) => !c.spec_is_empty() && forall|x: int|
                c.spec_contains(x) <==> (self.spec_contains(x) || other.spec_contains(x)),
            Option::None => (self.spec_is_empty() && other.spec_is_empty()) || (
            !self.spec_is_empty() && !other.spec_is_empty() && (self.spec_start() > other.spec_end()
                + 1 || self.spec_end() + 1 < other.spec_start())),
        }
    }

    fn coalesce_with(&self, other: &Self) -> (r: Option<Self>) {
        if self.start > self.end && other.start > other.end {
            Option::None
        } else if self.start > self.end {
            Option::Some(*other)
        } else if other.start > other.end {
            Option::Some(*self)
        } else {
            // both are non-empty: merge succeeds iff they intersect or are
            // adjacent; the comparisons are made in `i128` so that no
            // boundary arithmetic can overflow
            if (self.start as i128) > (other.end as i128) + 1 || (self.end as i128) + 1 < (
            other.start as i128) {
                Option::None
            } else {
                let start = if self.start <= other.start {
                    self.start
                } else {
                    other.start
                };
                let end = if self.end >= other.end {
                    self.end
                } else {
                    other.end
                };
                Option::Some(ContiguousIntegerSet::new(start, end))
            }
        }
    }
}

/// Coalescing an interval with a single integer: the merge succeeds iff the
/// integer lies in the interval or is adjacent to one of its endpoints.
impl Coalesce<i64> for ContiguousIntegerSet {
    open spec fn coalesce_post(&self, other: i64, r: Option<Self>) -> bool {
        match r {
            Option::Some(c) => !c.spec_is_empty() && forall|x: int|
                c.spec_contains(x) <==> (self.spec_contains(x) || x == other as int),
            Option::None => !self.spec_is_empty() && (self.spec_start() > other as int + 1
                || self.spec_end() + 1 < other as int),
        }
    }

    fn coalesce_with(&self, other: &i64) -> (r: Option<Self>) {
        let item = *other;
        if self.start > self.end {
            Option::Some(ContiguousIntegerSet::new(item, item))
        } else {
            if (self.start as i128) > (item as i128) + 1 || (self.end as i128) + 1 < (
            item as i128) {
                Option::None
            } else {
                let start = if self.start <= item {
                    self.start
                } else {
                    item
                };
                let end = if self.end >= item {
                    self.end
                } else {
                    item
                };
                Option::Some(ContiguousIntegerSet::new(start, end))
            }
        }
    }
}

impl Finite for ContiguousIntegerSet {
    open spec fn size_req(&self) -> bool {
        self.spec_length() <= usize::MAX
    }

    open spec fn size_post(&self, r: usize) -> bool {
        r == self.spec_length()
    }

    fn size(&self) -> (r: usize) {
        if self.start > self.end {
            0
        } else {
            (((self.end as i128) - (self.start as i128) + 1) as u128) as usize
        }
    }
}

/// An iterator that yields the integers of a contiguous integer set in
/// ascending order.
pub struct ContiguousIntegerSetIter {
    pub contiguous_integer_set: ContiguousIntegerSet,
    pub current: i128,
}

impl From<ContiguousIntegerSet> for ContiguousIntegerSetIter {
    fn from(contiguous_integer_set: ContiguousIntegerSet) -> (r: ContiguousIntegerSetIter) {
        ContiguousIntegerSetIter {
            current: contiguous_integer_set.start as i128,
            contiguous_integer_set,
        }
    }
}

impl vstd::std_specs::convert::FromSpecImpl<ContiguousIntegerSet> for ContiguousIntegerSetIter {
    open spec fn obeys_from_spec() -> bool {
        true
    }

    open spec fn from_spec(c: ContiguousIntegerSet) -> Self {
        ContiguousIntegerSetIter { contiguous_integer_set: c, current: c.start as i128 }
    }
}

impl ContiguousIntegerSetIter {
    /// Yields the next member, from the smallest up.
    pub fn next(&mut self) -> (r: Option<i64>)
        requires
            old(self).current >= old(self).contiguous_integer_set.spec_start(),
        ensures
            final(self).current >= final(self).contiguous_integer_set.spec_start(),
            final(self).contiguous_integer_set == old(self).contiguous_integer_set,
            match r {
                Option::Some(v) => old(self).current
                    <= old(self).contiguous_integer_set.spec_end() && v as int == old(
                    self,
                ).current && final(self).current == old(self).current + 1,
                Option::None => old(self).current > old(
                    self,
                ).contiguous_integer_set.spec_end() && final(self).current == old(self).current,
            },
    {
        if self.current > (self.contiguous_integer_set.end as i128) {
            Option::None
        } else {
            let val = self.current as i64;
            self.current = self.current + 1;
            Option::Some(val)
        }
    }
}

impl crate::traits::ToIterator<'_, ContiguousIntegerSetIter, i64> for ContiguousIntegerSet {
    open spec fn to_iter_req(&self) -> bool {
        true
    }

    open spec fn to_iter_post(&self, r: ContiguousIntegerSetIter) -> bool {
        r.contiguous_integer_set == *self && r.current == self.spec_start()
    }

    fn to_iter(&self) -> (r: ContiguousIntegerSetIter) {
        ContiguousIntegerSetIter::from(*self)
    }
}

} // verus!
