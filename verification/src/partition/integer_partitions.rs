//! Modeling a collection of disjoint integer intervals.

use crate::set::contiguous_integer_set::ContiguousIntegerSet;
use crate::set::ordered_integer_set::{lemma_covers_concat, seq_covers, OrderedIntegerSet};
use vstd::prelude::*;

verus! {

pub type Partition = OrderedIntegerSet;

/// Copies a canonical set fragment by fragment.
fn copy_set(s: &OrderedIntegerSet) -> (r: OrderedIntegerSet)
    ensures
        r.intervals@ == s.intervals@,
{
    let n = s.intervals.len();
    let mut intervals: Vec<ContiguousIntegerSet> = Vec::new();
    for k in 0..n
        invariant
            n == s.intervals@.len(),
            intervals@ == s.intervals@.subrange(0, k as int),
    {
        intervals.push(s.intervals[k]);
        proof {
            assert(intervals@ =~= s.intervals@.subrange(0, k + 1 as int));
        }
    }
    proof {
        assert(intervals@ =~= s.intervals@);
    }
    OrderedIntegerSet { intervals }
}

/// A collection of disjoint integer intervals.
#[derive(Clone, Debug, PartialEq, Eq)]
pub struct IntegerPartitions {
    pub partitions: Vec<Partition>,
}

impl IntegerPartitions {
    pub fn new(partitions: Vec<Partition>) -> (r: IntegerPartitions)
        ensures
            r.partitions@ == partitions@,
    {
        IntegerPartitions { partitions }
    }

    pub fn num_partitions(&self) -> (r: usize)
        ensures
            r == self.partitions@.len(),
    {
        self.partitions.len()
    }

    /// Creates an iterator that iterates through the partitions.
    pub fn iter(&self) -> (r: IntegerPartitionIter)
        ensures
            r.partitions@.len() == self.partitions@.len(),
            forall|k: int|
                0 <= k < self.partitions@.len() ==> (#[trigger] r.partitions@[k]).intervals@
                    == self.partitions@[k].intervals@,
            r.current_cursor == 0,
            r.end_exclusive == self.partitions@.len(),
    {
        let n = self.partitions.len();
        let mut partitions: Vec<Partition> = Vec::new();
        for k in 0..n
            invariant
                n == self.partitions@.len(),
                partitions@.len() == k,
                forall|t: int|
                    0 <= t < k ==> (#[trigger] partitions@[t]).intervals@ == self.partitions@[
                        t].intervals@,
        {
            let p = copy_set(&self.partitions[k]);
            partitions.push(p);
        }
        IntegerPartitionIter { partitions, current_cursor: 0, end_exclusive: n }
    }

    /// Converts the collection of partitions into a single `Partition`
    /// consisting of the same integer elements.
    pub fn union(&self) -> (r: Partition)
        ensures
            r.well_formed(),
            forall|x: int|
                r.set_contains(x) <==> exists|k: int|
                    0 <= k < self.partitions@.len() && seq_covers(
                        (#[trigger] self.partitions@[k]).intervals@,
                        x,
                    ),
    {
        let n = self.partitions.len();
        let mut intervals: Vec<ContiguousIntegerSet> = Vec::new();
        for k in 0..n
            invariant
                n == self.partitions@.len(),
                forall|x: int| #![trigger seq_covers(intervals@, x)]
                    seq_covers(intervals@, x) <==> exists|t: int|
                        0 <= t < k && seq_covers((#[trigger] self.partitions@[t]).intervals@, x),
        {
            let p = &self.partitions[k];
            let m = p.intervals.len();
            let ghost before = intervals@;
            let mut t: usize = 0;
            while t < m
                invariant
                    m == p.intervals@.len(),
                    p == &self.partitions@[k as int],
                    t <= m,
                    intervals@ == before + p.intervals@.subrange(0, t as int),
                decreases m - t,
            {
                intervals.push(p.intervals[t]);
                proof {
                    assert(intervals@ =~= before + p.intervals@.subrange(0, t + 1 as int));
                }
                t = t + 1;
            }
            proof {
                assert(p.intervals@.subrange(0, m as int) =~= p.intervals@);
                lemma_covers_concat(before, p.intervals@, intervals@);
                assert forall|x: int| #![trigger seq_covers(intervals@, x)]
                    seq_covers(intervals@, x) <==> exists|u: int|
                        0 <= u < k + 1 && seq_covers(
                            (#[trigger] self.partitions@[u]).intervals@,
                            x,
                        ) by {
                    if seq_covers(intervals@, x) {
                        if seq_covers(before, x) {
                            let u = choose|u: int|
                                0 <= u < k && seq_covers(
                                    (#[trigger] self.partitions@[u]).intervals@,
                                    x,
                                );
                            assert(seq_covers(self.partitions@[u].intervals@, x));
                        } else {
                            assert(seq_covers(self.partitions@[k as int].intervals@, x));
                        }
                    }
                }
            }
        }
        proof {
            assert(forall|x: int| #![trigger seq_covers(intervals@, x)]
                seq_covers(intervals@, x) <==> exists|t: int|
                    0 <= t < n && seq_covers((#[trigger] self.partitions@[t]).intervals@, x));
        }
        let r = OrderedIntegerSet::from_contiguous_integer_sets(intervals);
        proof {
            assert forall|x: int|
                seq_covers(r.intervals@, x) <==> exists|k: int|
                    0 <= k < self.partitions@.len() && seq_covers(
                        (#[trigger] self.partitions@[k]).intervals@,
                        x,
                    ) by {
                assert(seq_covers(r.intervals@, x) <==> seq_covers(intervals@, x));
            }
        }
        r
    }
}

/// Iterates through the partitions of an `IntegerPartitions` between two
/// bounds, from either end.
pub struct IntegerPartitionIter {
    pub partitions: Vec<Partition>,
    pub current_cursor: usize,
    pub end_exclusive: usize,
}

impl IntegerPartitionIter {
    pub open spec fn well_formed(self) -> bool {
        self.current_cursor <= self.partitions@.len() && self.end_exclusive <= self.partitions@.len()
    }

    /// A copy of this iterator restricted to the partitions in
    /// `[start, end_exclusive)`.
    pub fn clone_with_range(&self, start: usize, end_exclusive: usize) -> (r: IntegerPartitionIter)
        requires
            start <= end_exclusive,
            end_exclusive <= self.partitions@.len(),
        ensures
            r.partitions@.len() == end_exclusive - start,
            forall|k: int|
                0 <= k < r.partitions@.len() ==> (#[trigger] r.partitions@[k]).intervals@
                    == self.partitions@[start + k].intervals@,
            r.current_cursor == 0,
            r.end_exclusive == end_exclusive - start,
    {
        let mut partitions: Vec<Partition> = Vec::new();
        let mut k = start;
        while k < end_exclusive
            invariant
                start <= k <= end_exclusive,
                end_exclusive <= self.partitions@.len(),
                partitions@.len() == k - start,
                forall|t: int|
                    0 <= t < partitions@.len() ==> (#[trigger] partitions@[t]).intervals@
                        == self.partitions@[start + t].intervals@,
            decreases end_exclusive - k,
        {
            let p = copy_set(&self.partitions[k]);
            partitions.push(p);
            k = k + 1;
        }
        IntegerPartitionIter {
            partitions,
            current_cursor: 0,
            end_exclusive: end_exclusive - start,
        }
    }

    /// Yields the next partition from the front of the remaining range.
    pub fn next(&mut self) -> (r: Option<Partition>)
        requires
            old(self).well_formed(),
        ensures
            final(self).partitions@ == old(self).partitions@,
            final(self).end_exclusive == old(self).end_exclusive,
            match r {
                Option::None => old(self).current_cursor >= old(self).end_exclusive
                    && final(self).current_cursor == old(self).current_cursor,
                Option::Some(p) => {
                    &&& old(self).current_cursor < old(self).end_exclusive
                    &&& p.intervals@ == old(self).partitions@[old(self).current_cursor as int].intervals@
                    &&& final(self).current_cursor == old(self).current_cursor + 1
                },
            },
    {
        if self.current_cursor >= self.end_exclusive {
            Option::None
        } else {
            let p = copy_set(&self.partitions[self.current_cursor]);
            self.current_cursor = self.current_cursor + 1;
            Option::Some(p)
        }
    }

    /// The number of partitions not yet yielded.
    pub fn len(&self) -> (r: usize)
        ensures
            r == if self.current_cursor >= self.end_exclusive {
                0int
            } else {
                self.end_exclusive - self.current_cursor
            },
    {
        if self.current_cursor >= self.end_exclusive {
            0
        } else {
            self.end_exclusive - self.current_cursor
        }
    }

    /// Yields the next partition from the back of the remaining range.
    pub fn next_back(&mut self) -> (r: Option<Partition>)
        requires
            old(self).well_formed(),
        ensures
            final(self).partitions@ == old(self).partitions@,
            final(self).current_cursor == old(self).current_cursor,
            match r {
                Option::None => old(self).current_cursor >= old(self).end_exclusive
                    && final(self).end_exclusive == old(self).end_exclusive,
                Option::Some(p) => {
                    &&& old(self).current_cursor < old(self).end_exclusive
                    &&& final(self).end_exclusive == old(self).end_exclusive - 1
                    &&& p.intervals@ == old(self).partitions@[final(self).end_exclusive as int].intervals@
                },
            },
    {
        if self.current_cursor >= self.end_exclusive {
            Option::None
        } else {
            self.end_exclusive = self.end_exclusive - 1;
            let p = copy_set(&self.partitions[self.end_exclusive]);
            Option::Some(p)
        }
    }
}

} // verus!
