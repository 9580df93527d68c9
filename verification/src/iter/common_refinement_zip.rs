//! If the outputs of several sources are disjoint increasing integer
//! intervals, the sources can be zipped together and iterated at the
//! granularity of the common refinement of all their intervals.

use crate::partition::integer_interval_map::entries_wf;
use crate::set::contiguous_integer_set::ContiguousIntegerSet;
use vstd::prelude::*;

verus! {

/// N-way common-refinement zip over `(interval, value)` streams.
///
/// Per source, the state holds the next unpulled position and the still
/// unconsumed remainder of the last pulled pair (`None` once the source is
/// exhausted).
pub struct CommonRefinementZipped {
    pub sources: Vec<Vec<(ContiguousIntegerSet, i64)>>,
    pub cursors: Vec<usize>,
    pub currents: Vec<Option<(ContiguousIntegerSet, i64)>>,
}

impl CommonRefinementZipped {
    /// Structural invariant tying each source's current pair to the stream
    /// it was pulled from.
    pub open spec fn well_formed(self) -> bool {
        &&& self.cursors@.len() == self.sources@.len()
        &&& self.currents@.len() == self.sources@.len()
        &&& forall|k: int|
            0 <= k < self.sources@.len() ==> entries_wf((#[trigger] self.sources@[k])@)
        &&& forall|k: int|
            0 <= k < self.sources@.len() ==> (#[trigger] self.cursors@[k]) <= self.sources@[
                k]@.len()
        &&& forall|k: int|
            0 <= k < self.sources@.len() ==> match #[trigger] self.currents@[k] {
                Option::Some(p) => {
                    &&& self.cursors@[k] >= 1
                    &&& !p.0.spec_is_empty()
                    &&& p.1 == self.sources@[k]@[self.cursors@[k] - 1].1
                    &&& p.0.spec_end() == self.sources@[k]@[self.cursors@[k] - 1].0.spec_end()
                    &&& self.sources@[k]@[self.cursors@[k] - 1].0.spec_start()
                        <= p.0.spec_start()
                },
                Option::None => self.cursors@[k] == self.sources@[k]@.len(),
            }
    }

    /// Registers one more source in the zip, re-using all already-computed
    /// state: the new source's first pair simply becomes another current
    /// slot.
    pub fn common_refinement_flat_zip(self, other: Vec<(ContiguousIntegerSet, i64)>) -> (r: Self)
        requires
            self.well_formed(),
            entries_wf(other@),
        ensures
            r.well_formed(),
            r.sources@ == self.sources@.push(other),
            r.cursors@.len() == r.sources@.len(),
            r.currents@.len() == r.sources@.len(),
            forall|k: int|
                0 <= k < self.sources@.len() ==> #[trigger] r.cursors@[k] == self.cursors@[k]
                    && r.currents@[k] == self.currents@[k],
            r.currents@.last() == (if other@.len() > 0 {
                Option::Some(other@[0])
            } else {
                Option::<(ContiguousIntegerSet, i64)>::None
            }),
    {
        let mut sources = self.sources;
        let mut cursors = self.cursors;
        let mut currents = self.currents;
        if other.len() > 0 {
            let first = other[0];
            proof {
                assert(!other@[0].0.spec_is_empty());
            }
            currents.push(Option::Some(first));
            cursors.push(1);
        } else {
            currents.push(Option::None);
            cursors.push(0);
        }
        sources.push(other);
        CommonRefinementZipped { sources, cursors, currents }
    }

    /// One step of the zip: emits the next common-refinement boundary
    /// together with one optional value per source, consuming the boundary
    /// from every source whose current interval intersects it.
    ///
    /// The boundary starts at the smallest current start and ends at the
    /// smallest current end or just before the second-smallest current
    /// start, whichever comes first.
    pub fn next(&mut self) -> (r: Option<(ContiguousIntegerSet, Vec<Option<i64>>)>)
        requires
            old(self).well_formed(),
        ensures
            final(self).well_formed(),
            final(self).sources@ == old(self).sources@,
            match r {
                Option::None => {
                    &&& final(self).cursors@ == old(self).cursors@
                    &&& final(self).currents@ == old(self).currents@
                    &&& forall|k: int|
                        0 <= k < old(self).currents@.len() ==> (#[trigger] old(self).currents@[
                            k]).is_none()
                },
                Option::Some(out) => {
                    &&& !out.0.spec_is_empty()
                    &&& exists|k: int|
                        0 <= k < old(self).currents@.len() && ((#[trigger] old(self).currents@[
                            k]) matches Option::Some(p) && p.0.spec_start() == out.0.spec_start())
                    &&& forall|k: int|
                        0 <= k < old(self).currents@.len() ==> ((#[trigger] old(self).currents@[
                            k]) matches Option::Some(p) ==> p.0.spec_start()
                            >= out.0.spec_start())
                    &&& forall|k: int|
                        0 <= k < old(self).currents@.len() ==> ((#[trigger] old(self).currents@[
                            k]) matches Option::Some(p) ==> p.0.spec_end() >= out.0.spec_end())
                    &&& forall|k: int|
                        0 <= k < old(self).currents@.len() ==> ((#[trigger] old(self).currents@[
                            k]) matches Option::Some(p) ==> !(out.0.spec_start()
                            < p.0.spec_start() <= out.0.spec_end()))
                    &&& (exists|k: int|
                        0 <= k < old(self).currents@.len() && ((#[trigger] old(self).currents@[
                            k]) matches Option::Some(p) && p.0.spec_end() == out.0.spec_end()))
                        || (exists|k: int|
                        0 <= k < old(self).currents@.len() && ((#[trigger] old(self).currents@[
                            k]) matches Option::Some(p) && p.0.spec_start() == out.0.spec_end()
                            + 1))
                    &&& out.1@.len() == old(self).currents@.len()
                    &&& forall|k: int|
                        0 <= k < old(self).currents@.len() ==> #[trigger] out.1@[k] == (match old(
                            self,
                        ).currents@[k] {
                            Option::Some(p) => if p.0.spec_start() <= out.0.spec_end() {
                                Option::Some(p.1)
                            } else {
                                Option::<i64>::None
                            },
                            Option::None => Option::<i64>::None,
                        })
                    &&& forall|k: int|
                        0 <= k < old(self).currents@.len() ==> zip_step_ok(
                            old(self).sources@[k]@,
                            old(self).cursors@[k] as int,
                            #[trigger] old(self).currents@[k],
                            out.0,
                            final(self).cursors@[k] as int,
                            final(self).currents@[k],
                        )
                },
            },
    {
        let n = self.currents.len();
        // the smallest start and end among the active current intervals
        let mut min_start: i64 = 0;
        let mut min_end: i64 = 0;
        let mut any: bool = false;
        for k in 0..n
            invariant
                n == self.currents@.len(),
                self.well_formed(),
                !any ==> forall|t: int|
                    0 <= t < k ==> (#[trigger] self.currents@[t]).is_none(),
                any ==> exists|t: int|
                    0 <= t < k && ((#[trigger] self.currents@[t]) matches Option::Some(p)
                        && p.0.spec_start() == min_start),
                any ==> exists|t: int|
                    0 <= t < k && ((#[trigger] self.currents@[t]) matches Option::Some(p)
                        && p.0.spec_end() == min_end),
                any ==> forall|t: int|
                    0 <= t < k ==> ((#[trigger] self.currents@[t]) matches Option::Some(p)
                        ==> p.0.spec_start() >= min_start && p.0.spec_end() >= min_end),
        {
            match self.currents[k] {
                Option::Some(p) => {
                    if !any {
                        any = true;
                        min_start = p.0.start;
                        min_end = p.0.end;
                    } else {
                        if p.0.start < min_start {
                            min_start = p.0.start;
                        }
                        if p.0.end < min_end {
                            min_end = p.0.end;
                        }
                    }
                    proof {
                        assert(self.currents@[k as int] == Option::Some(p));
                    }
                },
                Option::None => {},
            }
        }
        if !any {
            // all sources are exhausted
            return Option::None;
        }
        // the second-smallest distinct start bounds the boundary on the right
        let mut bound_end: i64 = min_end;
        for k in 0..n
            invariant
                n == self.currents@.len(),
                self.well_formed(),
                min_start <= bound_end,
                bound_end <= min_end,
                (bound_end == min_end && exists|t: int|
                    0 <= t < n && ((#[trigger] self.currents@[t]) matches Option::Some(p)
                        && p.0.spec_end() == bound_end)) || exists|t: int|
                    0 <= t < n && ((#[trigger] self.currents@[t]) matches Option::Some(p)
                        && p.0.spec_start() == bound_end + 1),
                forall|t: int|
                    0 <= t < k ==> ((#[trigger] self.currents@[t]) matches Option::Some(p) ==> !(
                    min_start < p.0.spec_start() <= bound_end)),
                forall|t: int|
                    0 <= t < n ==> ((#[trigger] self.currents@[t]) matches Option::Some(p)
                        ==> p.0.spec_start() >= min_start && p.0.spec_end() >= min_end),
                exists|t: int|
                    0 <= t < n && ((#[trigger] self.currents@[t]) matches Option::Some(p)
                        && p.0.spec_start() == min_start),
        {
            match self.currents[k] {
                Option::Some(p) => {
                    if p.0.start > min_start && p.0.start <= bound_end {
                        bound_end = p.0.start - 1;
                        proof {
                            assert(self.currents@[k as int] == Option::Some(p));
                        }
                    }
                    proof {
                        assert(self.currents@[k as int] == Option::Some(p));
                    }
                },
                Option::None => {},
            }
        }
        let boundary = ContiguousIntegerSet::new(min_start, bound_end);
        // emit a value for every source whose current interval intersects
        // the boundary, and consume the boundary from it
        let mut vals: Vec<Option<i64>> = Vec::new();
        let ghost snap_cursors = self.cursors@;
        let ghost snap_currents = self.currents@;
        let mut k: usize = 0;
        while k < n
            invariant
                n == self.currents@.len(),
                self.well_formed(),
                self.cursors@.len() == n,
                self.sources@ == old(self).sources@,
                snap_currents == old(self).currents@,
                snap_cursors == old(self).cursors@,
                snap_currents.len() == n,
                snap_cursors.len() == n,
                boundary.spec_start() == min_start && boundary.spec_end() == bound_end,
                min_start <= bound_end,
                k <= n,
                vals@.len() == k,
                forall|t: int|
                    k <= t < n ==> #[trigger] self.currents@[t] == snap_currents[t],
                forall|t: int| k <= t < n ==> #[trigger] self.cursors@[t] == snap_cursors[t],
                forall|t: int|
                    0 <= t < n ==> ((#[trigger] snap_currents[t]) matches Option::Some(p)
                        ==> p.0.spec_start() >= min_start && p.0.spec_end() >= bound_end),
                forall|t: int|
                    0 <= t < k ==> #[trigger] vals@[t] == (match snap_currents[t] {
                        Option::Some(p) => if p.0.spec_start() <= boundary.spec_end() {
                            Option::Some(p.1)
                        } else {
                            Option::<i64>::None
                        },
                        Option::None => Option::<i64>::None,
                    }),
                forall|t: int|
                    0 <= t < k ==> zip_step_ok(
                        self.sources@[t]@,
                        snap_cursors[t] as int,
                        #[trigger] snap_currents[t],
                        boundary,
                        self.cursors@[t] as int,
                        self.currents@[t],
                    ),
            decreases n - k,
        {
            let cur = self.currents[k];
            match cur {
                Option::Some(p) => {
                    if p.0.start <= bound_end {
                        vals.push(Option::Some(p.1));
                        // consume the boundary from this source
                        if p.0.end > bound_end {
                            let rem = ContiguousIntegerSet::new(bound_end + 1, p.0.end);
                            self.currents.set(k, Option::Some((rem, p.1)));
                        } else {
                            // fully consumed: pull the next pair
                            let c = self.cursors[k];
                            let src_len = self.sources[k].len();
                            if c < src_len {
                                let nxt = self.sources[k][c];
                                proof {
                                    assert(!self.sources@[k as int]@[c as int].0.spec_is_empty());
                                }
                                self.currents.set(k, Option::Some(nxt));
                                self.cursors.set(k, c + 1);
                            } else {
                                self.currents.set(k, Option::None);
                            }
                        }
                    } else {
                        vals.push(Option::None);
                    }
                },
                Option::None => {
                    vals.push(Option::None);
                },
            }
            k = k + 1;
        }
        proof {
            assert(self.currents@.len() == n);
        }
        Option::Some((boundary, vals))
    }
}

/// How one source's cursor and current interval evolve when the emitted
/// `boundary` is consumed from it: a source whose current interval does not
/// reach into the boundary is untouched; otherwise the interval is shrunk
/// past the boundary, pulling the next pair when it is fully consumed.
pub open spec fn zip_step_ok(
    source: Seq<(ContiguousIntegerSet, i64)>,
    old_cursor: int,
    old_current: Option<(ContiguousIntegerSet, i64)>,
    boundary: ContiguousIntegerSet,
    new_cursor: int,
    new_current: Option<(ContiguousIntegerSet, i64)>,
) -> bool {
    match old_current {
        Option::None => new_cursor == old_cursor && new_current == Option::<(
            ContiguousIntegerSet,
            i64,
        )>::None,
        Option::Some(p) => if p.0.spec_start() > boundary.spec_end() {
            new_cursor == old_cursor && new_current == Option::Some(p)
        } else if p.0.spec_end() > boundary.spec_end() {
            new_cursor == old_cursor && new_current == Option::Some(
                (
                    ContiguousIntegerSet {
                        start: (boundary.spec_end() + 1) as i64,
                        end: p.0.end,
                    },
                    p.1,
                ),
            )
        } else if old_cursor < source.len() {
            new_cursor == old_cursor + 1 && new_current == Option::Some(source[old_cursor])
        } else {
            new_cursor == old_cursor && new_current == Option::<(ContiguousIntegerSet, i64)>::None
        },
    }
}

/// Builds a two-source common-refinement zip; more sources can be registered
/// with `common_refinement_flat_zip`.
pub trait CommonRefinementZip where Self: Sized {
    /// When `common_refinement_zip` may be called.
    spec fn zip_req(self, other: Self) -> bool;

    /// What `common_refinement_zip` is allowed to return.
    spec fn zip_post(self, other: Self, r: CommonRefinementZipped) -> bool;

    fn common_refinement_zip(self, other: Self) -> (r: CommonRefinementZipped)
        requires
            self.zip_req(other),
        ensures
            self.zip_post(other, r),
    ;
}

impl CommonRefinementZip for Vec<(ContiguousIntegerSet, i64)> {
    open spec fn zip_req(self, other: Self) -> bool {
        entries_wf(self@) && entries_wf(other@)
    }

    open spec fn zip_post(self, other: Self, r: CommonRefinementZipped) -> bool {
        &&& r.well_formed()
        &&& r.sources@.len() == 2
        &&& r.sources@[0] == self
        &&& r.sources@[1] == other
        &&& r.currents@[0] == (if self@.len() > 0 {
            Option::Some(self@[0])
        } else {
            Option::<(ContiguousIntegerSet, i64)>::None
        })
        &&& r.currents@[1] == (if other@.len() > 0 {
            Option::Some(other@[0])
        } else {
            Option::<(ContiguousIntegerSet, i64)>::None
        })
    }

    fn common_refinement_zip(self, other: Self) -> (r: CommonRefinementZipped) {
        let base = CommonRefinementZipped {
            sources: Vec::new(),
            cursors: Vec::new(),
            currents: Vec::new(),
        };
        let one = base.common_refinement_flat_zip(self);
        let two = one.common_refinement_flat_zip(other);
        two
    }
}

} // verus!
