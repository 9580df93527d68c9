use crate::set::traits::SetLike;
use vstd::prelude::*;

verus! {

/// A one-dimensional interval with a start and an end.
/// Whether or not the start and end elements are included in the interval
/// depends on the actual implementor type.
pub trait Interval<T>: SetLike<T> + Sized {
    /// What `from_boundaries` is allowed to return.
    spec fn from_boundaries_post(start: T, end_inclusive: T, r: Self) -> bool;

    /// What `get_start` is allowed to return.
    spec fn get_start_post(&self, r: T) -> bool;

    /// What `get_end` is allowed to return.
    spec fn get_end_post(&self, r: T) -> bool;

    /// When `length` may be called (e.g. the length must be representable).
    spec fn length_req(&self) -> bool;

    /// What `length` is allowed to return.
    spec fn length_post(&self, r: T) -> bool;

    /// What `get_start_if_nonempty` is allowed to return.
    spec fn start_if_nonempty_post(&self, r: Option<T>) -> bool;

    /// What `get_end_if_nonempty` is allowed to return.
    spec fn end_if_nonempty_post(&self, r: Option<T>) -> bool;

    fn from_boundaries(start: T, end_inclusive: T) -> (r: Self)
        ensures
            Self::from_boundaries_post(start, end_inclusive, r),
    ;

    fn get_start(&self) -> (r: T)
        ensures
            self.get_start_post(r),
    ;

    fn get_end(&self) -> (r: T)
        ensures
            self.get_end_post(r),
    ;

    fn length(&self) -> (r: T)
        requires
            self.length_req(),
        ensures
            self.length_post(r),
    ;

    fn get_start_if_nonempty(&self) -> (r: Option<T>)
        ensures
            self.start_if_nonempty_post(r),
    ;

    fn get_end_if_nonempty(&self) -> (r: Option<T>)
        ensures
            self.end_if_nonempty_post(r),
    ;
}

/// Merging a value with a value of type `T` into a single interval,
/// where the merge succeeds only if the union of the two is contiguous.
pub trait Coalesce<T> where Self: Sized {
    /// What `coalesce_with` is allowed to return.
    spec fn coalesce_post(&self, other: T, r: Option<Self>) -> bool;

    fn coalesce_with(&self, other: &T) -> (r: Option<Self>)
        ensures
            self.coalesce_post(*other, r),
    ;
}

/// Implementors are container types that are able to coalesce the
/// contained intervals.
pub trait CoalesceIntervals<I> where Self: Sized {
    /// What `to_coalesced_intervals` is allowed to return.
    spec fn to_coalesced_post(&self, r: Vec<I>) -> bool;

    /// How the value after `coalesce_intervals_inplace` relates to the
    /// value before.
    spec fn coalesce_inplace_post(&self, next: Self) -> bool;

    fn to_coalesced_intervals(&self) -> (r: Vec<I>)
        ensures
            self.to_coalesced_post(r),
    ;

    fn coalesce_intervals_inplace(&mut self)
        ensures
            old(self).coalesce_inplace_post(*final(self)),
    ;

    fn into_coalesced(self) -> (r: Self)
        ensures
            self.coalesce_inplace_post(r),
    ;
}

pub trait Topology {
    fn is_open(&self) -> bool;

    fn is_closed(&self) -> bool;
}

} // verus!
