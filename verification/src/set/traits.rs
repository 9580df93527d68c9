use vstd::prelude::*;

verus! {

/// Common interface of set-like containers.
///
/// Each executable method is specified through a companion spec predicate
/// that the implementing type defines, so that heterogeneous implementors
/// (intervals, canonical integer sets, hash sets) can each state an exact
/// contract.
pub trait SetLike<E> {
    /// What `is_empty` is allowed to return.
    spec fn is_empty_post(&self, r: bool) -> bool;

    /// What `contains` is allowed to return for a given element.
    spec fn contains_post(&self, element: E, r: bool) -> bool;

    fn is_empty(&self) -> (r: bool)
        ensures
            self.is_empty_post(r),
    ;

    fn contains(&self, element: &E) -> (r: bool)
        ensures
            self.contains_post(*element, r),
    ;
}

/// Intersection of a set-like container with a container of type `S`,
/// producing an intersection of type `O`.
pub trait Intersect<S, O> {
    /// When the intersection operations may be called.
    spec fn intersect_req(&self, other: S) -> bool;

    /// What `intersect` is allowed to return.
    spec fn intersect_post(&self, other: S, r: O) -> bool;

    /// What `has_non_empty_intersection_with` is allowed to return.
    spec fn non_empty_intersection_post(&self, other: S, r: bool) -> bool;

    fn intersect(&self, other: S) -> (r: O)
        requires
            self.intersect_req(other),
        ensures
            self.intersect_post(other, r),
    ;

    fn has_non_empty_intersection_with(&self, other: S) -> (r: bool)
        requires
            self.intersect_req(other),
        ensures
            self.non_empty_intersection_post(other, r),
    ;
}

#[derive(Copy, Clone, PartialEq, Eq, Structural, Debug)]
pub enum CountableType {
    Finite(usize),
    CountablyInfinite,
}

#[derive(Copy, Clone, PartialEq, Eq, Structural, Debug)]
pub enum Cardinality {
    Countable(CountableType),
    Uncountable,
}

pub trait Countable {
    /// What `count` is allowed to return.
    spec fn count_post(&self, r: CountableType) -> bool;

    fn count(&self) -> (r: CountableType)
        ensures
            self.count_post(r),
    ;

    fn is_finite(&self) -> (r: bool)
        ensures
            exists|c: CountableType|
                self.count_post(c) && (r <==> c != CountableType::CountablyInfinite),
    ;
}

/// A container with finitely many elements.
pub trait Finite {
    /// When `size` may be called (e.g. the cardinality must fit in `usize`).
    spec fn size_req(&self) -> bool;

    /// What `size` is allowed to return.
    spec fn size_post(&self, r: usize) -> bool;

    fn size(&self) -> (r: usize)
        requires
            self.size_req(),
        ensures
            self.size_post(r),
    ;
}

/// Given two sets of the same type that are `Refineable`, their common
/// refinement can be obtained.
pub trait Refineable<O> where Self: Sized {
    /// When `get_common_refinement` may be called.
    spec fn refinement_req(&self, other: &Self) -> bool;

    /// What `get_common_refinement` is allowed to return.
    spec fn refinement_post(&self, other: &Self, r: O) -> bool;

    fn get_common_refinement(&self, other: &Self) -> (r: O)
        requires
            self.refinement_req(other),
        ensures
            self.refinement_post(other, r),
    ;
}

} // verus!
