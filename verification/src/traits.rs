//! General traits.

pub mod trait_impl;

use vstd::prelude::*;

verus! {

/// Incremental accumulation of items into a container.
pub trait Collecting<E> where Self: Sized {
    /// When `collect` may be called.
    spec fn collect_req(&self, item: E) -> bool;

    /// How the container after `collect` relates to the one before.
    spec fn collect_post(&self, item: E, next: Self) -> bool;

    fn collect(&mut self, item: E)
        requires
            old(self).collect_req(item),
        ensures
            old(self).collect_post(item, *final(self)),
    ;
}

pub trait HasDuplicate {
    /// What `has_duplicate` is allowed to return.
    spec fn has_duplicate_post(&self, r: bool) -> bool;

    fn has_duplicate(&self) -> (r: bool)
        ensures
            self.has_duplicate_post(r),
    ;
}

/// A value that can cut a piece of type `O` out of an input of type `I`.
pub trait Slicing<I, O> where Self: Sized {
    /// When `slice` may be called.
    spec fn slice_req(self, input: I) -> bool;

    /// What `slice` is allowed to return.
    spec fn slice_post(self, input: I, r: O) -> bool;

    fn slice(self, input: I) -> (r: O)
        requires
            self.slice_req(input),
        ensures
            self.slice_post(input, r),
    ;
}

/// Lookup of the stored set that contains a given subset.
pub trait SubsetIndexable<S, Output> {
    /// When `get_set_containing` may be called.
    spec fn get_set_containing_req(&self, subset: S) -> bool;

    /// What `get_set_containing` is allowed to return.
    spec fn get_set_containing_post(&self, subset: S, r: Option<Output>) -> bool;

    fn get_set_containing(&self, subset: &S) -> (r: Option<Output>)
        requires
            self.get_set_containing_req(*subset),
        ensures
            self.get_set_containing_post(*subset, r),
    ;
}

/// Conversion into an iterator-like traversal value of type `I`.
pub trait ToIterator<'s, I, R> {
    /// When `to_iter` may be called.
    spec fn to_iter_req(&self) -> bool;

    /// What `to_iter` is allowed to return.
    spec fn to_iter_post(&self, r: I) -> bool;

    fn to_iter(&'s self) -> (r: I)
        requires
            self.to_iter_req(),
        ensures
            self.to_iter_post(r),
    ;
}

} // verus!
