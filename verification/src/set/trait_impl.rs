use std::collections::HashSet;
use crate::set::traits::{Finite, Intersect, SetLike};
use vstd::prelude::*;

verus! {

impl<T> Finite for Vec<T> {
    open spec fn size_req(&self) -> bool {
        true
    }

    open spec fn size_post(&self, r: usize) -> bool {
        r == self@.len()
    }

    fn size(&self) -> (r: usize) {
        self.len()
    }
}

impl Finite for HashSet<i64> {
    open spec fn size_req(&self) -> bool {
        true
    }

    open spec fn size_post(&self, r: usize) -> bool {
        self@.finite() ==> r == self@.len()
    }

    fn size(&self) -> (r: usize) {
        self.len()
    }
}

impl SetLike<i64> for HashSet<i64> {
    open spec fn is_empty_post(&self, r: bool) -> bool {
        self@.finite() ==> (r <==> self@.len() == 0)
    }

    open spec fn contains_post(&self, element: i64, r: bool) -> bool {
        r == self@.contains(element)
    }

    fn is_empty(&self) -> (r: bool) {
        self.len() == 0
    }

    fn contains(&self, element: &i64) -> (r: bool) {
        self.contains(element)
    }
}

/// Relies on `HashSet::intersection`: the result holds exactly the common
/// elements of the two sets.
#[verifier::external_body]
fn hash_set_intersection(a: &HashSet<i64>, b: &HashSet<i64>) -> (r: HashSet<i64>)
    ensures
        r@ == a@.intersect(b@),
{
    a.intersection(b).map(|x: &i64| *x).collect()
}

impl Intersect<&HashSet<i64>, HashSet<i64>> for HashSet<i64> {
    open spec fn intersect_req(&self, other: &HashSet<i64>) -> bool {
        true
    }

    open spec fn intersect_post(&self, other: &HashSet<i64>, r: HashSet<i64>) -> bool {
        r@ == self@.intersect(other@)
    }

    open spec fn non_empty_intersection_post(&self, other: &HashSet<i64>, r: bool) -> bool {
        (self@.finite() && other@.finite()) ==> (r <==> exists|x: i64|
            self@.contains(x) && other@.contains(x))
    }

    fn intersect(&self, other: &HashSet<i64>) -> (r: HashSet<i64>) {
        hash_set_intersection(self, other)
    }

    fn has_non_empty_intersection_with(&self, other: &HashSet<i64>) -> (r: bool) {
        let inter = hash_set_intersection(self, other);
        let r = inter.len() > 0;
        proof {
            if self@.finite() && other@.finite() {
                vstd::set_lib::lemma_len_subset(self@.intersect(other@), self@);
                if inter@.len() > 0 {
                    assert(exists|x: i64| inter@.contains(x)) by {
                        if forall|x: i64| !(#[trigger] inter@.contains(x)) {
                            assert(inter@ =~= Set::<i64>::empty());
                        }
                    }
                } else {
                    assert forall|x: i64| !(self@.contains(x) && other@.contains(x)) by {
                        if self@.contains(x) && other@.contains(x) {
                            assert(inter@.contains(x));
                            vstd::set_lib::lemma_len_subset(Set::<i64>::empty().insert(x), inter@);
                            vstd::set_lib::lemma_int_range(0, 1);
                            assert(Set::<i64>::empty().insert(x).len() == 1);
                        }
                    }
                }
            }
        }
        r
    }
}

} // verus!
