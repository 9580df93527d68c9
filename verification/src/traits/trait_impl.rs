use crate::traits::{Collecting, HasDuplicate};
use vstd::prelude::*;

verus! {

/// Relies on `str`'s `PartialEq`: two string slices compare equal exactly
/// when their character sequences are equal.
#[verifier::external_body]
fn str_eq(a: &str, b: &str) -> (r: bool)
    ensures
        r == (a@ == b@),
{
    a == b
}

impl<'s> HasDuplicate for Vec<&'s str> {
    open spec fn has_duplicate_post(&self, r: bool) -> bool {
        r == exists|i: int, j: int| 0 <= i < j < self@.len() && self@[i]@ == self@[j]@
    }

    fn has_duplicate(&self) -> (r: bool) {
        let n = self.len();
        for a in 0..n
            invariant
                n == self@.len(),
                forall|i: int, j: int|
                    0 <= i < j < self@.len() && i < a ==> self@[i]@ != self@[j]@,
        {
            for b in (a + 1)..n
                invariant
                    n == self@.len(),
                    a < n,
                    forall|j: int| a < j < b ==> self@[a as int]@ != self@[j]@,
            {
                if str_eq(self[a], self[b]) {
                    return true;
                }
            }
        }
        false
    }
}

impl<T> Collecting<T> for Vec<T> {
    open spec fn collect_req(&self, item: T) -> bool {
        true
    }

    open spec fn collect_post(&self, item: T, next: Self) -> bool {
        next@ == self@.push(item)
    }

    fn collect(&mut self, item: T) {
        self.push(item);
    }
}

impl HasDuplicate for Vec<i64> {
    open spec fn has_duplicate_post(&self, r: bool) -> bool {
        r == exists|i: int, j: int| 0 <= i < j < self@.len() && self@[i] == self@[j]
    }

    fn has_duplicate(&self) -> (r: bool) {
        let n = self.len();
        for a in 0..n
            invariant
                n == self@.len(),
                forall|i: int, j: int| 0 <= i < j < self@.len() && i < a ==> self@[i] != self@[j],
        {
            for b in (a + 1)..n
                invariant
                    n == self@.len(),
                    a < n,
                    forall|j: int| a < j < b ==> self@[a as int] != self@[j],
            {
                if self[a] == self[b] {
                    return true;
                }
            }
        }
        false
    }
}

} // verus!
