//! Zipping several same-length streams into one stream of rows.

use vstd::prelude::*;

verus! {

pub trait IntoFlatZipIter<T> {
    /// What `flat_zip` is allowed to return.
    spec fn flat_zip_post(self, other: Vec<T>, r: FlatZipIter<T>) -> bool;

    fn flat_zip(self, other: Vec<T>) -> (r: FlatZipIter<T>)
        ensures
            self.flat_zip_post(other, r),
    ;
}

/// Iterates several streams in lockstep, yielding one row with an element
/// from each stream, and ends as soon as any stream is exhausted.
pub struct FlatZipIter<T> {
    pub iters: Vec<Vec<T>>,
    pub pos: usize,
}

impl<T: Copy> IntoFlatZipIter<T> for Vec<T> {
    open spec fn flat_zip_post(self, other: Vec<T>, r: FlatZipIter<T>) -> bool {
        r.iters@ == seq![self, other] && r.pos == 0
    }

    fn flat_zip(self, other: Vec<T>) -> (r: FlatZipIter<T>) {
        let mut iters: Vec<Vec<T>> = Vec::new();
        iters.push(self);
        iters.push(other);
        proof {
            assert(iters@ =~= seq![self, other]);
        }
        FlatZipIter { iters, pos: 0 }
    }
}

impl<T: Copy> IntoFlatZipIter<T> for FlatZipIter<T> {
    open spec fn flat_zip_post(self, other: Vec<T>, r: FlatZipIter<T>) -> bool {
        r.iters@ == self.iters@.push(other) && r.pos == self.pos
    }

    fn flat_zip(self, other: Vec<T>) -> (r: FlatZipIter<T>) {
        let mut iters = self.iters;
        iters.push(other);
        FlatZipIter { iters, pos: self.pos }
    }
}

impl<T: Copy> FlatZipIter<T> {
    /// Yields one element from every stream, or nothing once some stream has
    /// run out.
    pub fn next(&mut self) -> (r: Option<Vec<T>>)
        ensures
            final(self).iters@ == old(self).iters@,
            match r {
                Option::None => final(self).pos == old(self).pos && exists|t: int|
                    0 <= t < old(self).iters@.len() && (#[trigger] old(self).iters@[t])@.len()
                        <= old(self).pos,
                Option::Some(row) => {
                    &&& final(self).pos == old(self).pos + 1
                    &&& row@.len() == old(self).iters@.len()
                    &&& forall|t: int|
                        0 <= t < old(self).iters@.len() ==> old(self).pos < (#[trigger] old(
                            self,
                        ).iters@[t])@.len() && row@[t] == old(self).iters@[t]@[old(self).pos as int]
                },
            } || (r.is_none() && old(self).iters@.len() == 0 && final(self).pos == old(self).pos),
    {
        let n = self.iters.len();
        if n == 0 {
            return Option::None;
        }
        let mut row: Vec<T> = Vec::new();
        for t in 0..n
            invariant
                n == self.iters@.len(),
                row@.len() == t,
                forall|u: int|
                    0 <= u < t ==> self.pos < (#[trigger] self.iters@[u])@.len() && row@[u]
                        == self.iters@[u]@[self.pos as int],
        {
            let inner = &self.iters[t];
            if self.pos >= inner.len() {
                proof {
                    assert((self.iters@[t as int])@.len() <= self.pos);
                }
                return Option::None;
            }
            row.push(inner[self.pos]);
        }
        let first_len = self.iters[0].len();
        proof {
            assert(self.pos < first_len);
        }
        self.pos = self.pos + 1;
        Option::Some(row)
    }
}

} // verus!
