//! Concatenating several streams into one.

use vstd::prelude::*;

verus! {

/// The elements still to be yielded: the remainder of the stream at `idx`
/// from `pos` on, followed by all later streams.
pub open spec fn flatten_from<T>(iters: Seq<Vec<T>>, idx: int, pos: int) -> Seq<T>
    decreases iters.len() - idx,
{
    if idx < 0 || idx >= iters.len() {
        Seq::empty()
    } else {
        iters[idx]@.skip(pos) + flatten_from(iters, idx + 1, 0)
    }
}

/// Yields the elements of each of its streams in turn.
pub struct ConcatenatedIter<T> {
    pub iters: Vec<Vec<T>>,
    pub current_iter_index: usize,
    pub inner_pos: usize,
}

impl<T: Copy> ConcatenatedIter<T> {
    /// The cursor pair addresses a position within the streams.
    pub open spec fn well_formed(self) -> bool {
        &&& self.current_iter_index <= self.iters@.len()
        &&& (self.current_iter_index < self.iters@.len() ==> self.inner_pos <= self.iters@[
            self.current_iter_index as int]@.len())
        &&& (self.current_iter_index == self.iters@.len() ==> self.inner_pos == 0)
    }

    /// The elements this iterator has yet to yield.
    pub open spec fn remaining(self) -> Seq<T> {
        flatten_from(self.iters@, self.current_iter_index as int, self.inner_pos as int)
    }

    fn from_iters(iters: Vec<Vec<T>>) -> (r: Self)
        ensures
            r == (ConcatenatedIter::<T> { iters, current_iter_index: 0, inner_pos: 0 }),
    {
        ConcatenatedIter { iters, current_iter_index: 0, inner_pos: 0 }
    }

    /// Appends one more stream at the end.
    pub fn concat_iter(self, other: Vec<T>) -> (r: Self)
        ensures
            r.iters@ == self.iters@.push(other),
            r.current_iter_index == self.current_iter_index,
            r.inner_pos == self.inner_pos,
    {
        let mut iters = self.iters;
        iters.push(other);
        ConcatenatedIter {
            iters,
            current_iter_index: self.current_iter_index,
            inner_pos: self.inner_pos,
        }
    }

    /// Yields the next element, moving on to the next stream whenever the
    /// current one is exhausted.
    pub fn next(&mut self) -> (r: Option<T>)
        requires
            old(self).well_formed(),
        ensures
            final(self).well_formed(),
            final(self).iters@ == old(self).iters@,
            match r {
                Option::Some(x) => old(self).remaining() == seq![x] + final(self).remaining(),
                Option::None => old(self).remaining().len() == 0 && final(self).remaining().len()
                    == 0,
            },
    {
        let n = self.iters.len();
        while self.current_iter_index < n && self.inner_pos >= self.iters[self.current_iter_index].len()
            invariant
                self.well_formed(),
                n == self.iters@.len(),
                self.iters@ == old(self).iters@,
                self.remaining() == old(self).remaining(),
            decreases n - self.current_iter_index,
        {
            proof {
                let idx = self.current_iter_index as int;
                assert(self.iters@[idx]@.skip(self.inner_pos as int)
                    =~= Seq::<T>::empty());
                assert(flatten_from(self.iters@, idx, self.inner_pos as int) =~= flatten_from(
                    self.iters@,
                    idx + 1,
                    0,
                ));
            }
            self.current_iter_index = self.current_iter_index + 1;
            self.inner_pos = 0;
        }
        if self.current_iter_index >= n {
            proof {
                assert(self.remaining() =~= Seq::<T>::empty());
            }
            return Option::None;
        }
        let x = self.iters[self.current_iter_index][self.inner_pos];
        proof {
            let idx = self.current_iter_index as int;
            let pos = self.inner_pos as int;
            assert(self.iters@[idx]@.skip(pos) =~= seq![x] + self.iters@[idx]@.skip(pos + 1));
            assert(flatten_from(self.iters@, idx, pos) =~= seq![x] + flatten_from(
                self.iters@,
                idx,
                pos + 1,
            ));
        }
        self.inner_pos = self.inner_pos + 1;
        Option::Some(x)
    }
}

impl<T: Copy> From<Vec<Vec<T>>> for ConcatenatedIter<T> {
    fn from(iters: Vec<Vec<T>>) -> (r: Self) {
        Self::from_iters(iters)
    }
}

impl<T: Copy> vstd::std_specs::convert::FromSpecImpl<Vec<Vec<T>>> for ConcatenatedIter<T> {
    open spec fn obeys_from_spec() -> bool {
        true
    }

    open spec fn from_spec(iters: Vec<Vec<T>>) -> Self {
        ConcatenatedIter { iters, current_iter_index: 0, inner_pos: 0 }
    }
}

pub trait IntoConcatIter<T> where Self: Sized {
    /// What `into_concat_iter` is allowed to return.
    spec fn into_concat_iter_post(self, other: Self, r: ConcatenatedIter<T>) -> bool;

    fn into_concat_iter(self, other: Self) -> (r: ConcatenatedIter<T>)
        ensures
            self.into_concat_iter_post(other, r),
    ;
}

impl<T: Copy> IntoConcatIter<T> for Vec<T> {
    open spec fn into_concat_iter_post(self, other: Self, r: ConcatenatedIter<T>) -> bool {
        r.iters@ == seq![self, other] && r.current_iter_index == 0 && r.inner_pos == 0
    }

    fn into_concat_iter(self, other: Self) -> (r: ConcatenatedIter<T>) {
        let mut iters: Vec<Vec<T>> = Vec::new();
        iters.push(self);
        iters.push(other);
        proof {
            assert(iters@ =~= seq![self, other]);
        }
        ConcatenatedIter { iters, current_iter_index: 0, inner_pos: 0 }
    }
}

} // verus!
