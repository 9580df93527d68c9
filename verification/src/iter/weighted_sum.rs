//! Length-weighted summation over interval streams.

use crate::set::contiguous_integer_set::ContiguousIntegerSet;
use vstd::prelude::*;

verus! {

/// The sum over a stream of `(interval, value)` pairs of each value
/// multiplied by its interval's length.
pub open spec fn spec_weighted_sum(s: Seq<(ContiguousIntegerSet, i64)>) -> int
    decreases s.len(),
{
    if s.len() == 0 {
        0
    } else {
        spec_weighted_sum(s.drop_last()) + (s.last().1 as int) * s.last().0.spec_length()
    }
}

pub trait WeightedSum<V> {
    /// When `weighted_sum` may be called.
    spec fn weighted_sum_req(self) -> bool;

    /// What `weighted_sum` is allowed to return.
    spec fn weighted_sum_post(self, r: V) -> bool;

    fn weighted_sum(self) -> (r: V)
        requires
            self.weighted_sum_req(),
        ensures
            self.weighted_sum_post(r),
    ;
}

impl WeightedSum<i64> for Vec<(ContiguousIntegerSet, i64)> {
    /// Caps of 2^20 on the stream's length and on each value's and each
    /// interval length's magnitude: every term is then below 2^20 * 2^20 =
    /// 2^40 in magnitude and the sum of at most 2^20 of them below 2^60,
    /// safely within `i64`.
    open spec fn weighted_sum_req(self) -> bool {
        &&& self@.len() <= 0x10_0000
        &&& forall|i: int|
            0 <= i < self@.len() ==> -0x10_0000 <= (#[trigger] self@[i]).1 <= 0x10_0000
                && (#[trigger] self@[i]).0.spec_length() <= 0x10_0000
    }

    open spec fn weighted_sum_post(self, r: i64) -> bool {
        r == spec_weighted_sum(self@)
    }

    fn weighted_sum(self) -> (r: i64) {
        let n = self.len();
        let mut acc: i64 = 0;
        proof {
            assert(self@.subrange(0, 0) =~= Seq::<(ContiguousIntegerSet, i64)>::empty());
        }
        for k in 0..n
            invariant
                n == self@.len(),
                self@.len() <= 0x10_0000,
                forall|i: int|
                    0 <= i < self@.len() ==> -0x10_0000 <= (#[trigger] self@[i]).1 <= 0x10_0000
                        && (#[trigger] self@[i]).0.spec_length() <= 0x10_0000,
                acc == spec_weighted_sum(self@.subrange(0, k as int)),
                -(k as int) * 0x100_0000_0000 <= acc as int <= (k as int) * 0x100_0000_0000,
        {
            let (c, v) = self[k];
            let len: i64 = if c.start > c.end {
                0
            } else {
                c.end - c.start + 1
            };
            proof {
                assert(self@[k as int] == (c, v));
                assert(0 <= c.spec_length() <= 0x10_0000);
                assert(-0x100_0000_0000 <= (v as int) * (len as int)
                    <= 0x100_0000_0000) by (nonlinear_arith)
                    requires
                        -0x10_0000 <= v <= 0x10_0000,
                        0 <= len <= 0x10_0000,
                ;
                assert(self@.subrange(0, k + 1 as int).drop_last() =~= self@.subrange(0, k as int));
            }
            acc = acc + v * len;
        }
        proof {
            assert(self@.subrange(0, n as int) =~= self@);
        }
        acc
    }
}

} // verus!
