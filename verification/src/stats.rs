//! Basic combinatorial counting.

use vstd::prelude::*;

verus! {

/// The number of unordered pairs of `n` distinct items: `n * (n - 1) / 2`.
pub fn n_choose_2(n: usize) -> (r: usize)
    requires
        n * (n - 1) <= usize::MAX,
    ensures
        r == n * (n - 1) / 2,
{
    if n < 2 {
        proof {
            assert(n * (n - 1) == 0 || n == 1 && n * (n - 1) == 0) by (nonlinear_arith)
                requires
                    n < 2,
            ;
        }
        0
    } else {
        n * (n - 1) / 2
    }
}

} // verus!
