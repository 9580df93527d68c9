use core::cmp::Ordering;
use vstd::prelude::*;

verus! {

/// Binary search between the `start` and `end_exclusive` indices of a vector,
/// driven by a three-way comparator `(stored element, target) -> Ordering`
/// (the comparator may encode adjacency or containment relationships, not
/// just equality).
///
/// Returns `Ok(index)` for an index whose element compares `Equal` to the
/// target. Otherwise returns `Err(Some(p))` where `p` is an insertion point
/// bracketed by a `Less` element on the left and a `Greater` element on the
/// right (whenever those neighbors exist), or `Err(None)` iff the queried
/// sub-range `[start, end_exclusive)` is empty.
///
/// The comparator is expected to be monotone over the searched range, as it
/// is when the range is sorted; the contract states exactly which comparator
/// outcomes were observed at the returned position's neighbors, which pins
/// the result down whenever the comparator's postcondition is a function of
/// its arguments.
pub fn binary_search_with_cmp<T, E, F: Fn(&T, &E) -> Ordering>(
    v: &Vec<T>,
    start: usize,
    end_exclusive: usize,
    target: &E,
    cmp: F,
) -> (r: Result<usize, Option<usize>>)
    requires
        end_exclusive <= v@.len(),
        forall|k: int| start <= k < end_exclusive ==> call_requires(cmp, (&v@[k], target)),
    ensures
        match r {
            Result::Ok(i) => start <= i < end_exclusive && call_ensures(
                cmp,
                (&v@[i as int], target),
                Ordering::Equal,
            ),
            Result::Err(p) => match p {
                Option::Some(p) => start < end_exclusive && start <= p <= end_exclusive && (p
                    == start || call_ensures(cmp, (&v@[p - 1], target), Ordering::Less)) && (p
                    == end_exclusive || call_ensures(cmp, (&v@[p as int], target), Ordering::Greater)),
                Option::None => start >= end_exclusive,
            },
        },
{
    if start >= end_exclusive {
        return Result::Err(Option::None);
    }
    let mut lo = start;
    let mut hi = end_exclusive;
    while lo < hi
        invariant
            end_exclusive <= v@.len(),
            forall|k: int| start <= k < end_exclusive ==> call_requires(cmp, (&v@[k], target)),
            start <= lo <= hi <= end_exclusive,
            lo == start || call_ensures(cmp, (&v@[lo - 1], target), Ordering::Less),
            hi == end_exclusive || call_ensures(cmp, (&v@[hi as int], target), Ordering::Greater),
        decreases hi - lo,
    {
        let mid = lo + (hi - lo) / 2;
        match cmp(&v[mid], target) {
            Ordering::Less => {
                lo = mid + 1;
            },
            Ordering::Greater => {
                hi = mid;
            },
            Ordering::Equal => {
                return Result::Ok(mid);
            },
        }
    }
    Result::Err(Option::Some(lo))
}

} // verus!
