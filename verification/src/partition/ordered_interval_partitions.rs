use core::cmp::Ordering;
use crate::search::binary_search::binary_search_with_cmp;
use crate::set::contiguous_integer_set::ContiguousIntegerSet;
use crate::set::ordered_integer_set::{
    lemma_covers_push, seq_covers, sorted_by_start, OrderedIntegerSet,
};
use crate::set::traits::Refineable;
use crate::traits::SubsetIndexable;
use vstd::prelude::*;

verus! {

/// An ordered interval partition: the intervals are non-empty, ascending and
/// pairwise disjoint, but — unlike in a canonical integer set — two
/// successive intervals may be adjacent.
pub open spec fn is_partition_seq(s: Seq<ContiguousIntegerSet>) -> bool {
    &&& forall|i: int| 0 <= i < s.len() ==> !(#[trigger] s[i]).spec_is_empty()
    &&& forall|i: int, j: int|
        0 <= i < j < s.len() ==> #[trigger] s[i].spec_end() < #[trigger] s[j].spec_start()
}

/// The fragment `f` either lies within a single interval of `s`, or misses
/// the integers covered by `s` entirely.
pub open spec fn aligned_with(f: ContiguousIntegerSet, s: Seq<ContiguousIntegerSet>) -> bool {
    ||| exists|k: int|
        0 <= k < s.len() && (#[trigger] s[k]).spec_start() <= f.spec_start() && f.spec_end()
            <= s[k].spec_end()
    ||| forall|x: int| f.spec_contains(x) ==> !seq_covers(s, x)
}

/// `x` is a boundary the inputs themselves draw: an interval of one of the
/// two partitions starts at `x` or ends just before it. The common
/// refinement splits only at such boundaries, which is what makes it the
/// coarsest (maximal-fragment) shared refinement: a list that splits
/// anywhere else, or that merges across such a boundary, is ruled out by
/// this clause together with coverage and alignment.
#[verifier::opaque]
pub open spec fn input_cut(
    a: Seq<ContiguousIntegerSet>,
    b: Seq<ContiguousIntegerSet>,
    x: int,
) -> bool {
    ||| exists|k: int| 0 <= k < a.len() && (#[trigger] a[k]).spec_start() == x
    ||| exists|k: int| 0 <= k < b.len() && (#[trigger] b[k]).spec_start() == x
    ||| exists|k: int| 0 <= k < a.len() && (#[trigger] a[k]).spec_end() == x - 1
    ||| exists|k: int| 0 <= k < b.len() && (#[trigger] b[k]).spec_end() == x - 1
}

/// The start of the interval currently being consumed on one side of the
/// common-refinement sweep: the unconsumed remnant if there is one, and the
/// next whole interval otherwise.
pub open spec fn sweep_start(
    rem: Option<ContiguousIntegerSet>,
    s: Seq<ContiguousIntegerSet>,
    idx: int,
) -> int {
    match rem {
        Option::Some(r) => r.spec_start(),
        Option::None => s[idx].spec_start(),
    }
}

#[derive(Clone, PartialEq, Debug)]
pub struct OrderedIntervalPartitions {
    pub partitions: Vec<ContiguousIntegerSet>,
}

impl OrderedIntervalPartitions {
    pub fn from_vec(partitions: Vec<ContiguousIntegerSet>) -> (r: OrderedIntervalPartitions)
        ensures
            sorted_by_start(r.partitions@),
            r.partitions@.to_multiset() == partitions@.to_multiset(),
    {
        let n = partitions.len();
        let mut sorted: Vec<ContiguousIntegerSet> = Vec::new();
        proof {
            broadcast use vstd::seq_lib::group_to_multiset_ensures;

            assert(partitions@.subrange(0, 0) =~= Seq::<ContiguousIntegerSet>::empty());
            assert(sorted@.to_multiset() =~= partitions@.subrange(0, 0).to_multiset());
        }
        for k in 0..n
            invariant
                n == partitions@.len(),
                sorted_by_start(sorted@),
                sorted@.to_multiset() == partitions@.subrange(0, k as int).to_multiset(),
        {
            let el = partitions[k];
            let mut pos = sorted.len();
            while pos > 0 && sorted[pos - 1].start > el.start
                invariant
                    pos <= sorted@.len(),
                    forall|i: int|
                        pos <= i < sorted@.len() ==> el.spec_start() < (
                        #[trigger] sorted@[i]).spec_start(),
                decreases pos,
            {
                pos = pos - 1;
            }
            let ghost old_sorted = sorted@;
            sorted.insert(pos, el);
            proof {
                broadcast use vstd::seq_lib::group_to_multiset_ensures;

                let prefix = partitions@.subrange(0, k as int);
                assert(partitions@.subrange(0, k + 1 as int) =~= prefix.push(el));
                // inserting in the middle adds the same element to the
                // multiset as pushing at the end does
                assert(sorted@ =~= old_sorted.subrange(0, pos as int).push(el) + old_sorted.subrange(
                    pos as int,
                    old_sorted.len() as int,
                ));
                vstd::seq_lib::lemma_multiset_commutative(
                    old_sorted.subrange(0, pos as int).push(el),
                    old_sorted.subrange(pos as int, old_sorted.len() as int),
                );
                assert(old_sorted =~= old_sorted.subrange(0, pos as int) + old_sorted.subrange(
                    pos as int,
                    old_sorted.len() as int,
                ));
                vstd::seq_lib::lemma_multiset_commutative(
                    old_sorted.subrange(0, pos as int),
                    old_sorted.subrange(pos as int, old_sorted.len() as int),
                );
                assert(sorted@.to_multiset() =~= prefix.push(el).to_multiset());
                assert forall|a: int, b: int| 0 <= a < b < sorted@.len() implies sorted@[
                a].spec_start() <= sorted@[b].spec_start() by {
                    if b < pos {
                        assert(old_sorted[a].spec_start() <= old_sorted[b].spec_start());
                    } else if a > pos {
                        assert(old_sorted[a - 1].spec_start() <= old_sorted[b - 1].spec_start());
                    } else if a < pos && b > pos {
                        assert(old_sorted[a].spec_start() <= old_sorted[b - 1].spec_start());
                    } else if b == pos {
                        assert(old_sorted[pos - 1].spec_start() <= el.spec_start());
                        assert(old_sorted[a].spec_start() <= old_sorted[pos - 1].spec_start());
                    } else {
                        assert(el.spec_start() < old_sorted[b - 1].spec_start());
                    }
                }
            }
        }
        proof {
            assert(partitions@.subrange(0, n as int) =~= partitions@);
        }
        OrderedIntervalPartitions { partitions: sorted }
    }

    pub fn from_vec_with_trusted_order(partitions: Vec<ContiguousIntegerSet>) -> (r:
        OrderedIntervalPartitions)
        requires
            sorted_by_start(partitions@),
        ensures
            r.partitions@ == partitions@,
    {
        OrderedIntervalPartitions { partitions }
    }

    pub fn from_slice(slice: &[[i64; 2]]) -> (r: OrderedIntervalPartitions)
        ensures
            sorted_by_start(r.partitions@),
            r.partitions@.to_multiset() == Seq::new(
                slice@.len(),
                |i: int| ContiguousIntegerSet { start: slice@[i][0], end: slice@[i][1] },
            ).to_multiset(),
    {
        let ghost mapped = Seq::new(
            slice@.len(),
            |i: int| ContiguousIntegerSet { start: slice@[i][0], end: slice@[i][1] },
        );
        let n = slice.len();
        let mut intervals: Vec<ContiguousIntegerSet> = Vec::new();
        for k in 0..n
            invariant
                n == slice@.len(),
                mapped == Seq::new(
                    slice@.len(),
                    |i: int| ContiguousIntegerSet { start: slice@[i][0], end: slice@[i][1] },
                ),
                intervals@ == mapped.subrange(0, k as int),
        {
            let pair = slice[k];
            intervals.push(ContiguousIntegerSet::new(pair[0], pair[1]));
            proof {
                assert(intervals@ =~= mapped.subrange(0, k + 1 as int));
            }
        }
        proof {
            assert(intervals@ =~= mapped);
        }
        OrderedIntervalPartitions::from_vec(intervals)
    }

    /// Returns the number of partitions of `self` that intersect at least
    /// one of the `other`'s partitions.
    pub fn num_partitions_overlapped_by(&self, other: &OrderedIntervalPartitions) -> (r: usize)
        ensures
            r == Set::new(
                |i: int|
                    0 <= i < self.partitions@.len() && exists|x: int|
                        self.partitions@[i].spec_contains(x) && seq_covers(other.partitions@, x),
            ).len(),
    {
        let n = self.partitions.len();
        let m = other.partitions.len();
        let ghost overlapped = Set::new(
            |i: int|
                0 <= i < self.partitions@.len() && exists|x: int|
                    self.partitions@[i].spec_contains(x) && seq_covers(other.partitions@, x),
        );
        let mut num_overlaps: usize = 0;
        proof {
            let full = vstd::set_lib::set_int_range(0, self.partitions@.len() as int);
            vstd::set_lib::lemma_int_range(0, self.partitions@.len() as int);
            assert(overlapped.subset_of(full));
            vstd::set_lib::lemma_len_subset(overlapped, full);
            assert(Set::new(|i: int| overlapped.contains(i) && i < 0) =~= Set::<int>::empty());
        }
        for k in 0..n
            invariant
                n == self.partitions@.len(),
                m == other.partitions@.len(),
                overlapped == Set::new(
                    |i: int|
                        0 <= i < self.partitions@.len() && exists|x: int|
                            self.partitions@[i].spec_contains(x) && seq_covers(
                                other.partitions@,
                                x,
                            ),
                ),
                num_overlaps == Set::new(
                    |i: int| overlapped.contains(i) && i < k as int,
                ).len(),
                num_overlaps <= k,
        {
            let a = self.partitions[k];
            let mut hit = false;
            for t in 0..m
                invariant
                    m == other.partitions@.len(),
                    n == self.partitions@.len(),
                    k < n,
                    a == self.partitions@[k as int],
                    hit ==> exists|x: int|
                        self.partitions@[k as int].spec_contains(x) && seq_covers(
                            other.partitions@,
                            x,
                        ),
                    !hit ==> forall|x: int|
                        !(self.partitions@[k as int].spec_contains(x) && seq_covers(
                            other.partitions@.subrange(0, t as int),
                            x,
                        )),
            {
                let b = other.partitions[t];
                let ghost prefix = other.partitions@.subrange(0, t as int);
                proof {
                    assert(other.partitions@.subrange(0, t + 1 as int) =~= prefix.push(b));
                    lemma_covers_push(prefix, b, other.partitions@.subrange(0, t + 1 as int));
                }
                if !hit {
                    let lo = if a.start >= b.start {
                        a.start
                    } else {
                        b.start
                    };
                    let hi = if a.end <= b.end {
                        a.end
                    } else {
                        b.end
                    };
                    if lo <= hi {
                        hit = true;
                        proof {
                            assert(other.partitions@[t as int].spec_contains(lo as int));
                            assert(seq_covers(other.partitions@, lo as int));
                            assert(self.partitions@[k as int].spec_contains(lo as int));
                        }
                    }
                }
            }
            proof {
                assert(other.partitions@.subrange(0, m as int) =~= other.partitions@);
                let before = Set::new(|i: int| overlapped.contains(i) && i < k as int);
                let after = Set::new(|i: int| overlapped.contains(i) && i < k + 1 as int);
                let full = vstd::set_lib::set_int_range(0, self.partitions@.len() as int);
                vstd::set_lib::lemma_int_range(0, self.partitions@.len() as int);
                assert(overlapped.subset_of(full));
                vstd::set_lib::lemma_len_subset(overlapped, full);
                if hit {
                    assert(overlapped.contains(k as int));
                    assert(after =~= before.insert(k as int));
                    assert(before.finite()) by {
                        assert(before.subset_of(overlapped));
                        vstd::set_lib::lemma_len_subset(before, overlapped);
                    }
                    assert(!before.contains(k as int));
                } else {
                    assert(!overlapped.contains(k as int));
                    assert(after =~= before);
                }
                assert(after.subset_of(overlapped));
                vstd::set_lib::lemma_len_subset(after, overlapped);
            }
            if hit {
                num_overlaps = num_overlaps + 1;
            }
        }
        proof {
            assert(Set::new(|i: int| overlapped.contains(i) && i < n as int) =~= overlapped);
        }
        num_overlaps
    }

    pub fn num_partitions(&self) -> (r: usize)
        ensures
            r == self.partitions@.len(),
    {
        self.partitions.len()
    }

    pub fn get_partitions_by_ref(&self) -> (r: &Vec<ContiguousIntegerSet>)
        ensures
            r == &self.partitions,
    {
        &self.partitions
    }

    pub fn into_vec(self) -> (r: Vec<ContiguousIntegerSet>)
        ensures
            r == self.partitions,
    {
        self.partitions
    }

    pub fn to_ordered_integer_set(&self) -> (r: OrderedIntegerSet)
        ensures
            r.well_formed(),
            forall|x: int| r.set_contains(x) <==> seq_covers(self.partitions@, x),
    {
        let n = self.partitions.len();
        let mut intervals: Vec<ContiguousIntegerSet> = Vec::new();
        for k in 0..n
            invariant
                n == self.partitions@.len(),
                intervals@ == self.partitions@.subrange(0, k as int),
        {
            intervals.push(self.partitions[k]);
            proof {
                assert(intervals@ =~= self.partitions@.subrange(0, k + 1 as int));
            }
        }
        proof {
            assert(intervals@ =~= self.partitions@);
        }
        OrderedIntegerSet::from_contiguous_integer_sets(intervals)
    }

    pub fn into_ordered_integer_set(self) -> (r: OrderedIntegerSet)
        ensures
            r.well_formed(),
            forall|x: int| r.set_contains(x) <==> seq_covers(self.partitions@, x),
    {
        OrderedIntegerSet::from_contiguous_integer_sets(self.partitions)
    }

    /// If there is a partition containing the subinterval, returns the tuple
    /// `(partition_index, partition)`.
    pub fn get_partition_containing(&self, subinterval: &ContiguousIntegerSet) -> (r: Option<
        (usize, ContiguousIntegerSet),
    >)
        requires
            is_partition_seq(self.partitions@),
        ensures
            match r {
                Option::Some(p) => p.0 < self.partitions@.len() && p.1 == self.partitions@[
                    p.0 as int] && subinterval.spec_subset_of(p.1),
                Option::None => forall|i: int|
                    0 <= i < self.partitions@.len() ==> !subinterval.spec_subset_of(
                        #[trigger] self.partitions@[i],
                    ),
            },
    {
        let cmp = |interval: &ContiguousIntegerSet, sub: &ContiguousIntegerSet| -> (o: Ordering)
            ensures
                o == (if sub.spec_subset_of(*interval) {
                    Ordering::Equal
                } else if interval.spec_start() > sub.spec_start() {
                    Ordering::Greater
                } else {
                    Ordering::Less
                }),
            {
                if sub.is_subset_of(interval) {
                    Ordering::Equal
                } else if interval.start > sub.start {
                    Ordering::Greater
                } else {
                    Ordering::Less
                }
            };
        let n = self.partitions.len();
        let result = binary_search_with_cmp(&self.partitions, 0, n, subinterval, cmp);
        match result {
            Result::Ok(i) => {
                let p = self.partitions[i];
                Option::Some((i, p))
            },
            Result::Err(pos) => {
                proof {
                    let s = self.partitions@;
                    assert forall|i: int| 0 <= i < s.len() implies !subinterval.spec_subset_of(
                        #[trigger] s[i],
                    ) by {
                        match pos {
                            Option::Some(p) => {
                                let pi = p as int;
                                if subinterval.spec_subset_of(s[i]) {
                                    if pi < s.len() {
                                        // to the right of the insertion point
                                        // every partition starts after the
                                        // subinterval does
                                        assert(s[pi].spec_start() > subinterval.spec_start());
                                        assert(!subinterval.spec_is_empty());
                                        if i >= pi {
                                            if i > pi {
                                                assert(s[pi].spec_end() < s[i].spec_start());
                                            }
                                            assert(subinterval.spec_contains(
                                                subinterval.spec_start(),
                                            ));
                                            assert(s[i].spec_contains(subinterval.spec_start()));
                                            assert(false);
                                        }
                                    }
                                    if pi > 0 {
                                        assert(!subinterval.spec_subset_of(s[pi - 1])
                                            && s[pi - 1].spec_start() <= subinterval.spec_start());
                                        assert(!subinterval.spec_is_empty()) by {
                                            if subinterval.spec_is_empty() {
                                                assert(subinterval.spec_subset_of(s[pi - 1]));
                                            }
                                        }
                                        if i < pi - 1 {
                                            assert(s[i].spec_end() < s[pi - 1].spec_start());
                                            assert(subinterval.spec_contains(
                                                subinterval.spec_start(),
                                            ));
                                            assert(s[i].spec_contains(subinterval.spec_start()));
                                            assert(false);
                                        }
                                    } else {
                                        // pos == 0 and pos < len was handled;
                                        // if the range is empty there is no i
                                        assert(pi < s.len() || s.len() == 0);
                                    }
                                }
                            },
                            Option::None => {
                                assert(s.len() == 0);
                            },
                        }
                    }
                }
                Option::None
            },
        }
    }
}

impl Refineable<OrderedIntervalPartitions> for OrderedIntervalPartitions {
    open spec fn refinement_req(&self, other: &Self) -> bool {
        is_partition_seq(self.partitions@) && is_partition_seq(other.partitions@)
    }

    open spec fn refinement_post(&self, other: &Self, r: OrderedIntervalPartitions) -> bool {
        &&& is_partition_seq(r.partitions@)
        &&& forall|x: int| #![trigger seq_covers(r.partitions@, x)]
            seq_covers(r.partitions@, x) <==> (seq_covers(self.partitions@, x) || seq_covers(
                other.partitions@,
                x,
            ))
        &&& forall|t: int|
            0 <= t < r.partitions@.len() ==> aligned_with(#[trigger] r.partitions@[t], self.partitions@)
                && aligned_with(r.partitions@[t], other.partitions@)
        &&& forall|t: int|
            0 <= t < r.partitions@.len() ==> input_cut(
                self.partitions@,
                other.partitions@,
                (#[trigger] r.partitions@[t]).spec_start(),
            )
    }

    /// Two-pointer sweep producing the ascending, gap-free, overlap-free
    /// interleaving of both partitions' boundaries, carrying per side the
    /// unconsumed tail (remnant) of a partially emitted interval.
    #[verifier::rlimit(100)]
    #[verifier::spinoff_prover]
    fn get_common_refinement(&self, other: &Self) -> (r: OrderedIntervalPartitions) {
        let ghost aseq = self.partitions@;
        let ghost bseq = other.partitions@;
        let na = self.partitions.len();
        let nb = other.partitions.len();
        let mut i: usize = 0;
        let mut j: usize = 0;
        let mut refinement: Vec<ContiguousIntegerSet> = Vec::new();
        let mut lhs_remnant: Option<ContiguousIntegerSet> = Option::None;
        let mut rhs_remnant: Option<ContiguousIntegerSet> = Option::None;
        proof {
            assert forall|x: int| #![trigger seq_covers(aseq, x)]
                seq_covers(aseq, x) && na > 0 implies x >= aseq[0].spec_start() by {
                let t = choose|t: int| 0 <= t < aseq.len() && aseq[t].spec_contains(x);
                if t > 0 {
                    assert(aseq[0].spec_end() < aseq[t].spec_start());
                }
            }
            assert forall|x: int| #![trigger seq_covers(bseq, x)]
                seq_covers(bseq, x) && nb > 0 implies x >= bseq[0].spec_start() by {
                let t = choose|t: int| 0 <= t < bseq.len() && bseq[t].spec_contains(x);
                if t > 0 {
                    assert(bseq[0].spec_end() < bseq[t].spec_start());
                }
            }
        }
        while i < na && j < nb
            invariant
                aseq == self.partitions@,
                bseq == other.partitions@,
                is_partition_seq(aseq),
                is_partition_seq(bseq),
                na == aseq.len(),
                nb == bseq.len(),
                i <= na,
                j <= nb,
                match lhs_remnant {
                    Option::Some(rem) => i < na && !rem.spec_is_empty() && rem.spec_end() == aseq[
                        i as int].spec_end() && aseq[i as int].spec_start() <= rem.spec_start(),
                    Option::None => true,
                },
                match rhs_remnant {
                    Option::Some(rem) => j < nb && !rem.spec_is_empty() && rem.spec_end() == bseq[
                        j as int].spec_end() && bseq[j as int].spec_start() <= rem.spec_start(),
                    Option::None => true,
                },
                lhs_remnant.is_some() && j < nb ==> sweep_start(lhs_remnant, aseq, i as int)
                    <= sweep_start(rhs_remnant, bseq, j as int),
                rhs_remnant.is_some() && i < na ==> sweep_start(rhs_remnant, bseq, j as int)
                    <= sweep_start(lhs_remnant, aseq, i as int),
                is_partition_seq(refinement@),
                forall|x: int| #![trigger seq_covers(refinement@, x)]
                    seq_covers(refinement@, x) <==> ((seq_covers(aseq, x) || seq_covers(bseq, x))
                        && (i < na ==> x < sweep_start(lhs_remnant, aseq, i as int)) && (j < nb
                        ==> x < sweep_start(rhs_remnant, bseq, j as int))),
                forall|t: int|
                    0 <= t < refinement@.len() ==> ((i < na ==> (
                    #[trigger] refinement@[t]).spec_end() < sweep_start(lhs_remnant, aseq, i as int))
                        && (j < nb ==> refinement@[t].spec_end() < sweep_start(
                        rhs_remnant,
                        bseq,
                        j as int,
                    ))),
                forall|x: int| #![trigger seq_covers(aseq.subrange(0, i as int), x)]
                    seq_covers(aseq.subrange(0, i as int), x) ==> ((i < na ==> x < sweep_start(
                        lhs_remnant,
                        aseq,
                        i as int,
                    )) && (j < nb ==> x < sweep_start(rhs_remnant, bseq, j as int))),
                forall|x: int| #![trigger seq_covers(bseq.subrange(0, j as int), x)]
                    seq_covers(bseq.subrange(0, j as int), x) ==> ((i < na ==> x < sweep_start(
                        lhs_remnant,
                        aseq,
                        i as int,
                    )) && (j < nb ==> x < sweep_start(rhs_remnant, bseq, j as int))),
                forall|t: int|
                    0 <= t < refinement@.len() ==> aligned_with(#[trigger] refinement@[t], aseq)
                        && aligned_with(refinement@[t], bseq),
                match lhs_remnant {
                    Option::Some(rem) => input_cut(aseq, bseq, rem.spec_start()),
                    Option::None => true,
                },
                match rhs_remnant {
                    Option::Some(rem) => input_cut(aseq, bseq, rem.spec_start()),
                    Option::None => true,
                },
                forall|t: int|
                    0 <= t < refinement@.len() ==> input_cut(
                        aseq,
                        bseq,
                        (#[trigger] refinement@[t]).spec_start(),
                    ),
            decreases (na - i) + (nb - j),
        {
            let ca = match lhs_remnant {
                Option::Some(rem) => rem,
                Option::None => self.partitions[i],
            };
            let cb = match rhs_remnant {
                Option::Some(rem) => rem,
                Option::None => other.partitions[j],
            };
            let ghost old_out = refinement@;
            let ghost old_i = i as int;
            let ghost old_j = j as int;
            let ghost old_lrem = lhs_remnant;
            let ghost old_rrem = rhs_remnant;
            let lo = if ca.start >= cb.start {
                ca.start
            } else {
                cb.start
            };
            let hi = if ca.end <= cb.end {
                ca.end
            } else {
                cb.end
            };
            if lo > hi {
                // the current intervals do not intersect: emit whichever
                // starts first and advance that side
                if ca.start <= cb.start {
                    refinement.push(ca);
                    i = i + 1;
                    lhs_remnant = Option::None;
                    proof {
                        lemma_covers_push(old_out, ca, refinement@);
                        assert(aseq.subrange(0, i as int) =~= aseq.subrange(0, old_i).push(
                            aseq[old_i],
                        ));
                        lemma_covers_push(
                            aseq.subrange(0, old_i),
                            aseq[old_i],
                            aseq.subrange(0, i as int),
                        );
                        // `ca` lies strictly before the untouched `cb`
                        assert(ca.spec_end() < cb.spec_start());
                        assert forall|x: int| ca.spec_contains(x) implies !seq_covers(bseq, x) by {
                            if seq_covers(bseq, x) {
                                let t = choose|t: int|
                                    0 <= t < bseq.len() && bseq[t].spec_contains(x);
                                if t < old_j {
                                    assert(bseq.subrange(0, old_j)[t].spec_contains(x));
                                    assert(seq_covers(bseq.subrange(0, old_j), x));
                                    assert(x < sweep_start(old_lrem, aseq, old_i));
                                    assert(sweep_start(old_lrem, aseq, old_i) == ca.spec_start());
                                } else if t > old_j {
                                    assert(bseq[old_j].spec_end() < bseq[t].spec_start());
                                    assert(x > bseq[old_j].spec_end());
                                    assert(x >= cb.spec_start());
                                } else {
                                    assert(x >= cb.spec_start());
                                }
                            }
                        }
                        assert(aligned_with(ca, aseq)) by {
                            assert(aseq[old_i].spec_start() <= ca.spec_start() && ca.spec_end()
                                <= aseq[old_i].spec_end());
                        }
                        assert(aligned_with(ca, bseq));
                        assert(input_cut(aseq, bseq, ca.spec_start())) by {
                            if old_lrem.is_none() {
                                reveal(input_cut);
                                assert(aseq[old_i].spec_start() == ca.spec_start());
                            }
                        }
                        if i < na {
                            assert(aseq[old_i].spec_end() < aseq[i as int].spec_start());
                        }
                        assert forall|x: int| #![trigger seq_covers(refinement@, x)]
                            seq_covers(refinement@, x) <==> ((seq_covers(aseq, x) || seq_covers(
                                bseq,
                                x,
                            )) && (i < na ==> x < sweep_start(lhs_remnant, aseq, i as int)) && (j
                                < nb ==> x < sweep_start(rhs_remnant, bseq, j as int))) by {
                            if seq_covers(refinement@, x) && !seq_covers(old_out, x) {
                                assert(ca.spec_contains(x));
                                assert(aseq[old_i].spec_contains(x));
                                assert(seq_covers(aseq, x));
                            }
                            if (seq_covers(aseq, x) || seq_covers(bseq, x)) && (i < na ==> x
                                < sweep_start(lhs_remnant, aseq, i as int)) && (j < nb ==> x
                                < sweep_start(rhs_remnant, bseq, j as int)) && !seq_covers(
                                old_out,
                                x,
                            ) && !ca.spec_contains(x) {
                                if seq_covers(aseq, x) {
                                    let t = choose|t: int|
                                        0 <= t < aseq.len() && aseq[t].spec_contains(x);
                                    if t < old_i {
                                        assert(aseq.subrange(0, old_i)[t].spec_contains(x));
                                        assert(seq_covers(aseq.subrange(0, old_i), x));
                                        assert(x < sweep_start(old_lrem, aseq, old_i));
                                    } else if t == old_i {
                                        assert(x < sweep_start(old_lrem, aseq, old_i));
                                    } else {
                                        assert(x >= aseq[t].spec_start());
                                        if t > i as int {
                                            assert(aseq[i as int].spec_end() < aseq[
                                                t].spec_start());
                                        }
                                        assert(false);
                                    }
                                } else {
                                    let t = choose|t: int|
                                        0 <= t < bseq.len() && bseq[t].spec_contains(x);
                                    if t < old_j {
                                        assert(bseq.subrange(0, old_j)[t].spec_contains(x));
                                        assert(seq_covers(bseq.subrange(0, old_j), x));
                                        assert(x < sweep_start(old_lrem, aseq, old_i));
                                    } else if t == old_j {
                                        if x >= sweep_start(old_rrem, bseq, old_j) {
                                            assert(false);
                                        }
                                        assert(x < sweep_start(old_lrem, aseq, old_i));
                                    } else {
                                        assert(bseq[old_j].spec_end() < bseq[t].spec_start());
                                        assert(x >= bseq[t].spec_start());
                                        assert(false);
                                    }
                                }
                                assert(seq_covers(old_out, x));
                                assert(false);
                            }
                        }
                    }
                } else {
                    refinement.push(cb);
                    j = j + 1;
                    rhs_remnant = Option::None;
                    proof {
                        lemma_covers_push(old_out, cb, refinement@);
                        assert(bseq.subrange(0, j as int) =~= bseq.subrange(0, old_j).push(
                            bseq[old_j],
                        ));
                        lemma_covers_push(
                            bseq.subrange(0, old_j),
                            bseq[old_j],
                            bseq.subrange(0, j as int),
                        );
                        assert(cb.spec_end() < ca.spec_start());
                        assert forall|x: int| cb.spec_contains(x) implies !seq_covers(aseq, x) by {
                            if seq_covers(aseq, x) {
                                let t = choose|t: int|
                                    0 <= t < aseq.len() && aseq[t].spec_contains(x);
                                if t < old_i {
                                    assert(aseq.subrange(0, old_i)[t].spec_contains(x));
                                    assert(seq_covers(aseq.subrange(0, old_i), x));
                                    assert(x < sweep_start(old_rrem, bseq, old_j));
                                    assert(sweep_start(old_rrem, bseq, old_j) == cb.spec_start());
                                } else if t > old_i {
                                    assert(aseq[old_i].spec_end() < aseq[t].spec_start());
                                    assert(x > aseq[old_i].spec_end());
                                    assert(x >= ca.spec_start());
                                } else {
                                    assert(x >= ca.spec_start());
                                }
                            }
                        }
                        assert(aligned_with(cb, bseq)) by {
                            assert(bseq[old_j].spec_start() <= cb.spec_start() && cb.spec_end()
                                <= bseq[old_j].spec_end());
                        }
                        assert(aligned_with(cb, aseq));
                        assert(input_cut(aseq, bseq, cb.spec_start())) by {
                            if old_rrem.is_none() {
                                reveal(input_cut);
                                assert(bseq[old_j].spec_start() == cb.spec_start());
                            }
                        }
                        if j < nb {
                            assert(bseq[old_j].spec_end() < bseq[j as int].spec_start());
                        }
                        assert forall|x: int| #![trigger seq_covers(refinement@, x)]
                            seq_covers(refinement@, x) <==> ((seq_covers(aseq, x) || seq_covers(
                                bseq,
                                x,
                            )) && (i < na ==> x < sweep_start(lhs_remnant, aseq, i as int)) && (j
                                < nb ==> x < sweep_start(rhs_remnant, bseq, j as int))) by {
                            if seq_covers(refinement@, x) && !seq_covers(old_out, x) {
                                assert(cb.spec_contains(x));
                                assert(bseq[old_j].spec_contains(x));
                                assert(seq_covers(bseq, x));
                            }
                            if (seq_covers(aseq, x) || seq_covers(bseq, x)) && (i < na ==> x
                                < sweep_start(lhs_remnant, aseq, i as int)) && (j < nb ==> x
                                < sweep_start(rhs_remnant, bseq, j as int)) && !seq_covers(
                                old_out,
                                x,
                            ) && !cb.spec_contains(x) {
                                if seq_covers(bseq, x) {
                                    let t = choose|t: int|
                                        0 <= t < bseq.len() && bseq[t].spec_contains(x);
                                    if t < old_j {
                                        assert(bseq.subrange(0, old_j)[t].spec_contains(x));
                                        assert(seq_covers(bseq.subrange(0, old_j), x));
                                        assert(x < sweep_start(old_rrem, bseq, old_j));
                                    } else if t == old_j {
                                        assert(x < sweep_start(old_rrem, bseq, old_j));
                                    } else {
                                        assert(x >= bseq[t].spec_start());
                                        if t > j as int {
                                            assert(bseq[j as int].spec_end() < bseq[
                                                t].spec_start());
                                        }
                                        assert(false);
                                    }
                                } else {
                                    let t = choose|t: int|
                                        0 <= t < aseq.len() && aseq[t].spec_contains(x);
                                    if t < old_i {
                                        assert(aseq.subrange(0, old_i)[t].spec_contains(x));
                                        assert(seq_covers(aseq.subrange(0, old_i), x));
                                        assert(x < sweep_start(old_rrem, bseq, old_j));
                                    } else if t == old_i {
                                        if x >= sweep_start(old_lrem, aseq, old_i) {
                                            assert(false);
                                        }
                                        assert(x < sweep_start(old_rrem, bseq, old_j));
                                    } else {
                                        assert(aseq[old_i].spec_end() < aseq[t].spec_start());
                                        assert(x >= aseq[t].spec_start());
                                        assert(false);
                                    }
                                }
                                assert(seq_covers(old_out, x));
                                assert(false);
                            }
                        }
                    }
                }
            } else {
                // the current intervals intersect in [lo, hi]: emit the
                // pre-intersection prefix of the side that starts first (if
                // any), then the intersection itself
                let intersection = ContiguousIntegerSet::new(lo, hi);
                if ca.start < lo {
                    refinement.push(ContiguousIntegerSet::new(ca.start, lo - 1));
                    proof {
                        lemma_covers_push(
                            old_out,
                            ContiguousIntegerSet { start: ca.start, end: (lo - 1) as i64 },
                            refinement@,
                        );
                    }
                }
                if cb.start < lo {
                    let ghost mid_out = refinement@;
                    refinement.push(ContiguousIntegerSet::new(cb.start, lo - 1));
                    proof {
                        lemma_covers_push(
                            mid_out,
                            ContiguousIntegerSet { start: cb.start, end: (lo - 1) as i64 },
                            refinement@,
                        );
                    }
                }
                let ghost pre_out = refinement@;
                refinement.push(intersection);
                proof {
                    lemma_covers_push(pre_out, intersection, refinement@);
                }
                if ca.end > hi {
                    lhs_remnant = Option::Some(ContiguousIntegerSet::new(hi + 1, ca.end));
                    proof {
                        // the intersection ended where the other side's
                        // interval does, so the remnant starts at a boundary
                        reveal(input_cut);
                        assert(cb.spec_end() == bseq[old_j].spec_end());
                        assert(input_cut(aseq, bseq, hi + 1));
                    }
                } else {
                    lhs_remnant = Option::None;
                    i = i + 1;
                    proof {
                        assert(aseq.subrange(0, i as int) =~= aseq.subrange(0, old_i).push(
                            aseq[old_i],
                        ));
                        lemma_covers_push(
                            aseq.subrange(0, old_i),
                            aseq[old_i],
                            aseq.subrange(0, i as int),
                        );
                    }
                }
                if cb.end > hi {
                    rhs_remnant = Option::Some(ContiguousIntegerSet::new(hi + 1, cb.end));
                    proof {
                        reveal(input_cut);
                        if hi == cb.spec_end() {
                            assert(bseq[old_j].spec_end() == hi as int);
                        } else {
                            assert(aseq[old_i].spec_end() == hi as int);
                        }
                        assert(input_cut(aseq, bseq, hi + 1));
                    }
                } else {
                    rhs_remnant = Option::None;
                    j = j + 1;
                    proof {
                        assert(bseq.subrange(0, j as int) =~= bseq.subrange(0, old_j).push(
                            bseq[old_j],
                        ));
                        lemma_covers_push(
                            bseq.subrange(0, old_j),
                            bseq[old_j],
                            bseq.subrange(0, j as int),
                        );
                    }
                }
                proof {
                    // both new frontiers lie strictly beyond the intersection
                    assert(i < na ==> sweep_start(lhs_remnant, aseq, i as int) > hi as int) by {
                        if lhs_remnant.is_none() && i < na {
                            assert(aseq[old_i].spec_end() < aseq[i as int].spec_start());
                        }
                    }
                    assert(j < nb ==> sweep_start(rhs_remnant, bseq, j as int) > hi as int) by {
                        if rhs_remnant.is_none() && j < nb {
                            assert(bseq[old_j].spec_end() < bseq[j as int].spec_start());
                        }
                    }
                    // every entry, old or new, ends at or before `hi`
                    assert forall|t: int| 0 <= t < refinement@.len() implies (
                    #[trigger] refinement@[t]).spec_end() <= hi as int by {
                        if t < old_out.len() {
                            assert(old_out[t].spec_end() < sweep_start(old_lrem, aseq, old_i));
                        }
                    }
                    // what was emitted this round covers exactly the covered
                    // integers in [min(ca.start, cb.start), hi]
                    assert forall|x: int| #![trigger seq_covers(refinement@, x)]
                        seq_covers(refinement@, x) implies ((seq_covers(aseq, x) || seq_covers(
                            bseq,
                            x,
                        )) && (i < na ==> x < sweep_start(lhs_remnant, aseq, i as int)) && (j < nb
                            ==> x < sweep_start(rhs_remnant, bseq, j as int))) by {
                        let t = choose|t: int|
                            0 <= t < refinement@.len() && refinement@[t].spec_contains(x);
                        assert(x <= hi as int) by {
                            assert(refinement@[t].spec_end() <= hi as int);
                        }
                        if !seq_covers(old_out, x) {
                            // newly emitted: a pre-piece is inside `ca` or
                            // `cb`; the intersection is inside both
                            assert(seq_covers(aseq, x) || seq_covers(bseq, x)) by {
                                if ca.spec_contains(x) {
                                    assert(aseq[old_i].spec_contains(x));
                                } else if cb.spec_contains(x) {
                                    assert(bseq[old_j].spec_contains(x));
                                }
                            }
                        }
                    }
                    assert forall|x: int| #![trigger seq_covers(refinement@, x)]
                        ((seq_covers(aseq, x) || seq_covers(bseq, x)) && (i < na ==> x
                            < sweep_start(lhs_remnant, aseq, i as int)) && (j < nb ==> x
                            < sweep_start(rhs_remnant, bseq, j as int))) implies seq_covers(
                            refinement@,
                            x,
                        ) by {
                        if !seq_covers(refinement@, x) {
                            if !seq_covers(old_out, x) {
                                // x lies at or beyond this round's frontier,
                                // yet below the new frontier: it must be in
                                // [min(ca.start,cb.start), hi] and covered,
                                // so one of the emitted pieces holds it
                                if seq_covers(aseq, x) {
                                    let t = choose|t: int|
                                        0 <= t < aseq.len() && aseq[t].spec_contains(x);
                                    if t < old_i {
                                        assert(aseq.subrange(0, old_i)[t].spec_contains(x));
                                        assert(seq_covers(aseq.subrange(0, old_i), x));
                                        assert(false);
                                    } else if t > old_i {
                                        assert(aseq[old_i].spec_end() < aseq[t].spec_start());
                                        assert(x > ca.spec_end());
                                        if t > i as int {
                                            assert(aseq[i as int].spec_end() < aseq[
                                                t].spec_start());
                                        }
                                        assert(false);
                                    } else {
                                        if x < ca.spec_start() {
                                            // below the remnant start means
                                            // already emitted
                                            assert(x < sweep_start(old_lrem, aseq, old_i));
                                            assert(x < sweep_start(old_rrem, bseq, old_j) || !(
                                            old_j < nb)) by {
                                                if old_rrem.is_some() {
                                                } else {
                                                }
                                            }
                                            assert(seq_covers(old_out, x));
                                            assert(false);
                                        }
                                        assert(ca.spec_contains(x));
                                        if x < lo {
                                            assert(ca.spec_start() < lo);
                                            assert(refinement@[old_out.len() as int].spec_contains(
                                                x,
                                            ));
                                        } else {
                                            assert(x <= hi as int) by {
                                                if ca.spec_end() > hi as int {
                                                    assert(x < sweep_start(
                                                        lhs_remnant,
                                                        aseq,
                                                        i as int,
                                                    ));
                                                }
                                            }
                                            assert(intersection.spec_contains(x));
                                            assert(seq_covers(refinement@, x));
                                        }
                                        assert(false);
                                    }
                                } else {
                                    let t = choose|t: int|
                                        0 <= t < bseq.len() && bseq[t].spec_contains(x);
                                    if t < old_j {
                                        assert(bseq.subrange(0, old_j)[t].spec_contains(x));
                                        assert(seq_covers(bseq.subrange(0, old_j), x));
                                        assert(false);
                                    } else if t > old_j {
                                        assert(bseq[old_j].spec_end() < bseq[t].spec_start());
                                        assert(x > cb.spec_end());
                                        if t > j as int {
                                            assert(bseq[j as int].spec_end() < bseq[
                                                t].spec_start());
                                        }
                                        assert(false);
                                    } else {
                                        if x < cb.spec_start() {
                                            assert(x < sweep_start(old_rrem, bseq, old_j));
                                            assert(seq_covers(old_out, x));
                                            assert(false);
                                        }
                                        assert(cb.spec_contains(x));
                                        if x < lo {
                                            assert(cb.spec_start() < lo);
                                            assert(refinement@[old_out.len() as int].spec_contains(
                                                x,
                                            ));
                                        } else {
                                            assert(x <= hi as int) by {
                                                if cb.spec_end() > hi as int {
                                                    assert(x < sweep_start(
                                                        rhs_remnant,
                                                        bseq,
                                                        j as int,
                                                    ));
                                                }
                                            }
                                            assert(intersection.spec_contains(x));
                                        }
                                        assert(false);
                                    }
                                }
                            } else {
                                assert(seq_covers(refinement@, x)) by {
                                    let t = choose|t: int|
                                        0 <= t < old_out.len() && old_out[t].spec_contains(x);
                                    assert(refinement@[t].spec_contains(x));
                                }
                                assert(false);
                            }
                        }
                    }
                    // every emitted piece starts at an input boundary
                    assert(input_cut(aseq, bseq, ca.spec_start())) by {
                        if old_lrem.is_none() {
                            reveal(input_cut);
                            assert(aseq[old_i].spec_start() == ca.spec_start());
                        }
                    }
                    assert(input_cut(aseq, bseq, cb.spec_start())) by {
                        if old_rrem.is_none() {
                            reveal(input_cut);
                            assert(bseq[old_j].spec_start() == cb.spec_start());
                        }
                    }
                    assert(input_cut(aseq, bseq, lo as int));
                    assert forall|t: int| 0 <= t < refinement@.len() implies input_cut(
                        aseq,
                        bseq,
                        (#[trigger] refinement@[t]).spec_start(),
                    ) by {
                        if t >= old_out.len() {
                            let f = refinement@[t];
                            assert(f.spec_start() == ca.spec_start() || f.spec_start()
                                == cb.spec_start() || f.spec_start() == lo as int);
                        }
                    }
                    // alignment of the emitted pieces
                    assert forall|t: int| 0 <= t < refinement@.len() implies aligned_with(
                        #[trigger] refinement@[t],
                        aseq,
                    ) && aligned_with(refinement@[t], bseq) by {
                        if t < old_out.len() {
                            assert(refinement@[t] == old_out[t]);
                        } else {
                            let f = refinement@[t];
                            if f == intersection {
                                assert(aseq[old_i].spec_start() <= f.spec_start() && f.spec_end()
                                    <= aseq[old_i].spec_end());
                                assert(bseq[old_j].spec_start() <= f.spec_start() && f.spec_end()
                                    <= bseq[old_j].spec_end());
                            } else if ca.start < lo && f == (ContiguousIntegerSet {
                                start: ca.start,
                                end: (lo - 1) as i64,
                            }) {
                                assert(aseq[old_i].spec_start() <= f.spec_start() && f.spec_end()
                                    <= aseq[old_i].spec_end());
                                // the prefix of `ca` lies strictly before
                                // `cb`, and before any other `bseq` interval
                                assert forall|x: int| f.spec_contains(x) implies !seq_covers(
                                    bseq,
                                    x,
                                ) by {
                                    if seq_covers(bseq, x) {
                                        let u = choose|u: int|
                                            0 <= u < bseq.len() && bseq[u].spec_contains(x);
                                        if u < old_j {
                                            assert(bseq.subrange(0, old_j)[u].spec_contains(x));
                                            assert(seq_covers(bseq.subrange(0, old_j), x));
                                            assert(x < sweep_start(old_lrem, aseq, old_i));
                                            assert(sweep_start(old_lrem, aseq, old_i)
                                                == ca.spec_start());
                                        } else if u > old_j {
                                            assert(bseq[old_j].spec_end() < bseq[u].spec_start());
                                        }
                                    }
                                }
                            } else {
                                assert(cb.start < lo && f == (ContiguousIntegerSet {
                                    start: cb.start,
                                    end: (lo - 1) as i64,
                                }));
                                assert(bseq[old_j].spec_start() <= f.spec_start() && f.spec_end()
                                    <= bseq[old_j].spec_end());
                                assert forall|x: int| f.spec_contains(x) implies !seq_covers(
                                    aseq,
                                    x,
                                ) by {
                                    if seq_covers(aseq, x) {
                                        let u = choose|u: int|
                                            0 <= u < aseq.len() && aseq[u].spec_contains(x);
                                        if u < old_i {
                                            assert(aseq.subrange(0, old_i)[u].spec_contains(x));
                                            assert(seq_covers(aseq.subrange(0, old_i), x));
                                            assert(x < sweep_start(old_rrem, bseq, old_j));
                                            assert(sweep_start(old_rrem, bseq, old_j)
                                                == cb.spec_start());
                                        } else if u > old_i {
                                            assert(aseq[old_i].spec_end() < aseq[u].spec_start());
                                        }
                                    }
                                }
                            }
                        }
                    }
                }
            }
        }
        // append the remaining intervals of whichever side is not yet
        // exhausted, flushing its trailing remnant first
        while i < na
            invariant
                aseq == self.partitions@,
                bseq == other.partitions@,
                is_partition_seq(aseq),
                is_partition_seq(bseq),
                na == aseq.len(),
                nb == bseq.len(),
                i <= na,
                j <= nb,
                i < na ==> j == nb,
                match lhs_remnant {
                    Option::Some(rem) => i < na && !rem.spec_is_empty() && rem.spec_end() == aseq[
                        i as int].spec_end() && aseq[i as int].spec_start() <= rem.spec_start(),
                    Option::None => true,
                },
                match rhs_remnant {
                    Option::Some(rem) => j < nb && !rem.spec_is_empty() && rem.spec_end() == bseq[
                        j as int].spec_end() && bseq[j as int].spec_start() <= rem.spec_start(),
                    Option::None => true,
                },
                is_partition_seq(refinement@),
                forall|x: int| #![trigger seq_covers(refinement@, x)]
                    seq_covers(refinement@, x) <==> ((seq_covers(aseq, x) || seq_covers(bseq, x))
                        && (i < na ==> x < sweep_start(lhs_remnant, aseq, i as int)) && (j < nb
                        ==> x < sweep_start(rhs_remnant, bseq, j as int))),
                forall|t: int|
                    0 <= t < refinement@.len() ==> ((i < na ==> (
                    #[trigger] refinement@[t]).spec_end() < sweep_start(lhs_remnant, aseq, i as int))
                        && (j < nb ==> refinement@[t].spec_end() < sweep_start(
                        rhs_remnant,
                        bseq,
                        j as int,
                    ))),
                forall|x: int| #![trigger seq_covers(aseq.subrange(0, i as int), x)]
                    seq_covers(aseq.subrange(0, i as int), x) ==> ((i < na ==> x < sweep_start(
                        lhs_remnant,
                        aseq,
                        i as int,
                    )) && (j < nb ==> x < sweep_start(rhs_remnant, bseq, j as int))),
                forall|x: int| #![trigger seq_covers(bseq.subrange(0, j as int), x)]
                    seq_covers(bseq.subrange(0, j as int), x) ==> ((i < na ==> x < sweep_start(
                        lhs_remnant,
                        aseq,
                        i as int,
                    )) && (j < nb ==> x < sweep_start(rhs_remnant, bseq, j as int))),
                forall|t: int|
                    0 <= t < refinement@.len() ==> aligned_with(#[trigger] refinement@[t], aseq)
                        && aligned_with(refinement@[t], bseq),
                match lhs_remnant {
                    Option::Some(rem) => input_cut(aseq, bseq, rem.spec_start()),
                    Option::None => true,
                },
                forall|t: int|
                    0 <= t < refinement@.len() ==> input_cut(
                        aseq,
                        bseq,
                        (#[trigger] refinement@[t]).spec_start(),
                    ),
            decreases na - i,
        {
            let piece = match lhs_remnant {
                Option::Some(rem) => rem,
                Option::None => self.partitions[i],
            };
            let ghost old_out = refinement@;
            let ghost old_i = i as int;
            let ghost old_lrem = lhs_remnant;
            refinement.push(piece);
            i = i + 1;
            lhs_remnant = Option::None;
            proof {
                lemma_covers_push(old_out, piece, refinement@);
                assert(aseq.subrange(0, i as int) =~= aseq.subrange(0, old_i).push(aseq[old_i]));
                lemma_covers_push(
                    aseq.subrange(0, old_i),
                    aseq[old_i],
                    aseq.subrange(0, i as int),
                );
                assert(bseq.subrange(0, j as int) =~= bseq);
                assert forall|x: int| piece.spec_contains(x) implies !seq_covers(bseq, x) by {
                    if seq_covers(bseq, x) {
                        assert(seq_covers(bseq.subrange(0, j as int), x));
                        assert(x < sweep_start(old_lrem, aseq, old_i));
                    }
                }
                assert(aligned_with(piece, aseq)) by {
                    assert(aseq[old_i].spec_start() <= piece.spec_start() && piece.spec_end()
                        <= aseq[old_i].spec_end());
                }
                assert(aligned_with(piece, bseq));
                assert(input_cut(aseq, bseq, piece.spec_start())) by {
                    if old_lrem.is_none() {
                        reveal(input_cut);
                        assert(aseq[old_i].spec_start() == piece.spec_start());
                    }
                }
                if i < na {
                    assert(aseq[old_i].spec_end() < aseq[i as int].spec_start());
                }
                assert forall|x: int| #![trigger seq_covers(refinement@, x)]
                    seq_covers(refinement@, x) <==> ((seq_covers(aseq, x) || seq_covers(bseq, x))
                        && (i < na ==> x < sweep_start(lhs_remnant, aseq, i as int)) && (j < nb
                        ==> x < sweep_start(rhs_remnant, bseq, j as int))) by {
                    if seq_covers(refinement@, x) && !seq_covers(old_out, x) {
                        assert(piece.spec_contains(x));
                        assert(aseq[old_i].spec_contains(x));
                        assert(seq_covers(aseq, x));
                    }
                    if (seq_covers(aseq, x) || seq_covers(bseq, x)) && (i < na ==> x < sweep_start(
                        lhs_remnant,
                        aseq,
                        i as int,
                    )) && !seq_covers(old_out, x) && !piece.spec_contains(x) {
                        if seq_covers(aseq, x) {
                            let t = choose|t: int| 0 <= t < aseq.len() && aseq[t].spec_contains(x);
                            if t < old_i {
                                assert(aseq.subrange(0, old_i)[t].spec_contains(x));
                                assert(seq_covers(aseq.subrange(0, old_i), x));
                                assert(x < sweep_start(old_lrem, aseq, old_i));
                            } else if t == old_i {
                                assert(x < sweep_start(old_lrem, aseq, old_i));
                            } else {
                                assert(i < na);
                                assert(x >= aseq[t].spec_start());
                                if t > i as int {
                                    assert(aseq[i as int].spec_end() < aseq[t].spec_start());
                                }
                                assert(false);
                            }
                        } else {
                            assert(seq_covers(bseq.subrange(0, j as int), x));
                            assert(x < sweep_start(old_lrem, aseq, old_i));
                        }
                        assert(seq_covers(old_out, x));
                        assert(false);
                    }
                }
            }
        }
        while j < nb
            invariant
                aseq == self.partitions@,
                bseq == other.partitions@,
                is_partition_seq(aseq),
                is_partition_seq(bseq),
                na == aseq.len(),
                nb == bseq.len(),
                i <= na,
                j <= nb,
                j < nb ==> i == na,
                match rhs_remnant {
                    Option::Some(rem) => j < nb && !rem.spec_is_empty() && rem.spec_end() == bseq[
                        j as int].spec_end() && bseq[j as int].spec_start() <= rem.spec_start(),
                    Option::None => true,
                },
                is_partition_seq(refinement@),
                forall|x: int| #![trigger seq_covers(refinement@, x)]
                    seq_covers(refinement@, x) <==> ((seq_covers(aseq, x) || seq_covers(bseq, x))
                        && (j < nb ==> x < sweep_start(rhs_remnant, bseq, j as int))),
                forall|t: int|
                    0 <= t < refinement@.len() ==> (j < nb ==> (
                    #[trigger] refinement@[t]).spec_end() < sweep_start(rhs_remnant, bseq, j as int)),
                forall|x: int| #![trigger seq_covers(aseq.subrange(0, i as int), x)]
                    seq_covers(aseq.subrange(0, i as int), x) ==> (j < nb ==> x < sweep_start(
                        rhs_remnant,
                        bseq,
                        j as int,
                    )),
                forall|x: int| #![trigger seq_covers(bseq.subrange(0, j as int), x)]
                    seq_covers(bseq.subrange(0, j as int), x) ==> (j < nb ==> x < sweep_start(
                        rhs_remnant,
                        bseq,
                        j as int,
                    )),
                forall|t: int|
                    0 <= t < refinement@.len() ==> aligned_with(#[trigger] refinement@[t], aseq)
                        && aligned_with(refinement@[t], bseq),
                match rhs_remnant {
                    Option::Some(rem) => input_cut(aseq, bseq, rem.spec_start()),
                    Option::None => true,
                },
                forall|t: int|
                    0 <= t < refinement@.len() ==> input_cut(
                        aseq,
                        bseq,
                        (#[trigger] refinement@[t]).spec_start(),
                    ),
            decreases nb - j,
        {
            let piece = match rhs_remnant {
                Option::Some(rem) => rem,
                Option::None => other.partitions[j],
            };
            let ghost old_out = refinement@;
            let ghost old_j = j as int;
            let ghost old_rrem = rhs_remnant;
            refinement.push(piece);
            j = j + 1;
            rhs_remnant = Option::None;
            proof {
                lemma_covers_push(old_out, piece, refinement@);
                assert(bseq.subrange(0, j as int) =~= bseq.subrange(0, old_j).push(bseq[old_j]));
                lemma_covers_push(
                    bseq.subrange(0, old_j),
                    bseq[old_j],
                    bseq.subrange(0, j as int),
                );
                assert(aseq.subrange(0, i as int) =~= aseq);
                assert forall|x: int| piece.spec_contains(x) implies !seq_covers(aseq, x) by {
                    if seq_covers(aseq, x) {
                        assert(seq_covers(aseq.subrange(0, i as int), x));
                        assert(x < sweep_start(old_rrem, bseq, old_j));
                    }
                }
                assert(aligned_with(piece, bseq)) by {
                    assert(bseq[old_j].spec_start() <= piece.spec_start() && piece.spec_end()
                        <= bseq[old_j].spec_end());
                }
                assert(aligned_with(piece, aseq));
                assert(input_cut(aseq, bseq, piece.spec_start())) by {
                    if old_rrem.is_none() {
                        reveal(input_cut);
                        assert(bseq[old_j].spec_start() == piece.spec_start());
                    }
                }
                if j < nb {
                    assert(bseq[old_j].spec_end() < bseq[j as int].spec_start());
                }
                assert forall|x: int| #![trigger seq_covers(refinement@, x)]
                    seq_covers(refinement@, x) <==> ((seq_covers(aseq, x) || seq_covers(bseq, x))
                        && (j < nb ==> x < sweep_start(rhs_remnant, bseq, j as int))) by {
                    if seq_covers(refinement@, x) && !seq_covers(old_out, x) {
                        assert(piece.spec_contains(x));
                        assert(bseq[old_j].spec_contains(x));
                        assert(seq_covers(bseq, x));
                    }
                    if (seq_covers(aseq, x) || seq_covers(bseq, x)) && (j < nb ==> x < sweep_start(
                        rhs_remnant,
                        bseq,
                        j as int,
                    )) && !seq_covers(old_out, x) && !piece.spec_contains(x) {
                        if seq_covers(bseq, x) {
                            let t = choose|t: int| 0 <= t < bseq.len() && bseq[t].spec_contains(x);
                            if t < old_j {
                                assert(bseq.subrange(0, old_j)[t].spec_contains(x));
                                assert(seq_covers(bseq.subrange(0, old_j), x));
                                assert(x < sweep_start(old_rrem, bseq, old_j));
                            } else if t == old_j {
                                assert(x < sweep_start(old_rrem, bseq, old_j));
                            } else {
                                assert(j < nb);
                                assert(x >= bseq[t].spec_start());
                                if t > j as int {
                                    assert(bseq[j as int].spec_end() < bseq[t].spec_start());
                                }
                                assert(false);
                            }
                        } else {
                            assert(seq_covers(aseq.subrange(0, i as int), x));
                            assert(x < sweep_start(old_rrem, bseq, old_j));
                        }
                        assert(seq_covers(old_out, x));
                        assert(false);
                    }
                }
            }
        }
        OrderedIntervalPartitions { partitions: refinement }
    }
}

impl Refineable<Vec<ContiguousIntegerSet>> for ContiguousIntegerSet {
    open spec fn refinement_req(&self, other: &Self) -> bool {
        true
    }

    open spec fn refinement_post(&self, other: &Self, r: Vec<ContiguousIntegerSet>) -> bool {
        &&& is_partition_seq(r@)
        &&& forall|x: int| #![trigger seq_covers(r@, x)]
            seq_covers(r@, x) <==> (self.spec_contains(x) || other.spec_contains(x))
        &&& forall|t: int|
            0 <= t < r@.len() ==> ((#[trigger] r@[t]).spec_start() >= self.spec_start()
                && r@[t].spec_end() <= self.spec_end()) || (forall|x: int|
                r@[t].spec_contains(x) ==> !self.spec_contains(x))
        &&& forall|t: int|
            0 <= t < r@.len() ==> ((#[trigger] r@[t]).spec_start() >= other.spec_start()
                && r@[t].spec_end() <= other.spec_end()) || (forall|x: int|
                r@[t].spec_contains(x) ==> !other.spec_contains(x))
        &&& forall|t: int|
            0 <= t < r@.len() ==> ((#[trigger] r@[t]).spec_start() == self.spec_start() || r@[
                t].spec_start() == other.spec_start() || r@[t].spec_start() == self.spec_end() + 1
                || r@[t].spec_start() == other.spec_end() + 1)
        &&& r@.len() <= 4
    }

    /// The common refinement of two single intervals: the non-overlapping
    /// remainders and the intersection, in ascending order.
    fn get_common_refinement(&self, other: &Self) -> (r: Vec<ContiguousIntegerSet>) {
        let mut left: Vec<ContiguousIntegerSet> = Vec::new();
        if self.start <= self.end {
            left.push(*self);
        }
        let mut right: Vec<ContiguousIntegerSet> = Vec::new();
        if other.start <= other.end {
            right.push(*other);
        }
        let p = OrderedIntervalPartitions { partitions: left };
        let q = OrderedIntervalPartitions { partitions: right };
        let refined = p.get_common_refinement(&q);
        proof {
            assert forall|x: int| #![trigger seq_covers(refined.partitions@, x)]
                seq_covers(refined.partitions@, x) <==> (self.spec_contains(x)
                    || other.spec_contains(x)) by {
                if self.spec_contains(x) {
                    assert(p.partitions@[0].spec_contains(x));
                    assert(seq_covers(p.partitions@, x));
                }
                if other.spec_contains(x) {
                    assert(q.partitions@[0].spec_contains(x));
                    assert(seq_covers(q.partitions@, x));
                }
                if seq_covers(p.partitions@, x) {
                    assert(self.spec_contains(x));
                }
                if seq_covers(q.partitions@, x) {
                    assert(other.spec_contains(x));
                }
            }
            assert forall|t: int| 0 <= t < refined.partitions@.len() implies ((
            #[trigger] refined.partitions@[t]).spec_start() >= self.spec_start()
                && refined.partitions@[t].spec_end() <= self.spec_end()) || (forall|x: int|
                refined.partitions@[t].spec_contains(x) ==> !self.spec_contains(x)) by {
                let f = refined.partitions@[t];
                if exists|k: int|
                    0 <= k < p.partitions@.len() && (#[trigger] p.partitions@[k]).spec_start()
                        <= f.spec_start() && f.spec_end() <= p.partitions@[k].spec_end() {
                } else {
                    assert forall|x: int| f.spec_contains(x) implies !self.spec_contains(x) by {
                        if self.spec_contains(x) {
                            assert(p.partitions@[0].spec_contains(x));
                            assert(seq_covers(p.partitions@, x));
                        }
                    }
                }
            }
            assert forall|t: int| 0 <= t < refined.partitions@.len() implies ((
            #[trigger] refined.partitions@[t]).spec_start() >= other.spec_start()
                && refined.partitions@[t].spec_end() <= other.spec_end()) || (forall|x: int|
                refined.partitions@[t].spec_contains(x) ==> !other.spec_contains(x)) by {
                let f = refined.partitions@[t];
                if exists|k: int|
                    0 <= k < q.partitions@.len() && (#[trigger] q.partitions@[k]).spec_start()
                        <= f.spec_start() && f.spec_end() <= q.partitions@[k].spec_end() {
                } else {
                    assert forall|x: int| f.spec_contains(x) implies !other.spec_contains(x) by {
                        if other.spec_contains(x) {
                            assert(q.partitions@[0].spec_contains(x));
                            assert(seq_covers(q.partitions@, x));
                        }
                    }
                }
            }
            let ghost rs = refined.partitions@;
            assert(p.partitions@.len() <= 1);
            assert(p.partitions@.len() == 1 ==> p.partitions@[0] == *self);
            assert(q.partitions@.len() <= 1);
            assert(q.partitions@.len() == 1 ==> q.partitions@[0] == *other);
            // each fragment starts at one of the four input boundaries
            assert forall|t: int| 0 <= t < rs.len() implies ((#[trigger] rs[t]).spec_start()
                == self.spec_start() || rs[t].spec_start() == other.spec_start() || rs[
                t].spec_start() == self.spec_end() + 1 || rs[t].spec_start() == other.spec_end()
                + 1) by {
                assert(input_cut(p.partitions@, q.partitions@, rs[t].spec_start()));
                reveal(input_cut);
            }
            // five ascending starts cannot all come from four boundary values
            assert(rs.len() <= 4) by {
                if rs.len() > 4 {
                    assert(rs[0].spec_start() <= rs[0].spec_end());
                    assert(rs[1].spec_start() <= rs[1].spec_end());
                    assert(rs[2].spec_start() <= rs[2].spec_end());
                    assert(rs[3].spec_start() <= rs[3].spec_end());
                    assert(rs[0].spec_end() < rs[1].spec_start());
                    assert(rs[1].spec_end() < rs[2].spec_start());
                    assert(rs[2].spec_end() < rs[3].spec_start());
                    assert(rs[3].spec_end() < rs[4].spec_start());
                    assert(false);
                }
            }
        }
        refined.into_vec()
    }
}

impl SubsetIndexable<ContiguousIntegerSet, ContiguousIntegerSet> for OrderedIntervalPartitions {
    open spec fn get_set_containing_req(&self, subset: ContiguousIntegerSet) -> bool {
        is_partition_seq(self.partitions@)
    }

    open spec fn get_set_containing_post(
        &self,
        subset: ContiguousIntegerSet,
        r: Option<ContiguousIntegerSet>,
    ) -> bool {
        match r {
            Option::Some(p) => subset.spec_subset_of(p) && self.partitions@.contains(p),
            Option::None => forall|i: int|
                0 <= i < self.partitions@.len() ==> !subset.spec_subset_of(
                    #[trigger] self.partitions@[i],
                ),
        }
    }

    fn get_set_containing(&self, subset: &ContiguousIntegerSet) -> (r: Option<
        ContiguousIntegerSet,
    >) {
        match self.get_partition_containing(subset) {
            Option::None => Option::None,
            Option::Some(s) => {
                proof {
                    assert(self.partitions@.contains(self.partitions@[s.0 as int]));
                }
                Option::Some(s.1)
            },
        }
    }
}

} // verus!
