//! Binning a disjoint-interval stream into fixed-size, zero-anchored bins.
//! Only bins with non-empty intersections with the stream's intervals are
//! returned.

use crate::partition::integer_interval_map::entries_wf;
use crate::set::contiguous_integer_set::ContiguousIntegerSet;
use vstd::prelude::*;
use vstd::string::StringExecFns;

verus! {

#[derive(Copy, Clone, Eq, PartialEq, Structural, Debug)]
pub enum AggregateOp {
    Max,
    Min,
    Sum,
}

/// Largest magnitude allowed for the stream's values, its length, and the
/// bin size: 2^20. A bin's folded value sums at most one term per stream
/// entry, each a value times an overlap no wider than the bin, so its
/// magnitude stays below 2^20 * 2^20 * 2^20 = 2^60, safely within `i64`.
pub const BIN_VALUE_LIMIT: i64 = 0x10_0000;

/// Largest magnitude allowed for the stream's interval boundaries: 2^46.
/// A bin starts at the bin-size multiple at or below a stream boundary and
/// is at most `BIN_VALUE_LIMIT` integers wide, so every coordinate the
/// binning computes stays below 2^46 + 2^20, safely within `i64`.
pub const BIN_COORD_LIMIT: i64 = 0x4000_0000_0000;

/// The number of integers shared by two closed intervals.
pub open spec fn overlap_len(a: ContiguousIntegerSet, b: ContiguousIntegerSet) -> int {
    let lo = if a.spec_start() >= b.spec_start() {
        a.spec_start()
    } else {
        b.spec_start()
    };
    let hi = if a.spec_end() <= b.spec_end() {
        a.spec_end()
    } else {
        b.spec_end()
    };
    if lo <= hi {
        hi - lo + 1
    } else {
        0
    }
}

/// The contribution of one `(interval, value)` pair to a bin: the raw value
/// for `Max`/`Min`, and the value weighted by the overlap length for `Sum`.
pub open spec fn bin_contrib(p: (ContiguousIntegerSet, i64), bin: ContiguousIntegerSet, op: AggregateOp) -> int {
    match op {
        AggregateOp::Sum => (p.1 as int) * overlap_len(bin, p.0),
        _ => p.1 as int,
    }
}

/// Left fold of the contributions of a non-empty pair sequence into a bin's
/// aggregate.
pub open spec fn bin_agg(
    pairs: Seq<(ContiguousIntegerSet, i64)>,
    bin: ContiguousIntegerSet,
    op: AggregateOp,
) -> int
    decreases pairs.len(),
{
    if pairs.len() <= 1 {
        bin_contrib(pairs[0], bin, op)
    } else {
        let prev = bin_agg(pairs.drop_last(), bin, op);
        let c = bin_contrib(pairs.last(), bin, op);
        match op {
            AggregateOp::Sum => prev + c,
            AggregateOp::Max => if c > prev {
                c
            } else {
                prev
            },
            AggregateOp::Min => if c < prev {
                c
            } else {
                prev
            },
        }
    }
}

/// The machine-size bounds under which the binned aggregation cannot
/// overflow.
pub open spec fn binnable(s: Seq<(ContiguousIntegerSet, i64)>, bin_size: i64) -> bool {
    &&& 1 <= bin_size <= BIN_VALUE_LIMIT
    &&& s.len() <= BIN_VALUE_LIMIT
    &&& forall|i: int|
        0 <= i < s.len() ==> -BIN_VALUE_LIMIT <= (#[trigger] s[i]).1 <= BIN_VALUE_LIMIT
    &&& forall|i: int|
        0 <= i < s.len() ==> -BIN_COORD_LIMIT <= (#[trigger] s[i]).0.spec_start()
            && s[i].0.spec_end() <= BIN_COORD_LIMIT
}

/// With imaginary bins of size `bin_size` aligned at 0, yields a value for
/// each bin that intersects one or more intervals from the source stream,
/// obtained by folding the values of all the overlapping intervals with the
/// chosen operation.
pub struct BinnedIntervalIter {
    pub source: Vec<(ContiguousIntegerSet, i64)>,
    pub cursor: usize,
    pub current: Option<(ContiguousIntegerSet, i64)>,
    pub bin_size: i64,
    pub aggregate_op: AggregateOp,
    pub current_bin: Option<ContiguousIntegerSet>,
}

impl BinnedIntervalIter {
    /// The structural invariant, except for the relation between the current
    /// interval and the previous bin (which is momentarily broken while a
    /// step is folding values).
    pub open spec fn wf_base(self) -> bool {
        &&& entries_wf(self.source@)
        &&& binnable(self.source@, self.bin_size)
        &&& self.cursor <= self.source@.len()
        &&& match self.current {
            Option::Some(p) => self.cursor >= 1 && p == self.source@[self.cursor - 1],
            Option::None => self.cursor == self.source@.len(),
        }
        &&& match self.current_bin {
            Option::Some(b) => b.spec_end() == b.spec_start() + self.bin_size - 1 && b.spec_start()
                % (self.bin_size as int) == 0 && -(BIN_COORD_LIMIT as int) - BIN_VALUE_LIMIT
                <= b.spec_start() && b.spec_end() <= BIN_COORD_LIMIT + BIN_VALUE_LIMIT,
            Option::None => true,
        }
    }

    pub open spec fn well_formed(self) -> bool {
        &&& self.wf_base()
        &&& match (self.current, self.current_bin) {
            (Option::Some(p), Option::Some(b)) => p.0.spec_end() > b.spec_end(),
            _ => true,
        }
    }

    pub fn new(source: Vec<(ContiguousIntegerSet, i64)>, bin_size: i64, aggregate_op: AggregateOp)
        -> (r: Self)
        requires
            entries_wf(source@),
            binnable(source@, bin_size),
        ensures
            r.well_formed(),
            r.source@ == source@,
            r.bin_size == bin_size,
            r.aggregate_op == aggregate_op,
            r.current_bin.is_none(),
            r.current == (if source@.len() > 0 {
                Option::Some(source@[0])
            } else {
                Option::<(ContiguousIntegerSet, i64)>::None
            }),
    {
        let (current, cursor) = if source.len() > 0 {
            (Option::Some(source[0]), 1usize)
        } else {
            (Option::None, 0usize)
        };
        BinnedIntervalIter {
            source,
            cursor,
            current,
            bin_size,
            aggregate_op,
            current_bin: Option::None,
        }
    }

    /// Validates the bin width before construction: a bin must hold at
    /// least one integer, so a `bin_size` below 1 is reported as an error
    /// rather than taken.
    pub fn checked_new(
        source: Vec<(ContiguousIntegerSet, i64)>,
        bin_size: i64,
        aggregate_op: AggregateOp,
    ) -> (r: Result<Self, String>)
        requires
            entries_wf(source@),
            bin_size <= BIN_VALUE_LIMIT,
            source@.len() <= BIN_VALUE_LIMIT,
            forall|i: int|
                0 <= i < source@.len() ==> -BIN_VALUE_LIMIT <= (#[trigger] source@[i]).1
                    <= BIN_VALUE_LIMIT,
            forall|i: int|
                0 <= i < source@.len() ==> -BIN_COORD_LIMIT <= (#[trigger] source@[
                    i]).0.spec_start() && source@[i].0.spec_end() <= BIN_COORD_LIMIT,
        ensures
            match r {
                Result::Ok(it) => bin_size >= 1 && it.well_formed() && it.source@ == source@
                    && it.bin_size == bin_size && it.aggregate_op == aggregate_op
                    && it.current_bin.is_none() && it.current == (if source@.len() > 0 {
                    Option::Some(source@[0])
                } else {
                    Option::<(ContiguousIntegerSet, i64)>::None
                }),
                Result::Err(msg) => bin_size < 1 && msg@ == "bin_size must be at least 1"@,
            },
    {
        if bin_size < 1 {
            Result::Err(String::from_str("bin_size must be at least 1"))
        } else {
            Result::Ok(BinnedIntervalIter::new(source, bin_size, aggregate_op))
        }
    }

    /// One step of the binned aggregation: picks the next bin that overlaps
    /// the unconsumed remainder of the stream, folds into it the values of
    /// every source interval that starts within the bin, and carries the
    /// last interval forward when it extends past the bin's end.
    #[verifier::rlimit(50)]
    pub fn next(&mut self) -> (r: Option<(ContiguousIntegerSet, i64)>)
        requires
            old(self).well_formed(),
        ensures
            final(self).well_formed(),
            final(self).source@ == old(self).source@,
            final(self).bin_size == old(self).bin_size,
            final(self).aggregate_op == old(self).aggregate_op,
            r.is_none() ==> *final(self) == *old(self) && old(self).current.is_none(),
            r.is_some() ==> old(self).current.is_some(),
            r.is_some() ==> final(self).current_bin == Option::Some(r.unwrap().0),
            r.is_some() ==> r.unwrap().0.spec_end() == r.unwrap().0.spec_start() + old(
                self,
            ).bin_size - 1,
            r.is_some() ==> r.unwrap().0.spec_start() % (old(self).bin_size as int) == 0,
            r.is_some() ==> (match old(self).current_bin {
                Option::Some(ob) => if ob.spec_end() < old(self).current.unwrap().0.spec_start() {
                    r.unwrap().0.spec_start() <= old(self).current.unwrap().0.spec_start()
                        <= r.unwrap().0.spec_end()
                } else {
                    r.unwrap().0.spec_start() == ob.spec_end() + 1
                },
                Option::None => r.unwrap().0.spec_start() <= old(
                    self,
                ).current.unwrap().0.spec_start() <= r.unwrap().0.spec_end(),
            }),
            r.is_some() ==> binned_step_ok(
                old(self).source@,
                old(self).cursor as int,
                old(self).current.unwrap(),
                r.unwrap().0,
                old(self).aggregate_op,
                r.unwrap().1,
                (match final(self).current {
                    Option::Some(c) => if c.0.spec_start() > r.unwrap().0.spec_end() {
                        final(self).cursor - 1
                    } else {
                        final(self).cursor as int
                    },
                    Option::None => final(self).cursor as int,
                }),
                final(self).cursor as int,
                final(self).current,
            ),
    {
        let (itv, v) = match self.current {
            Option::None => {
                return Option::None;
            },
            Option::Some(p) => p,
        };
        let bs = self.bin_size;
        // the start of the bin: either the first bin overlapping the current
        // interval, or the bin immediately following the previous one when
        // that one already reaches into the interval
        let bin_start: i64 = match self.current_bin {
            Option::None => bin_floor(itv.start, bs),
            Option::Some(ob) => if ob.end < itv.start {
                bin_floor(itv.start, bs)
            } else {
                ob.end + 1
            },
        };
        proof {
            assert(old(self).source@[old(self).cursor - 1] == (itv, v));
            assert(-BIN_COORD_LIMIT <= itv.spec_start() && itv.spec_end() <= BIN_COORD_LIMIT);
            match old(self).current_bin {
                Option::Some(ob) => {
                    if !(ob.spec_end() < itv.spec_start()) {
                        // the next bin follows the previous one, which the
                        // current interval is known to outreach
                        assert(itv.spec_end() > ob.spec_end());
                        assert((bin_start as int) % (bs as int) == 0) by {
                            vstd::arithmetic::div_mod::lemma_mod_add_multiples_vanish(
                                ob.spec_start(),
                                bs as int,
                            );
                        }
                    }
                },
                Option::None => {},
            }
        }
        let bin_end = bin_start + bs - 1;
        let bin = ContiguousIntegerSet::new(bin_start, bin_end);
        self.current_bin = Option::Some(bin);
        let ghost src = self.source@;
        let ghost op = self.aggregate_op;
        let ghost start_cursor = self.cursor as int;
        proof {
            assert(0 <= overlap_len(bin, itv) <= bs);
            assert(-0x100_0000_0000 <= (v as int) * overlap_len(bin, itv)
                <= 0x100_0000_0000) by (nonlinear_arith)
                requires
                    -0x10_0000 <= v <= 0x10_0000,
                    0 <= overlap_len(bin, itv) <= 0x10_0000,
            ;
            assert(overlap_len(itv, bin) == overlap_len(bin, itv));
        }
        let mut agg: i64 = match self.aggregate_op {
            AggregateOp::Sum => v * overlap_length(itv, bin),
            _ => v,
        };
        let ghost mut folded: Seq<(ContiguousIntegerSet, i64)> = seq![(itv, v)];
        let mut cur_itv = itv;
        let mut cur_v = v;
        proof {
            assert(folded =~= seq![(itv, v)] + src.subrange(start_cursor, start_cursor));
        }
        loop
            invariant
                self.wf_base(),
                self.source@ == src,
                self.bin_size == bs,
                self.aggregate_op == op,
                self.current_bin == Option::Some(bin),
                bin.spec_start() == bin_start,
                bin.spec_end() == bin_end,
                bin.spec_end() == bin.spec_start() + bs - 1,
                src == old(self).source@,
                bs == old(self).bin_size,
                op == old(self).aggregate_op,
                start_cursor == old(self).cursor as int,
                old(self).current == Option::Some((itv, v)),
                (match old(self).current_bin {
                    Option::Some(ob) => if ob.spec_end() < itv.spec_start() {
                        bin.spec_start() <= itv.spec_start() <= bin.spec_end()
                    } else {
                        bin.spec_start() == ob.spec_end() + 1
                    },
                    Option::None => bin.spec_start() <= itv.spec_start() <= bin.spec_end(),
                }),
                self.current == Option::Some((cur_itv, cur_v)),
                1 <= self.cursor,
                start_cursor <= self.cursor as int <= src.len(),
                folded =~= seq![(itv, v)] + src.subrange(start_cursor, self.cursor as int),
                folded.len() == 1 + self.cursor as int - start_cursor,
                (cur_itv, cur_v) == folded.last(),
                agg == bin_agg(folded, bin, op),
                -(folded.len() as int) * 0x100_0000_0000 <= agg as int <= (folded.len() as int)
                    * 0x100_0000_0000,
                forall|u: int|
                    start_cursor <= u < self.cursor as int ==> (#[trigger] src[u]).0.spec_start()
                        <= bin.spec_end(),
                folded.len() > 1 ==> itv.spec_end() <= bin.spec_end(),
            decreases src.len() - self.cursor,
        {
            if cur_itv.end <= bin_end {
                // the interval is contained in the bin: get the next one
                let c = self.cursor;
                if c < self.source.len() {
                    let nxt = self.source[c];
                    if nxt.0.start > bin_end {
                        // the next interval lies beyond this bin: it becomes
                        // the current interval for the next step
                        proof {
                            assert(src[c as int] == nxt);
                            assert(src[c - 1] == (cur_itv, cur_v));
                        }
                        self.cursor = c + 1;
                        self.current = Option::Some(nxt);
                        proof {
                            assert(seq![(itv, v)] + src.subrange(start_cursor, c as int)
                                =~= folded);
                            assert(agg == bin_agg(
                                seq![(itv, v)] + src.subrange(start_cursor, c as int),
                                bin,
                                op,
                            ));
                            assert(start_cursor <= c as int <= src.len());
                            assert(forall|u: int|
                                start_cursor <= u < c as int ==> (#[trigger] src[
                                    u]).0.spec_start() <= bin.spec_end());
                            assert(!(itv.spec_end() > bin.spec_end()));
                            if c as int > start_cursor {
                                assert(!(src[c - 1].0.spec_end() > bin.spec_end()));
                            }
                            assert(src[c as int].0.spec_start() > bin.spec_end());
                            assert(self.cursor as int == c as int + 1);
                            assert(self.current == Option::Some(src[c as int]));
                            assert(!src[c as int].0.spec_is_empty());
                            assert(binned_step_ok(
                                src,
                                start_cursor,
                                (itv, v),
                                bin,
                                op,
                                agg,
                                c as int,
                                self.cursor as int,
                                self.current,
                            ));
                            assert(binned_step_ok(
                                old(self).source@,
                                old(self).cursor as int,
                                old(self).current.unwrap(),
                                bin,
                                old(self).aggregate_op,
                                agg,
                                c as int,
                                self.cursor as int,
                                self.current,
                            ));
                            assert(self.well_formed());
                        }
                        return Option::Some((bin, agg));
                    }
                    // fold the next interval's value into the bin
                    self.cursor = c + 1;
                    self.current = Option::Some(nxt);
                    let ghost prev_folded = folded;
                    proof {
                        folded = folded.push(nxt);
                        assert(folded.drop_last() =~= prev_folded);
                        assert(folded =~= seq![(itv, v)] + src.subrange(
                            start_cursor,
                            self.cursor as int,
                        ));
                        assert(-0x10_0000 <= nxt.1 <= 0x10_0000);
                        assert(0 <= overlap_len(bin, nxt.0) <= bs) by {
                            assert(bin.spec_end() - bin.spec_start() + 1 == bs);
                        }
                        assert(-0x100_0000_0000 <= bin_contrib(nxt, bin, op)
                            <= 0x100_0000_0000) by {
                            assert((nxt.1 as int) * overlap_len(bin, nxt.0)
                                <= 0x10_0000 * 0x10_0000) by (nonlinear_arith)
                                requires
                                    -0x10_0000 <= nxt.1 <= 0x10_0000,
                                    0 <= overlap_len(bin, nxt.0) <= 0x10_0000,
                            ;
                            assert((nxt.1 as int) * overlap_len(bin, nxt.0) >= -(
                            0x10_0000 * 0x10_0000)) by (nonlinear_arith)
                                requires
                                    -0x10_0000 <= nxt.1 <= 0x10_0000,
                                    0 <= overlap_len(bin, nxt.0) <= 0x10_0000,
                            ;
                        }
                    }
                    match self.aggregate_op {
                        AggregateOp::Sum => {
                            let weighted = nxt.1 * overlap_length(nxt.0, bin);
                            proof {
                                assert(overlap_len(nxt.0, bin) == overlap_len(bin, nxt.0));
                            }
                            agg = agg + weighted;
                        },
                        AggregateOp::Max => {
                            if nxt.1 > agg {
                                agg = nxt.1;
                            }
                        },
                        AggregateOp::Min => {
                            if nxt.1 < agg {
                                agg = nxt.1;
                            }
                        },
                    }
                    cur_itv = nxt.0;
                    cur_v = nxt.1;
                } else {
                    proof {
                        if self.cursor as int > start_cursor {
                            assert(src[self.cursor - 1] == (cur_itv, cur_v));
                        }
                    }
                    self.current = Option::None;
                    proof {
                        let p = self.cursor as int;
                        assert(seq![(itv, v)] + src.subrange(start_cursor, p) =~= folded);
                        assert(agg == bin_agg(
                            seq![(itv, v)] + src.subrange(start_cursor, p),
                            bin,
                            op,
                        ));
                        assert(binned_step_ok(
                            src,
                            start_cursor,
                            (itv, v),
                            bin,
                            op,
                            agg,
                            p,
                            self.cursor as int,
                            self.current,
                        ));
                    }
                    return Option::Some((bin, agg));
                }
            } else {
                // the interval extends past the bin: emit the bin and carry
                // the interval forward
                proof {
                    let p = self.cursor as int;
                    assert(seq![(itv, v)] + src.subrange(start_cursor, p) =~= folded);
                    assert(agg == bin_agg(
                        seq![(itv, v)] + src.subrange(start_cursor, p),
                        bin,
                        op,
                    ));
                    if p > start_cursor {
                        assert(src[p - 1] == (cur_itv, cur_v));
                    } else {
                        assert(folded.len() == 1);
                        assert((cur_itv, cur_v) == (itv, v));
                    }
                    assert(binned_step_ok(
                        src,
                        start_cursor,
                        (itv, v),
                        bin,
                        op,
                        agg,
                        p,
                        self.cursor as int,
                        self.current,
                    ));
                    assert(binned_step_ok(
                        old(self).source@,
                        old(self).cursor as int,
                        old(self).current.unwrap(),
                        bin,
                        old(self).aggregate_op,
                        agg,
                        p,
                        self.cursor as int,
                        self.current,
                    ));
                    assert(self.well_formed());
                }
                return Option::Some((bin, agg));
            }
        }
    }
}

/// How one binned-aggregation step relates to the source stream: `p` marks
/// the end of the pairs folded into the emitted bin, which are the current
/// pair followed by `source[old_cursor..p]`.
pub open spec fn binned_step_ok(
    source: Seq<(ContiguousIntegerSet, i64)>,
    old_cursor: int,
    old_current: (ContiguousIntegerSet, i64),
    bin: ContiguousIntegerSet,
    op: AggregateOp,
    agg: i64,
    p: int,
    new_cursor: int,
    new_current: Option<(ContiguousIntegerSet, i64)>,
) -> bool {
    let folded = seq![old_current] + source.subrange(old_cursor, p);
    &&& old_cursor <= p <= source.len()
    &&& (forall|u: int|
        old_cursor <= u < p ==> (#[trigger] source[u]).0.spec_start() <= bin.spec_end())
    &&& agg == bin_agg(folded, bin, op)
    &&& (if old_current.0.spec_end() > bin.spec_end() {
        p == old_cursor && new_cursor == old_cursor && new_current == Option::Some(old_current)
    } else if p > old_cursor && source[p - 1].0.spec_end() > bin.spec_end() {
        new_cursor == p && new_current == Option::Some(source[p - 1])
    } else if p < source.len() {
        source[p].0.spec_start() > bin.spec_end() && new_cursor == p + 1 && new_current
            == Option::Some(source[p])
    } else {
        new_cursor == p && new_current == Option::<(ContiguousIntegerSet, i64)>::None
    })
}

/// The number of integers shared by two closed intervals, executably.
fn overlap_length(a: ContiguousIntegerSet, b: ContiguousIntegerSet) -> (r: i64)
    requires
        -2 * BIN_COORD_LIMIT <= a.spec_start(),
        a.spec_end() <= 2 * BIN_COORD_LIMIT,
        -2 * BIN_COORD_LIMIT <= b.spec_start(),
        b.spec_end() <= 2 * BIN_COORD_LIMIT,
        a.spec_start() <= a.spec_end() || a.spec_start() <= 2 * BIN_COORD_LIMIT
            && a.spec_end() >= -2 * BIN_COORD_LIMIT,
        b.spec_start() <= b.spec_end() || b.spec_start() <= 2 * BIN_COORD_LIMIT
            && b.spec_end() >= -2 * BIN_COORD_LIMIT,
    ensures
        r == overlap_len(a, b),
{
    let lo = if a.start >= b.start {
        a.start
    } else {
        b.start
    };
    let hi = if a.end <= b.end {
        a.end
    } else {
        b.end
    };
    if lo <= hi {
        hi - lo + 1
    } else {
        0
    }
}

/// The largest multiple of `s` that is at most `x` (bins anchored at zero,
/// with negative coordinates rounding their boundary toward negative
/// infinity).
fn bin_floor(x: i64, s: i64) -> (r: i64)
    requires
        1 <= s <= BIN_VALUE_LIMIT,
        -BIN_COORD_LIMIT <= x <= BIN_COORD_LIMIT,
    ensures
        (r as int) % (s as int) == 0,
        r <= x < r + s,
{
    if x >= 0 {
        let q = (x as u64) / (s as u64);
        proof {
            vstd::arithmetic::div_mod::lemma_fundamental_div_mod(x as int, s as int);
            assert(q * (s as u64) <= x) by (nonlinear_arith)
                requires
                    q == x as int / s as int,
                    x as int == (s as int) * (x as int / s as int) + (x as int % s as int),
                    0 <= (x as int % s as int),
                    s >= 1,
            ;
        }
        let r = (q * (s as u64)) as i64;
        proof {
            vstd::arithmetic::div_mod::lemma_mod_multiples_basic(q as int, s as int);
            assert(r as int == (q as int) * (s as int));
            assert(r <= x < r + s) by (nonlinear_arith)
                requires
                    r as int == (x as int / s as int) * s as int,
                    x as int == (s as int) * (x as int / s as int) + (x as int % s as int),
                    0 <= (x as int % s as int),
                    (x as int % s as int) < s as int,
            ;
        }
        r
    } else {
        let m = (-x) as u64;
        let su = s as u64;
        let q = (m + su - 1) / su;
        proof {
            vstd::arithmetic::div_mod::lemma_fundamental_div_mod((m + su - 1) as int, su as int);
            assert(q * su <= m + su - 1) by (nonlinear_arith)
                requires
                    q == (m + su - 1) as int / su as int,
                    (m + su - 1) as int == (su as int) * ((m + su - 1) as int / su as int) + ((m
                        + su - 1) as int % su as int),
                    0 <= ((m + su - 1) as int % su as int),
                    su >= 1,
            ;
            assert(q * su >= m) by (nonlinear_arith)
                requires
                    q == (m + su - 1) as int / su as int,
                    (m + su - 1) as int == (su as int) * ((m + su - 1) as int / su as int) + ((m
                        + su - 1) as int % su as int),
                    ((m + su - 1) as int % su as int) < su as int,
                    su >= 1,
            ;
        }
        let prod = q * su;
        let r = -(prod as i64);
        proof {
            vstd::arithmetic::div_mod::lemma_mod_multiples_basic(-(q as int), s as int);
            assert(r as int == (-(q as int)) * (s as int)) by (nonlinear_arith)
                requires
                    r as int == -((q as int) * (su as int)),
                    s as int == su as int,
            ;
        }
        r
    }
}

} // verus!