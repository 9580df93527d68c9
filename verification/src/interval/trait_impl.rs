use crate::interval::traits::{Coalesce, CoalesceIntervals};
use crate::set::contiguous_integer_set::ContiguousIntegerSet;
use crate::set::ordered_integer_set::{
    is_canonical, lemma_covers_insert, lemma_covers_push, lemma_covers_update, seq_covers,
    seq_covers_except, sorted_by_start,
};
use vstd::prelude::*;

verus! {

/// Discards empty intervals and sorts the remaining ones by start.
fn sort_and_prune(v: &Vec<ContiguousIntegerSet>) -> (out: Vec<ContiguousIntegerSet>)
    ensures
        sorted_by_start(out@),
        forall|i: int| 0 <= i < out@.len() ==> !(#[trigger] out@[i]).spec_is_empty(),
        forall|x: int| seq_covers(out@, x) <==> seq_covers(v@, x),
{
    let n = v.len();
    let mut out: Vec<ContiguousIntegerSet> = Vec::new();
    for k in 0..n
        invariant
            n == v@.len(),
            sorted_by_start(out@),
            forall|i: int| 0 <= i < out@.len() ==> !(#[trigger] out@[i]).spec_is_empty(),
            forall|x: int| seq_covers(out@, x) <==> seq_covers(v@.subrange(0, k as int), x),
    {
        let el = v[k];
        let ghost prefix = v@.subrange(0, k as int);
        let ghost next_prefix = v@.subrange(0, k + 1 as int);
        proof {
            assert(next_prefix =~= prefix.push(el));
            lemma_covers_push(prefix, el, next_prefix);
        }
        if el.start <= el.end {
            // find the insertion position that keeps `out` sorted by start
            let mut pos = out.len();
            while pos > 0 && out[pos - 1].start > el.start
                invariant
                    pos <= out@.len(),
                    forall|i: int|
                        pos <= i < out@.len() ==> el.spec_start() < (
                        #[trigger] out@[i]).spec_start(),
                decreases pos,
            {
                pos = pos - 1;
            }
            let ghost old_out = out@;
            out.insert(pos, el);
            proof {
                lemma_covers_insert(old_out, pos as int, el, out@);
                assert forall|x: int|
                    seq_covers(out@, x) <==> seq_covers(next_prefix, x) by {}
                assert forall|i: int, j: int| 0 <= i < j < out@.len() implies out@[i].spec_start()
                    <= out@[j].spec_start() by {
                    if j < pos {
                        assert(old_out[i].spec_start() <= old_out[j].spec_start());
                    } else if i > pos {
                        assert(old_out[i - 1].spec_start() <= old_out[j - 1].spec_start());
                    } else if i < pos && j > pos {
                        assert(old_out[i].spec_start() <= old_out[j - 1].spec_start());
                    } else if j == pos {
                        // out[i] comes from old_out[i] with i < pos
                        assert(old_out[pos - 1].spec_start() <= el.spec_start());
                        assert(old_out[i].spec_start() <= old_out[pos - 1].spec_start());
                    } else {
                        // i == pos, j > pos: el starts no later than everything
                        // at or after the insertion point
                        assert(el.spec_start() < old_out[j - 1].spec_start());
                    }
                }
            }
        } else {
            proof {
                assert forall|x: int| !el.spec_contains(x) by {}
                assert forall|x: int|
                    seq_covers(out@, x) <==> seq_covers(next_prefix, x) by {}
            }
        }
    }
    proof {
        assert(v@.subrange(0, n as int) =~= v@);
    }
    out
}

/// Folds a sorted sequence of non-empty intervals into coalesced form.
fn merge_sorted(v: &Vec<ContiguousIntegerSet>) -> (out: Vec<ContiguousIntegerSet>)
    requires
        sorted_by_start(v@),
        forall|i: int| 0 <= i < v@.len() ==> !(#[trigger] v@[i]).spec_is_empty(),
    ensures
        is_canonical(out@),
        forall|x: int| seq_covers(out@, x) <==> seq_covers(v@, x),
{
    let n = v.len();
    let mut out: Vec<ContiguousIntegerSet> = Vec::new();
    for k in 0..n
        invariant
            n == v@.len(),
            sorted_by_start(v@),
            forall|i: int| 0 <= i < v@.len() ==> !(#[trigger] v@[i]).spec_is_empty(),
            is_canonical(out@),
            forall|x: int| seq_covers(out@, x) <==> seq_covers(v@.subrange(0, k as int), x),
            out@.len() > 0 ==> k > 0 && out@.last().spec_start() <= v@[k - 1].spec_start(),
            out@.len() == 0 ==> k == 0,
    {
        let el = v[k];
        let ghost prefix = v@.subrange(0, k as int);
        let ghost next_prefix = v@.subrange(0, k + 1 as int);
        proof {
            assert(next_prefix =~= prefix.push(el));
            lemma_covers_push(prefix, el, next_prefix);
        }
        let out_len = out.len();
        if out_len == 0 {
            let ghost old_out = out@;
            out.push(el);
            proof {
                lemma_covers_push(old_out, el, out@);
                assert forall|x: int|
                    seq_covers(out@, x) <==> seq_covers(next_prefix, x) by {}
            }
        } else {
            let last = out[out_len - 1];
            match last.coalesce_with(&el) {
                Option::Some(merged) => {
                    let ghost old_out = out@;
                    out.set(out_len - 1, merged);
                    proof {
                        lemma_covers_update(old_out, out_len - 1 as int, merged, out@);
                        // the merged interval keeps the old start, so the
                        // canonical gaps to the earlier intervals survive
                        assert(merged.spec_contains(merged.spec_start()));
                        assert(merged.spec_contains(last.spec_start()));
                        assert(merged.spec_start() == last.spec_start());
                        assert forall|x: int|
                            seq_covers(out@, x) <==> seq_covers(next_prefix, x) by {
                            if seq_covers_except(old_out, out_len - 1 as int, x) {
                                assert(seq_covers(old_out, x));
                            }
                            if seq_covers(old_out, x) {
                                let i = choose|i: int|
                                    0 <= i < old_out.len() && old_out[i].spec_contains(x);
                                if i == out_len - 1 {
                                    assert(merged.spec_contains(x));
                                } else {
                                    assert(seq_covers_except(old_out, out_len - 1 as int, x));
                                }
                            }
                        }
                    }
                },
                Option::None => {
                    // both intervals are non-empty here, and `el` starts no
                    // earlier than `last`, so the only way the merge can fail
                    // is a gap of at least one integer between them
                    let ghost old_out = out@;
                    out.push(el);
                    proof {
                        lemma_covers_push(old_out, el, out@);
                        assert forall|x: int|
                            seq_covers(out@, x) <==> seq_covers(next_prefix, x) by {}
                        assert(last.spec_start() <= el.spec_start());
                        assert(last.spec_end() + 1 < el.spec_start());
                        assert forall|i: int, j: int| 0 <= i < j < out@.len() implies out@[
                        i].spec_end() + 1 < out@[j].spec_start() by {
                            if j < out@.len() - 1 {
                                assert(old_out[i].spec_end() + 1 < old_out[j].spec_start());
                            } else if i < out_len - 1 {
                                assert(old_out[i].spec_end() + 1 < old_out[
                                    out_len - 1 as int].spec_start());
                            }
                        }
                    }
                },
            }
        }
    }
    proof {
        assert(v@.subrange(0, n as int) =~= v@);
    }
    out
}

impl CoalesceIntervals<ContiguousIntegerSet> for Vec<ContiguousIntegerSet> {
    open spec fn to_coalesced_post(&self, r: Vec<ContiguousIntegerSet>) -> bool {
        is_canonical(r@) && forall|x: int| seq_covers(r@, x) <==> seq_covers(self@, x)
    }

    open spec fn coalesce_inplace_post(&self, next: Self) -> bool {
        is_canonical(next@) && forall|x: int| seq_covers(next@, x) <==> seq_covers(self@, x)
    }

    fn to_coalesced_intervals(&self) -> (r: Vec<ContiguousIntegerSet>) {
        let sorted = sort_and_prune(self);
        merge_sorted(&sorted)
    }

    fn coalesce_intervals_inplace(&mut self) {
        let sorted = sort_and_prune(self);
        *self = merge_sorted(&sorted);
    }

    fn into_coalesced(self) -> (r: Self) {
        let mut v = self;
        v.coalesce_intervals_inplace();
        v
    }
}

} // verus!
