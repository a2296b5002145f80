use vstd::prelude::*;

use crate::record::Record;

verus! {

/// A sequence of records is sorted when its keys never decrease.
pub open spec fn sorted<R: Record>(s: Seq<R>) -> bool {
    forall|i: int, j: int| 0 <= i < j < s.len() ==> #[trigger] s[i].key() <= #[trigger] s[j].key()
}

/// The sum of a sequence of integers.
pub open spec fn seq_sum(s: Seq<int>) -> int
    decreases s.len(),
{
    if s.len() == 0 {
        0
    } else {
        seq_sum(s.drop_last()) + s.last()
    }
}

/// The largest entry of a sequence of integers, or 0 for the empty sequence.
pub open spec fn seq_max(s: Seq<int>) -> int
    decreases s.len(),
{
    if s.len() == 0 {
        0
    } else if s.last() >= seq_max(s.drop_last()) {
        s.last()
    } else {
        seq_max(s.drop_last())
    }
}

/// The lengths of the maximal sorted runs of `s`, in storage order: a new
/// run starts exactly where a record's key drops strictly below its
/// predecessor's, so a run of equal keys stays one run, as natural merge
/// sort wants.
pub open spec fn runs_of<R: Record>(s: Seq<R>) -> Seq<int>
    decreases s.len(),
{
    if s.len() == 0 {
        Seq::empty()
    } else if s.len() == 1 {
        seq![1]
    } else {
        let r = runs_of(s.drop_last());
        if s[s.len() - 1].key() < s[s.len() - 2].key() {
            r.push(1)
        } else {
            r.update(r.len() - 1, r.last() + 1)
        }
    }
}

/// Number of records lying in runs 0 .. k.
pub open spec fn psum(runs: Seq<int>, k: int) -> int {
    seq_sum(runs.take(k))
}

pub proof fn lemma_seq_max_ge(s: Seq<int>, k: int)
    requires
        0 <= k < s.len(),
    ensures
        seq_max(s) >= s[k],
    decreases s.len(),
{
    if k < s.len() - 1 {
        lemma_seq_max_ge(s.drop_last(), k);
        assert(s.drop_last()[k] == s[k]);
    }
}

pub proof fn lemma_seq_max_push(s: Seq<int>, v: int)
    ensures
        seq_max(s.push(v)) == if v >= seq_max(s) {
            v
        } else {
            seq_max(s)
        },
{
    assert(s.push(v).drop_last() =~= s);
    assert(s.push(v).last() == v);
}

pub proof fn lemma_seq_max_update_last(s: Seq<int>, v: int)
    requires
        s.len() > 0,
        v >= s.last(),
    ensures
        seq_max(s.update(s.len() - 1, v)) >= seq_max(s),
        seq_max(s.update(s.len() - 1, v)) == if v >= seq_max(s.drop_last()) {
            v
        } else {
            seq_max(s.drop_last())
        },
{
    let t = s.update(s.len() - 1, v);
    assert(t.drop_last() =~= s.drop_last());
    assert(t.last() == v);
}

/// The sum of an all-zero sequence.
pub proof fn lemma_seq_sum_zero(s: Seq<int>)
    requires
        forall|j: int| 0 <= j < s.len() ==> #[trigger] s[j] == 0,
    ensures
        seq_sum(s) == 0,
    decreases s.len(),
{
    if s.len() > 0 {
        lemma_seq_sum_zero(s.drop_last());
    }
}

pub proof fn lemma_seq_max_nonneg(s: Seq<int>)
    requires
        forall|j: int| 0 <= j < s.len() ==> #[trigger] s[j] >= 0,
    ensures
        seq_max(s) >= 0,
    decreases s.len(),
{
    if s.len() > 0 {
        lemma_seq_max_nonneg(s.drop_last());
    }
}

/// A sequence of positive entries sums to at least its length.
pub proof fn lemma_seq_sum_pos(s: Seq<int>)
    requires
        forall|j: int| 0 <= j < s.len() ==> #[trigger] s[j] >= 1,
    ensures
        seq_sum(s) >= s.len(),
    decreases s.len(),
{
    if s.len() > 0 {
        lemma_seq_sum_pos(s.drop_last());
    }
}

pub proof fn lemma_seq_sum_nonneg(s: Seq<int>)
    requires
        forall|j: int| 0 <= j < s.len() ==> #[trigger] s[j] >= 0,
    ensures
        seq_sum(s) >= 0,
    decreases s.len(),
{
    if s.len() > 0 {
        lemma_seq_sum_nonneg(s.drop_last());
    }
}

/// No entry of a sequence of non-negative entries exceeds the sum.
pub proof fn lemma_seq_sum_entry_nonneg(s: Seq<int>, k: int)
    requires
        forall|j: int| 0 <= j < s.len() ==> #[trigger] s[j] >= 0,
        0 <= k < s.len(),
    ensures
        s[k] <= seq_sum(s),
    decreases s.len(),
{
    if k == s.len() - 1 {
        lemma_seq_sum_nonneg(s.drop_last());
    } else {
        lemma_seq_sum_entry_nonneg(s.drop_last(), k);
        assert(s.drop_last()[k] == s[k]);
        assert(s.last() >= 0);
    }
}

/// Updating one entry moves the sum by the difference.
pub proof fn lemma_seq_sum_update(s: Seq<int>, k: int, v: int)
    requires
        0 <= k < s.len(),
    ensures
        seq_sum(s.update(k, v)) == seq_sum(s) - s[k] + v,
    decreases s.len(),
{
    let u = s.update(k, v);
    if k == s.len() - 1 {
        assert(u.drop_last() =~= s.drop_last());
    } else {
        assert(u.drop_last() =~= s.drop_last().update(k, v));
        lemma_seq_sum_update(s.drop_last(), k, v);
        assert(s.drop_last()[k] == s[k]);
        assert(u.last() == s.last());
    }
}

/// No entry of a sequence of positive entries exceeds the sum.
pub proof fn lemma_seq_sum_entry(s: Seq<int>, k: int)
    requires
        forall|j: int| 0 <= j < s.len() ==> #[trigger] s[j] >= 1,
        0 <= k < s.len(),
    ensures
        s[k] <= seq_sum(s),
    decreases s.len(),
{
    if k == s.len() - 1 {
        lemma_seq_sum_pos(s.drop_last());
    } else {
        lemma_seq_sum_entry(s.drop_last(), k);
        assert(s.drop_last()[k] == s[k]);
    }
}

/// The three ways a push extends the run decomposition: first record of all,
/// a descent starting a fresh run, or an extension of the last run.
pub proof fn lemma_runs_push<R: Record>(s: Seq<R>, r: R)
    ensures
        s.len() == 0 ==> runs_of(s.push(r)) == seq![1int],
        s.len() > 0 && r.key() < s.last().key() ==> runs_of(s.push(r)) == runs_of(s).push(1),
        s.len() > 0 && r.key() >= s.last().key() ==> runs_of(s.push(r)) == runs_of(s).update(
            runs_of(s).len() - 1,
            runs_of(s).last() + 1,
        ),
{
    let t = s.push(r);
    assert(t.drop_last() =~= s);
    if s.len() == 0 {
        assert(runs_of(t) =~= seq![1int]);
    } else {
        assert(t[t.len() - 1] == r);
        assert(t[t.len() - 2] == s.last());
    }
}

/// Basic shape of the decomposition: it is empty only for the empty
/// sequence, its entries are positive, and its entries sum to the length.
pub proof fn lemma_runs_basic<R: Record>(s: Seq<R>)
    ensures
        runs_of(s).len() == 0 <==> s.len() == 0,
        seq_sum(runs_of(s)) == s.len(),
        forall|k: int| 0 <= k < runs_of(s).len() ==> #[trigger] runs_of(s)[k] >= 1,
    decreases s.len(),
{
    if s.len() == 0 {
    } else if s.len() == 1 {
        assert(seq![1int].drop_last() =~= Seq::<int>::empty());
        assert(seq_sum(Seq::<int>::empty()) == 0);
        assert(seq_sum(seq![1int]) == seq_sum(seq![1int].drop_last()) + 1);
    } else {
        let p = s.drop_last();
        lemma_runs_basic(p);
        let rp = runs_of(p);
        if s[s.len() - 1].key() < s[s.len() - 2].key() {
            assert(runs_of(s) == rp.push(1));
            assert(rp.push(1).drop_last() =~= rp);
            assert(seq_sum(rp.push(1)) == seq_sum(rp) + 1);
        } else {
            let u = rp.update(rp.len() - 1, rp.last() + 1);
            assert(runs_of(s) == u);
            assert(u.drop_last() =~= rp.drop_last());
            assert(seq_sum(u) == seq_sum(rp.drop_last()) + rp.last() + 1);
            assert(seq_sum(rp) == seq_sum(rp.drop_last()) + rp.last());
        }
    }
}

pub proof fn lemma_psum_zero(runs: Seq<int>)
    ensures
        psum(runs, 0) == 0,
{
    assert(runs.take(0) =~= Seq::<int>::empty());
}

pub proof fn lemma_psum_step(runs: Seq<int>, k: int)
    requires
        0 <= k < runs.len(),
    ensures
        psum(runs, k + 1) == psum(runs, k) + runs[k],
{
    assert(runs.take(k + 1).drop_last() =~= runs.take(k));
    assert(runs.take(k + 1).last() == runs[k]);
}

pub proof fn lemma_psum_full(runs: Seq<int>)
    ensures
        psum(runs, runs.len() as int) == seq_sum(runs),
{
    assert(runs.take(runs.len() as int) =~= runs);
}

/// Prefix sums of a positive-entry decomposition grow strictly with k.
pub proof fn lemma_psum_bounds(runs: Seq<int>, k1: int, k2: int)
    requires
        forall|k: int| 0 <= k < runs.len() ==> #[trigger] runs[k] >= 1,
        0 <= k1 <= k2 <= runs.len(),
    ensures
        psum(runs, k1) + (k2 - k1) <= psum(runs, k2),
    decreases k2 - k1,
{
    if k1 < k2 {
        lemma_psum_bounds(runs, k1, k2 - 1);
        lemma_psum_step(runs, k2 - 1);
    }
}

/// Within one run of the decomposition, adjacent keys never decrease.
pub proof fn lemma_within_run_adjacent<R: Record>(s: Seq<R>, k: int, i: int)
    requires
        0 <= k < runs_of(s).len(),
        psum(runs_of(s), k) <= i,
        i + 1 < psum(runs_of(s), k + 1),
    ensures
        s[i].key() <= s[i + 1].key(),
    decreases s.len(),
{
    lemma_runs_basic(s);
    let runs = runs_of(s);
    lemma_psum_step(runs, k);
    lemma_psum_bounds(runs, 0, k);
    lemma_psum_zero(runs);
    lemma_psum_bounds(runs, k + 1, runs.len() as int);
    lemma_psum_full(runs);
    // now 0 <= i and i + 1 < s.len()
    if s.len() <= 1 {
        // impossible: there is no adjacent pair
        assert(false);
    } else {
        let p = s.drop_last();
        lemma_runs_basic(p);
        let rp = runs_of(p);
        if s[s.len() - 1].key() < s[s.len() - 2].key() {
            assert(runs == rp.push(1));
            // the new run holds one record, so i, i+1 lie in an old run
            if k < rp.len() {
                assert(rp.push(1).take(k) =~= rp.take(k));
                assert(rp.push(1).take(k + 1) =~= rp.take(k + 1));
                lemma_psum_step(rp, k);
                lemma_psum_bounds(rp, k + 1, rp.len() as int);
                lemma_psum_full(rp);
                lemma_within_run_adjacent(p, k, i);
                assert(p[i] == s[i] && p[i + 1] == s[i + 1]);
            } else {
                // k is the new singleton run: no adjacent pair inside it
                assert(rp.push(1).take(k) =~= rp);
                lemma_psum_full(rp);
                lemma_psum_step(runs, k);
                assert(false);
            }
        } else {
            let u = rp.update(rp.len() - 1, rp.last() + 1);
            assert(runs == u);
            assert(u.len() == rp.len());
            if k < rp.len() - 1 {
                assert(u.take(k) =~= rp.take(k));
                assert(u.take(k + 1) =~= rp.take(k + 1));
                lemma_within_run_adjacent(p, k, i);
                assert(p[i] == s[i] && p[i + 1] == s[i + 1]);
            } else {
                // k is the last run, which the push extended
                assert(u.take(k) =~= rp.take(k));
                lemma_psum_step(u, k);
                lemma_psum_full(u);
                assert(u.take(u.len() as int) =~= u);
                if i + 1 < s.len() - 1 {
                    lemma_psum_step(rp, k);
                    lemma_psum_full(rp);
                    lemma_within_run_adjacent(p, k, i);
                    assert(p[i] == s[i] && p[i + 1] == s[i + 1]);
                } else {
                    // i + 1 is the pushed record itself
                    assert(s[i] == s[s.len() - 2] && s[i + 1] == s[s.len() - 1]);
                }
            }
        }
    }
}

/// Keys never decrease along a stretch of adjacent non-descents.
pub proof fn lemma_key_chain<R: Record>(s: Seq<R>, i: int, j: int)
    requires
        0 <= i <= j < s.len(),
        forall|l: int| i <= l < j ==> #[trigger] s[l].key() <= s[l + 1].key(),
    ensures
        s[i].key() <= s[j].key(),
    decreases j - i,
{
    if i < j {
        lemma_key_chain(s, i, j - 1);
        assert(s[j - 1].key() <= s[j].key());
    }
}

/// A sequence that forms at most one maximal run is sorted.
pub proof fn lemma_single_run_sorted<R: Record>(s: Seq<R>)
    requires
        runs_of(s).len() <= 1,
    ensures
        sorted(s),
{
    lemma_runs_basic(s);
    if s.len() > 0 {
        let runs = runs_of(s);
        lemma_psum_zero(runs);
        lemma_psum_step(runs, 0);
        assert(psum(runs, 1) == runs[0]);
        assert(seq_sum(runs) == s.len()) by {
            lemma_runs_basic(s);
        }
        assert(runs[0] == s.len()) by {
            lemma_psum_full(runs);
            assert(runs.take(1) =~= runs);
        }
        assert forall|l: int| 0 <= l < s.len() - 1 implies #[trigger] s[l].key() <= s[l
            + 1].key() by {
            lemma_within_run_adjacent(s, 0, l);
        }
        assert forall|i: int, j: int| 0 <= i < j < s.len() implies #[trigger] s[i].key()
            <= #[trigger] s[j].key() by {
            lemma_key_chain(s, i, j);
        }
    }
}

/// A sorted non-empty sequence forms exactly one maximal run.
pub proof fn lemma_sorted_single_run<R: Record>(s: Seq<R>)
    requires
        sorted(s),
        s.len() > 0,
    ensures
        runs_of(s).len() == 1,
    decreases s.len(),
{
    if s.len() > 1 {
        let p = s.drop_last();
        assert(sorted::<R>(p)) by {
            assert(forall|i: int, j: int|
                0 <= i < j < p.len() ==> p[i] == s[i] && p[j] == s[j]);
        }
        lemma_sorted_single_run(p);
        assert(s[s.len() - 2].key() <= s[s.len() - 1].key());
    }
}

} // verus!
