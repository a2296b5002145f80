use vstd::multiset::Multiset;
use vstd::prelude::*;
use vstd::std_specs::vec::vec_index_mut;

use crate::file_handler::OPS_BUDGET;
use crate::math::{
    ceil_div, clog2, lemma_ceil_div_bounds, lemma_ceil_div_char, lemma_ceil_div_divisor,
    lemma_ceil_div_exact, lemma_ceil_div_increment, lemma_ceil_div_mono, lemma_ceil_div_page_step,
    lemma_ceil_div_zero, lemma_clog2_mono, lemma_clog2_nonneg, lemma_clog2_pow2, lemma_pow2_64,
};
use crate::record::Record;
use crate::runs::{
    lemma_psum_bounds, lemma_psum_full, lemma_psum_step, lemma_psum_zero, lemma_runs_basic,
    lemma_runs_push, lemma_seq_max_ge, lemma_seq_max_nonneg, lemma_seq_max_push,
    lemma_seq_max_update_last, lemma_seq_sum_entry_nonneg, lemma_seq_sum_pos,
    lemma_seq_sum_update, lemma_seq_sum_zero, lemma_single_run_sorted, lemma_within_run_adjacent,
    psum, runs_of, seq_max, seq_sum, sorted,
};
use vstd::math::min;
use crate::tape::{Tape, TapeContext};

verus! {

broadcast use
    vstd::seq_lib::group_to_multiset_ensures,
    vstd::multiset::group_multiset_axioms,
    crate::tape::Tape::lemma_inv_facts;

/// Why a sort was refused or aborted.
#[derive(Clone, Copy, Debug, PartialEq, Eq, Structural)]
pub enum SortError {
    /// The fan-in was below two.
    InvalidFanIn,
    /// The initial tape holds no records at all.
    EmptyInput,
    /// A tape misbehaved in a way correct phase sequencing rules out.
    Internal,
}

/// Everything the records of a set of tapes hold, as one multiset.
pub open spec fn tapes_multiset<R: Record>(ts: Seq<Tape<R>>) -> Multiset<R>
    decreases ts.len(),
{
    if ts.len() == 0 {
        Multiset::empty()
    } else {
        tapes_multiset(ts.drop_last()).add(ts.last().records().to_multiset())
    }
}

/// Everything still unread on a set of tapes, as one multiset.
pub open spec fn tapes_unread_multiset<R: Record>(ts: Seq<Tape<R>>) -> Multiset<R>
    decreases ts.len(),
{
    if ts.len() == 0 {
        Multiset::empty()
    } else {
        tapes_unread_multiset(ts.drop_last()).add(ts.last().unread().to_multiset())
    }
}

/// How many of the runs `0 .. q`, dealt round robin over `n` slots, land on
/// slot `j`.
pub open spec fn assigned(q: int, n: int, j: int) -> int
    decreases q,
{
    if q <= 0 {
        0
    } else {
        assigned(q - 1, n, j) + if (q - 1) % n == j {
            1int
        } else {
            0int
        }
    }
}

pub proof fn lemma_assigned_nonneg(q: int, n: int, j: int)
    ensures
        assigned(q, n, j) >= 0,
    decreases q,
{
    if q > 0 {
        lemma_assigned_nonneg(q - 1, n, j);
    }
}

/// The exact count of a round-robin deal: slot `j` sees run `j` first and
/// one more every `n` runs after it.
pub proof fn lemma_assigned_exact(q: int, n: int, j: int)
    requires
        n >= 1,
        0 <= j < n,
        q >= 0,
    ensures
        assigned(q, n, j) == if q <= j {
            0int
        } else {
            ceil_div(q - j, n)
        },
    decreases q,
{
    if q > 0 {
        lemma_assigned_exact(q - 1, n, j);
        if q - 1 < j {
            assert((q - 1) % n == q - 1) by (nonlinear_arith)
                requires
                    0 <= q - 1 < n,
            ;
        } else if q - 1 == j {
            assert((q - 1) % n == j) by (nonlinear_arith)
                requires
                    0 <= j < n,
                    q - 1 == j,
            ;
            assert((1 + n - 1) / n == 1) by (nonlinear_arith)
                requires
                    n >= 1,
            ;
        } else {
            let x = q - 1 - j;
            if x % n == 0 {
                assert((j + x) % n == j) by (nonlinear_arith)
                    requires
                        n >= 1,
                        0 <= j < n,
                        x >= 0,
                        x % n == 0,
                ;
                lemma_ceil_div_exact(x, n);
                lemma_ceil_div_page_step(x, n, 1);
            } else {
                assert((j + x) % n != j) by (nonlinear_arith)
                    requires
                        n >= 1,
                        0 <= j < n,
                        x >= 0,
                        x % n != 0,
                ;
                lemma_ceil_div_increment(x, n);
            }
        }
    }
}

pub proof fn lemma_assigned_le(q: int, n: int, j: int)
    requires
        n >= 1,
        0 <= j < n,
        q >= 0,
    ensures
        assigned(q, n, j) <= ceil_div(q, n),
{
    lemma_assigned_exact(q, n, j);
    lemma_ceil_div_bounds(q, n);
    if q > j {
        lemma_ceil_div_mono(q - j, q, n);
    }
}

/// Adding the same multiset to both sides can be cancelled.
pub proof fn lemma_add_cancel<A>(a: Multiset<A>, b: Multiset<A>, x: Multiset<A>)
    requires
        a.add(x) == b.add(x),
    ensures
        a == b,
{
    assert forall|e: A| a.count(e) == b.count(e) by {
        assert(a.add(x).count(e) == a.count(e) + x.count(e));
        assert(b.add(x).count(e) == b.count(e) + x.count(e));
    }
    assert(a =~= b);
}

/// An insertion on one side of a cancelled addition survives as an
/// insertion on the other.
pub proof fn lemma_add_insert_cancel<A>(a: Multiset<A>, b: Multiset<A>, x: Multiset<A>, r: A)
    requires
        a.add(x) == b.add(x.insert(r)),
    ensures
        a == b.insert(r),
{
    assert forall|e: A| a.count(e) == b.insert(r).count(e) by {
        assert(a.add(x).count(e) == a.count(e) + x.count(e));
        assert(b.add(x.insert(r)).count(e) == b.count(e) + x.insert(r).count(e));
        assert(x.insert(r).count(e) == x.count(e) + Multiset::<A>::singleton(r).count(e));
        assert(b.insert(r).count(e) == b.count(e) + Multiset::<A>::singleton(r).count(e));
    }
    assert(a =~= b.insert(r));
}

/// Swapping one tape of a set moves its records out of the total and the
/// replacement's in; stated addition-only to avoid multiset subtraction.
pub proof fn lemma_tapes_multiset_update<R: Record>(ts: Seq<Tape<R>>, i: int, t2: Tape<R>)
    requires
        0 <= i < ts.len(),
    ensures
        tapes_multiset(ts.update(i, t2)).add(ts[i].records().to_multiset()) == tapes_multiset(
            ts,
        ).add(t2.records().to_multiset()),
    decreases ts.len(),
{
    let u = ts.update(i, t2);
    if i == ts.len() - 1 {
        assert(u.drop_last() =~= ts.drop_last());
        assert(u.last() == t2);
        assert(tapes_multiset(u).add(ts[i].records().to_multiset()) =~= tapes_multiset(ts).add(
            t2.records().to_multiset(),
        ));
    } else {
        assert(u.drop_last() =~= ts.drop_last().update(i, t2));
        assert(u.last() == ts.last());
        lemma_tapes_multiset_update(ts.drop_last(), i, t2);
        assert(ts.drop_last()[i] == ts[i]);
        assert(tapes_multiset(u) == tapes_multiset(ts.drop_last().update(i, t2)).add(
            ts.last().records().to_multiset(),
        ));
        assert(tapes_multiset(ts) == tapes_multiset(ts.drop_last()).add(
            ts.last().records().to_multiset(),
        ));
        let a1 = tapes_multiset(ts.drop_last().update(i, t2));
        let a0 = tapes_multiset(ts.drop_last());
        let lm = ts.last().records().to_multiset();
        let im = ts[i].records().to_multiset();
        let tm2 = t2.records().to_multiset();
        assert forall|e| #[trigger] tapes_multiset(u).add(im).count(e) == tapes_multiset(ts).add(
            tm2,
        ).count(e) by {
            assert(tapes_multiset(u).add(im).count(e) == a1.count(e) + lm.count(e) + im.count(e));
            assert(a1.add(im).count(e) == a1.count(e) + im.count(e));
            assert(a0.add(tm2).count(e) == a0.count(e) + tm2.count(e));
            assert(a1.count(e) + im.count(e) == a0.count(e) + tm2.count(e));
            assert(tapes_multiset(ts).add(tm2).count(e) == a0.count(e) + lm.count(e)
                + tm2.count(e));
        }
        assert(tapes_multiset(u).add(ts[i].records().to_multiset()) =~= tapes_multiset(ts).add(
            t2.records().to_multiset(),
        ));
    }
}

/// The same, for what is unread.
pub proof fn lemma_tapes_unread_multiset_update<R: Record>(ts: Seq<Tape<R>>, i: int, t2: Tape<R>)
    requires
        0 <= i < ts.len(),
    ensures
        tapes_unread_multiset(ts.update(i, t2)).add(ts[i].unread().to_multiset())
            == tapes_unread_multiset(ts).add(t2.unread().to_multiset()),
    decreases ts.len(),
{
    let u = ts.update(i, t2);
    if i == ts.len() - 1 {
        assert(u.drop_last() =~= ts.drop_last());
        assert(u.last() == t2);
        assert(tapes_unread_multiset(u).add(ts[i].unread().to_multiset())
            =~= tapes_unread_multiset(ts).add(t2.unread().to_multiset()));
    } else {
        assert(u.drop_last() =~= ts.drop_last().update(i, t2));
        assert(u.last() == ts.last());
        lemma_tapes_unread_multiset_update(ts.drop_last(), i, t2);
        assert(ts.drop_last()[i] == ts[i]);
        assert(tapes_unread_multiset(u) == tapes_unread_multiset(ts.drop_last().update(i, t2)).add(
            ts.last().unread().to_multiset(),
        ));
        assert(tapes_unread_multiset(ts) == tapes_unread_multiset(ts.drop_last()).add(
            ts.last().unread().to_multiset(),
        ));
        let a1 = tapes_unread_multiset(ts.drop_last().update(i, t2));
        let a0 = tapes_unread_multiset(ts.drop_last());
        let lm = ts.last().unread().to_multiset();
        let im = ts[i].unread().to_multiset();
        let tm2 = t2.unread().to_multiset();
        assert forall|e| #[trigger] tapes_unread_multiset(u).add(im).count(e)
            == tapes_unread_multiset(ts).add(tm2).count(e) by {
            assert(tapes_unread_multiset(u).add(im).count(e) == a1.count(e) + lm.count(e)
                + im.count(e));
            assert(a1.add(im).count(e) == a1.count(e) + im.count(e));
            assert(a0.add(tm2).count(e) == a0.count(e) + tm2.count(e));
            assert(a1.count(e) + im.count(e) == a0.count(e) + tm2.count(e));
            assert(tapes_unread_multiset(ts).add(tm2).count(e) == a0.count(e) + lm.count(e)
                + tm2.count(e));
        }
        assert(tapes_unread_multiset(u).add(ts[i].unread().to_multiset())
            =~= tapes_unread_multiset(ts).add(t2.unread().to_multiset()));
    }
}

/// A set of empty tapes holds the empty multiset.
pub proof fn lemma_tapes_multiset_empty<R: Record>(ts: Seq<Tape<R>>)
    requires
        forall|j: int| 0 <= j < ts.len() ==> (#[trigger] ts[j].records()).len() == 0,
    ensures
        tapes_multiset(ts) == Multiset::<R>::empty(),
    decreases ts.len(),
{
    if ts.len() > 0 {
        lemma_tapes_multiset_empty(ts.drop_last());
        assert(ts.last().records().len() == 0);
        assert(tapes_multiset(ts) =~= Multiset::<R>::empty());
    }
}

/// No tape of a set holds more records than the whole set.
pub proof fn lemma_tapes_records_len_le<R: Record>(ts: Seq<Tape<R>>, j: int)
    requires
        0 <= j < ts.len(),
    ensures
        ts[j].records().len() <= tapes_multiset(ts).len(),
    decreases ts.len(),
{
    if j == ts.len() - 1 {
    } else {
        lemma_tapes_records_len_le(ts.drop_last(), j);
        assert(ts.drop_last()[j] == ts[j]);
    }
}

/// The round-robin deal, one record at a time: each record follows its
/// predecessor onto the same slot, and a strict key descent moves on to
/// the next slot, wrapping around. `rest` is what is still to deal, `last`
/// the record dealt most recently, `i` the current slot, `acc` what every
/// slot holds so far.
pub open spec fn deal_rec<R: Record>(
    rest: Seq<R>,
    last: R,
    i: int,
    n: int,
    acc: Seq<Seq<R>>,
) -> Seq<Seq<R>>
    decreases rest.len(),
{
    if rest.len() == 0 {
        acc
    } else {
        let rec = rest[0];
        let i2 = if rec.key() < last.key() {
            (i + 1) % n
        } else {
            i
        };
        deal_rec(rest.skip(1), rec, i2, n, acc.update(i2, acc[i2].push(rec)))
    }
}

/// Where the records of `s` land when dealt round robin over `n` slots:
/// the first record opens slot 0, and every strict descent advances the
/// slot. Slot `j` thus receives the source's natural runs `j`, `j + n`,
/// `j + 2n`, ... whole and in order.
pub open spec fn deal_all<R: Record>(s: Seq<R>, n: int) -> Seq<Seq<R>> {
    let empty_acc = Seq::new(n as nat, |k: int| Seq::<R>::empty());
    if s.len() == 0 {
        empty_acc
    } else {
        deal_rec(s.skip(1), s[0], 0, n, empty_acc.update(0, seq![s[0]]))
    }
}

/// The records slot `j` receives from the deal of `s` over `n` slots.
pub open spec fn dealt<R: Record>(s: Seq<R>, n: int, j: int) -> Seq<R> {
    deal_all(s, n)[j]
}

/// The per-slot contents of a set of tapes, as one sequence of sequences.
pub open spec fn records_of_tapes<R: Record>(ts: Seq<Tape<R>>) -> Seq<Seq<R>> {
    Seq::new(ts.len(), |j: int| ts[j].records())
}

/// Distribute phase: a sequential scan of the rewound source deals its
/// natural runs round robin onto the cleared targets. Returns the number of
/// natural runs of the source and its record count. The scan costs exactly
/// one read pass on the source and one write pass on each target.
pub fn distribute<R: Record>(source: &mut Tape<R>, targets: &mut Vec<Tape<R>>) -> (r: Result<
    (usize, usize),
    SortError,
>)
    requires
        old(source).inv(),
        old(source).rewound(),
        1 <= old(source).records().len(),
        old(source).ops() <= OPS_BUDGET as int,
        1 <= old(targets)@.len(),
        forall|j: int|
            0 <= j < old(targets)@.len() ==> (#[trigger] old(targets)@[j].inv())
                && old(targets)@[j].cleared() && old(targets)@[j].capacity() == old(
                source,
            ).capacity(),
    ensures
        r is Ok,
        ({
            let runs = r->Ok_0.0 as int;
            let m = r->Ok_0.1 as int;
            &&& m == old(source).records().len()
            &&& runs == runs_of(old(source).records()).len()
            &&& final(source).inv()
            &&& final(source).is_reading()
            &&& final(source).records() == old(source).records()
            &&& final(source).unread().len() == 0
            &&& final(source).capacity() == old(source).capacity()
            &&& final(source).ops() == old(source).ops() + ceil_div(m, old(source).capacity())
            &&& final(targets)@.len() == old(targets)@.len()
            &&& tapes_multiset(final(targets)@) == old(source).records().to_multiset()
            &&& forall|j: int|
                0 <= j < final(targets)@.len() ==> {
                    let t = #[trigger] final(targets)@[j];
                    &&& t.inv()
                    &&& t.rewound()
                    &&& t.capacity() == old(source).capacity()
                    &&& t.ops() == ceil_div(t.records().len() as int, t.capacity())
                    &&& t.run_count() <= ceil_div(runs, old(targets)@.len() as int)
                    &&& t.records().len() <= m
                    &&& t.records() == dealt(
                        old(source).records(),
                        old(targets)@.len() as int,
                        j,
                    )
                }
        }),
{
    let ghost s_seq = old(source).records();
    let ghost cap = old(source).capacity();
    let ghost ops0 = old(source).ops();
    let n = targets.len();
    let mut i: usize = 0;
    let mut number_of_runs: usize = 1;
    let mut m: usize = 0;
    let mut last: Option<R> = None;

    proof {
        lemma_ceil_div_zero(cap);
        lemma_runs_basic(s_seq);
        assert forall|j: int|
            0 <= j < targets@.len() implies (#[trigger] targets@[j].records()).len() == 0 by {
            assert(old(targets)@[j].inv());
        }
        lemma_tapes_multiset_empty(targets@);
        assert(s_seq.take(0) =~= Seq::<R>::empty());
        assert(Seq::<R>::empty().to_multiset() =~= Multiset::<R>::empty());
        assert(records_of_tapes(targets@) =~~= Seq::new(n as nat, |k: int| Seq::<R>::empty()));
        assert forall|j: int|
            0 <= j < n as int implies 0 <= #[trigger] assigned(1int, n as int, j) by {
            lemma_assigned_nonneg(1int, n as int, j);
        }
    }

    while !source.is_empty()
        invariant
            source.inv(),
            source.is_reading(),
            source.records() == s_seq,
            source.capacity() == cap,
            cap >= 1,
            1 <= s_seq.len(),
            s_seq.len() <= usize::MAX,
            m as int <= s_seq.len(),
            source.unread() == s_seq.skip(m as int),
            source.ops() == ops0 + ceil_div(source.cursor(), cap),
            source.ops() <= ops0 + 2 * (m as int),
            ops0 <= OPS_BUDGET as int,
            0 <= source.cursor() <= s_seq.len(),
            source.unread().len() == 0 ==> source.cursor() == s_seq.len(),
            targets@.len() == n as int,
            n >= 1,
            forall|j: int|
                0 <= j < n as int ==> {
                    let t = #[trigger] targets@[j];
                    &&& t.inv()
                    &&& !t.is_reading()
                    &&& t.capacity() == cap
                    &&& t.ops() * cap == t.stored()
                    &&& 0 <= t.ops() <= t.stored()
                    &&& (t.records().len() == 0 ==> t.ops() == 0 && t.buffered() == 0)
                    &&& (t.records().len() > 0 ==> 1 <= t.buffered())
                    &&& t.records().len() <= m as int
                    &&& t.run_count() <= assigned(number_of_runs as int, n as int, j)
                },
            tapes_multiset(targets@) == s_seq.take(m as int).to_multiset(),
            m == 0 ==> number_of_runs == 1 && i == 0 && last is None,
            m == 0 ==> records_of_tapes(targets@) == Seq::new(n as nat, |k: int| Seq::<R>::empty()),
            m > 0 ==> {
                &&& number_of_runs as int == runs_of(s_seq.take(m as int)).len()
                &&& i as int == (number_of_runs - 1) as int % (n as int)
                &&& last == Some(s_seq[m as int - 1])
                &&& targets@[i as int].records().len() > 0
                &&& targets@[i as int].records().last() == s_seq[m as int - 1]
                &&& deal_all(s_seq, n as int) == deal_rec(
                    s_seq.skip(m as int),
                    s_seq[m as int - 1],
                    i as int,
                    n as int,
                    records_of_tapes(targets@),
                )
            },
            number_of_runs >= 1,
            number_of_runs as int <= if m == 0 {
                1int
            } else {
                m as int
            },
            i < n,
        decreases s_seq.len() - m,
    {
        let rec = match source.next_record() {
            Ok(rec) => rec,
            Err(_) => {
                proof {
                    assert(false);
                }
                return Err(SortError::Internal);
            },
        };
        proof {
            assert(s_seq.skip(m as int).len() == s_seq.len() - m);
            assert((m as int) < s_seq.len());
            assert(rec == s_seq.skip(m as int)[0]);
            assert(rec == s_seq[m as int]);
            assert(s_seq.take(m as int + 1) =~= s_seq.take(m as int).push(s_seq[m as int]));
            lemma_runs_push(s_seq.take(m as int), s_seq[m as int]);
            lemma_runs_basic(s_seq.take(m as int));
            lemma_runs_basic(s_seq.take(m as int + 1));
            lemma_seq_sum_pos(runs_of(s_seq.take(m as int + 1)));
            assert(s_seq.take(m as int).len() == m as int);
        }
        let is_descent = match &last {
            None => false,
            Some(l) => !l.le(&rec),
        };
        let ghost q_old = number_of_runs as int;
        let ghost i_old = i as int;
        if is_descent {
            number_of_runs = number_of_runs + 1;
            i = (number_of_runs - 1) % n;
        }
        let ghost pre_ts = targets@;
        let ghost pre_t = targets@[i as int];
        let ghost q_now = number_of_runs as int;
        proof {
            if m == 0 {
                assert(assigned(0int, n as int, 0int) == 0);
                assert(0int % (n as int) == 0) by (nonlinear_arith)
                    requires
                        n >= 1,
                ;
                assert(assigned(1int, n as int, 0int) == 1);
            }
            if is_descent {
                // run q_now - 1 (zero-based) was dealt to slot i == (q_now - 1) % n
                assert forall|j: int|
                    0 <= j < n as int implies #[trigger] assigned(q_old, n as int, j) <= assigned(
                    q_now,
                    n as int,
                    j,
                ) by {
                    assert(assigned(q_now, n as int, j) == assigned(q_old, n as int, j) + if (q_now
                        - 1) % (n as int) == j {
                        1int
                    } else {
                        0int
                    });
                }
                assert(assigned(q_now, n as int, i as int) == assigned(q_old, n as int, i as int)
                    + 1);
            }
            lemma_tapes_records_len_le(pre_ts, i as int);
            assert(pre_t.records().len() <= tapes_multiset(pre_ts).len());
            assert(tapes_multiset(pre_ts).len() == s_seq.take(m as int).to_multiset().len());
            assert(pre_t.records().len() <= m as int);
            assert(pre_t.ops() <= pre_t.stored() <= m as int);
        }
        let t = vec_index_mut(targets, i);
        t.push(rec);
        proof {
            let tnew = targets@[i as int];
            assert(targets@ == pre_ts.update(i as int, tnew));
            lemma_tapes_multiset_update(pre_ts, i as int, tnew);
            assert(tnew.records() == pre_t.records().push(rec));
            assert(pre_t.records().push(rec).to_multiset() == pre_t.records().to_multiset().insert(
                rec,
            ));
            assert(s_seq.take(m as int).push(rec).to_multiset() == s_seq.take(
                m as int,
            ).to_multiset().insert(rec));
            let e1 = tapes_multiset(targets@);
            let e0 = tapes_multiset(pre_ts);
            assert(e1.add(pre_t.records().to_multiset()) == e0.add(
                pre_t.records().to_multiset().insert(rec),
            ));
            lemma_add_insert_cancel(e1, e0, pre_t.records().to_multiset(), rec);
            assert(tapes_multiset(targets@) == s_seq.take(m as int + 1).to_multiset());
            // page accounting of the pushed-to tape
            let opsb = pre_t.ops();
            assert((opsb + 1) * cap == opsb * cap + cap) by (nonlinear_arith);
            // run bookkeeping of the pushed-to tape
            lemma_runs_push(pre_t.records(), rec);
            lemma_runs_basic(pre_t.records());
            lemma_runs_basic(tnew.records());
            if !is_descent && m > 0 {
                // same slot, key did not drop: the last run just grows
                assert(pre_t.records().last() == s_seq[m as int - 1]);
                assert(tnew.run_count() == pre_t.run_count());
            }
            assert(tnew.run_count() <= pre_t.run_count() + 1);
            // the deal machine advances by one record
            if m == 0 {
                assert(!is_descent);
                assert(i == 0);
                assert(records_of_tapes(targets@) =~~= Seq::new(
                    n as nat,
                    |k: int| Seq::<R>::empty(),
                ).update(0, seq![s_seq[0]]));
            } else {
                let rest = s_seq.skip(m as int);
                assert(rest[0] == s_seq[m as int]);
                assert(rest.skip(1) =~= s_seq.skip(m as int + 1));
                assert(is_descent <==> rec.key() < s_seq[m as int - 1].key());
                if is_descent {
                    let nn = n as int;
                    let a = q_old - 1;
                    assert(((a % nn) + 1) % nn == (a + 1) % nn) by (nonlinear_arith)
                        requires
                            nn >= 1,
                            a >= 0,
                    ;
                    assert(i as int == (i_old + 1) % nn);
                } else {
                    assert(i as int == i_old);
                }
                assert(records_of_tapes(targets@) =~= records_of_tapes(pre_ts).update(
                    i as int,
                    records_of_tapes(pre_ts)[i as int].push(rec),
                ));
                assert(deal_rec(
                    rest,
                    s_seq[m as int - 1],
                    i_old,
                    n as int,
                    records_of_tapes(pre_ts),
                ) == deal_rec(
                    rest.skip(1),
                    rec,
                    i as int,
                    n as int,
                    records_of_tapes(pre_ts).update(
                        i as int,
                        records_of_tapes(pre_ts)[i as int].push(rec),
                    ),
                ));
            }
            assert forall|j: int|
                0 <= j < n as int implies {
                    let t2 = #[trigger] targets@[j];
                    &&& t2.inv()
                    &&& !t2.is_reading()
                    &&& t2.capacity() == cap
                    &&& t2.ops() * cap == t2.stored()
                    &&& 0 <= t2.ops() <= t2.stored()
                    &&& (t2.records().len() == 0 ==> t2.ops() == 0 && t2.buffered() == 0)
                    &&& (t2.records().len() > 0 ==> 1 <= t2.buffered())
                    &&& t2.records().len() <= m as int + 1
                    &&& t2.run_count() <= assigned(q_now, n as int, j)
                } by {
                if j != i as int {
                    assert(targets@[j] == pre_ts[j]);
                    if is_descent {
                        assert(assigned(q_old, n as int, j) <= assigned(q_now, n as int, j));
                    }
                }
            }
        }
        last = Some(rec);
        m = m + 1;
    }
    proof {
        assert(source.unread().len() == 0);
        assert(s_seq.skip(m as int).len() == s_seq.len() - m);
        assert(m as int == s_seq.len());
        assert(s_seq.take(m as int) =~= s_seq);
        assert(number_of_runs as int == runs_of(s_seq).len());
        assert(s_seq.skip(m as int) =~= Seq::<R>::empty());
        assert(deal_all(s_seq, n as int) == records_of_tapes(targets@));
        assert forall|j: int| 0 <= j < n as int implies (#[trigger] targets@[j]).records()
            == dealt(s_seq, n as int, j) by {
            assert(records_of_tapes(targets@)[j] == targets@[j].records());
        }
    }
    let ghost q_fin = number_of_runs as int;
    let mut j: usize = 0;
    while j < n
        invariant
            targets@.len() == n as int,
            n >= 1,
            j <= n,
            cap >= 1,
            m as int == s_seq.len(),
            s_seq.len() <= usize::MAX,
            q_fin == runs_of(s_seq).len(),
            q_fin >= 1,
            number_of_runs as int == q_fin,
            source.inv(),
            source.is_reading(),
            source.records() == s_seq,
            source.capacity() == cap,
            source.unread().len() == 0,
            source.ops() == ops0 + ceil_div(s_seq.len() as int, cap),
            tapes_multiset(targets@) == s_seq.to_multiset(),
            forall|jj: int|
                j as int <= jj < n as int ==> {
                    let t = #[trigger] targets@[jj];
                    &&& t.inv()
                    &&& !t.is_reading()
                    &&& t.capacity() == cap
                    &&& t.ops() * cap == t.stored()
                    &&& 0 <= t.ops() <= t.stored()
                    &&& (t.records().len() == 0 ==> t.ops() == 0 && t.buffered() == 0)
                    &&& (t.records().len() > 0 ==> 1 <= t.buffered())
                    &&& t.records().len() <= m as int
                    &&& t.run_count() <= assigned(q_fin, n as int, jj)
                    &&& t.records() == dealt(s_seq, n as int, jj)
                },
            forall|jj: int|
                0 <= jj < j as int ==> {
                    let t = #[trigger] targets@[jj];
                    &&& t.inv()
                    &&& t.rewound()
                    &&& t.capacity() == cap
                    &&& t.ops() == ceil_div(t.records().len() as int, cap)
                    &&& t.run_count() <= ceil_div(q_fin, n as int)
                    &&& t.records().len() <= m as int
                    &&& t.records() == dealt(s_seq, n as int, jj)
                },
        decreases n - j,
    {
        let ghost pre_ts = targets@;
        let ghost pre_t = targets@[j as int];
        proof {
            assert(pre_t.ops() <= pre_t.stored() <= s_seq.len());
        }
        let t = vec_index_mut(targets, j);
        t.flush();
        proof {
            let tnew = targets@[j as int];
            assert(targets@ == pre_ts.update(j as int, tnew));
            lemma_tapes_multiset_update(pre_ts, j as int, tnew);
            let e1 = tapes_multiset(targets@);
            let e0 = tapes_multiset(pre_ts);
            assert(tnew.records() == pre_t.records());
            assert(e1.add(pre_t.records().to_multiset()) == e0.add(
                pre_t.records().to_multiset(),
            ));
            lemma_add_cancel(e1, e0, pre_t.records().to_multiset());
            assert(tapes_multiset(targets@) == s_seq.to_multiset());
            // the flushed counter equals one full write pass
            let len = pre_t.records().len() as int;
            let opsb = pre_t.ops();
            if len == 0 {
                lemma_ceil_div_zero(cap);
            } else {
                let b = pre_t.buffered();
                assert(cap * ((opsb + 1) - 1) < len && len <= cap * (opsb + 1)) by (nonlinear_arith)
                    requires
                        opsb * cap == len - b,
                        1 <= b <= cap,
                ;
                lemma_ceil_div_char(len, cap, opsb + 1);
            }
            lemma_assigned_le(q_fin, n as int, j as int);
        }
        j = j + 1;
    }
    proof {
        assert(n as int == old(targets)@.len());
        assert forall|j: int|
            0 <= j < targets@.len() implies (#[trigger] targets@[j]).records() == dealt(
            old(source).records(),
            old(targets)@.len() as int,
            j,
        ) by {
            assert(targets@[j].records() == dealt(s_seq, n as int, j));
        }
    }
    Ok((number_of_runs, m))
}


/// The length of run `r` on a tape; zero past the last run.
pub open spec fn run_len_at<R: Record>(t: Tape<R>, r: int) -> int {
    if 0 <= r < t.run_lens().len() {
        t.run_lens()[r]
    } else {
        0
    }
}

/// Where run `r` starts on a tape, as a record position; the end of the
/// tape once `r` runs off the decomposition.
pub open spec fn run_start<R: Record>(t: Tape<R>, r: int) -> int {
    psum(t.run_lens(), min(r, t.run_lens().len() as int))
}

/// The record a read of run `r` will yield next, `c` records in.
pub open spec fn src_head<R: Record>(t: Tape<R>, r: int, c: int) -> R {
    t.records()[run_start(t, r) + c]
}

/// The greatest run count across a set of tapes.
pub open spec fn max_runs<R: Record>(ts: Seq<Tape<R>>) -> int
    decreases ts.len(),
{
    if ts.len() == 0 {
        0
    } else if ts.last().run_count() >= max_runs(ts.drop_last()) {
        ts.last().run_count()
    } else {
        max_runs(ts.drop_last())
    }
}

/// The longest run across a set of tapes.
pub open spec fn max_run_entry<R: Record>(ts: Seq<Tape<R>>) -> int
    decreases ts.len(),
{
    if ts.len() == 0 {
        0
    } else if seq_max(ts.last().run_lens()) >= max_run_entry(ts.drop_last()) {
        seq_max(ts.last().run_lens())
    } else {
        max_run_entry(ts.drop_last())
    }
}

/// What run `r` holds across a whole set of tapes.
pub open spec fn run_total<R: Record>(ts: Seq<Tape<R>>, r: int) -> int
    decreases ts.len(),
{
    if ts.len() == 0 {
        0
    } else {
        run_total(ts.drop_last(), r) + run_len_at(ts.last(), r)
    }
}

pub open spec fn idx_sum(idx: Seq<usize>) -> int {
    seq_sum(idx.map_values(|x: usize| x as int))
}

pub proof fn lemma_max_runs_ge<R: Record>(ts: Seq<Tape<R>>, j: int)
    requires
        0 <= j < ts.len(),
    ensures
        ts[j].run_count() <= max_runs(ts),
    decreases ts.len(),
{
    if j < ts.len() - 1 {
        lemma_max_runs_ge(ts.drop_last(), j);
        assert(ts.drop_last()[j] == ts[j]);
    }
}

pub proof fn lemma_max_run_entry_ge<R: Record>(ts: Seq<Tape<R>>, j: int)
    requires
        0 <= j < ts.len(),
    ensures
        seq_max(ts[j].run_lens()) <= max_run_entry(ts),
    decreases ts.len(),
{
    if j < ts.len() - 1 {
        lemma_max_run_entry_ge(ts.drop_last(), j);
        assert(ts.drop_last()[j] == ts[j]);
    }
}

/// Per-slot bounds on the consumed counts add up to the run total.
pub proof fn lemma_idx_le_run_total<R: Record>(ts: Seq<Tape<R>>, r: int, idx: Seq<usize>)
    requires
        ts.len() == idx.len(),
        forall|j: int| 0 <= j < ts.len() ==> idx[j] as int <= run_len_at(#[trigger] ts[j], r),
    ensures
        idx_sum(idx) <= run_total(ts, r),
        (forall|j: int|
            0 <= j < ts.len() ==> idx[j] as int == run_len_at(#[trigger] ts[j], r)) ==> idx_sum(
            idx,
        ) == run_total(ts, r),
    decreases ts.len(),
{
    if ts.len() > 0 {
        assert(idx.map_values(|x: usize| x as int).drop_last() =~= idx.drop_last().map_values(
            |x: usize| x as int,
        ));
        assert forall|j: int|
            0 <= j < ts.drop_last().len() implies idx.drop_last()[j] as int <= run_len_at(
            #[trigger] ts.drop_last()[j],
            r,
        ) by {
            assert(ts.drop_last()[j] == ts[j]);
        }
        lemma_idx_le_run_total(ts.drop_last(), r, idx.drop_last());
        assert(idx.map_values(|x: usize| x as int).last() == idx.last() as int);
        if forall|j: int| 0 <= j < ts.len() ==> idx[j] as int == run_len_at(#[trigger] ts[j], r) {
            assert forall|j: int|
                0 <= j < ts.drop_last().len() implies idx.drop_last()[j] as int == run_len_at(
                #[trigger] ts.drop_last()[j],
                r,
            ) by {
                assert(ts.drop_last()[j] == ts[j]);
            }
        }
    }
}

pub proof fn lemma_run_total_entry<R: Record>(ts: Seq<Tape<R>>, r: int, j: int)
    requires
        0 <= j < ts.len(),
        forall|jj: int| 0 <= jj < ts.len() ==> run_len_at(#[trigger] ts[jj], r) >= 0,
    ensures
        run_len_at(ts[j], r) <= run_total(ts, r),
        run_total(ts, r) >= 0,
    decreases ts.len(),
{
    if ts.len() > 0 {
        assert forall|jj: int|
            0 <= jj < ts.drop_last().len() implies run_len_at(#[trigger] ts.drop_last()[jj], r)
            >= 0 by {
            assert(ts.drop_last()[jj] == ts[jj]);
        }
        if j < ts.len() - 1 {
            lemma_run_total_entry(ts.drop_last(), r, j);
            assert(ts.drop_last()[j] == ts[j]);
        } else {
            if ts.len() >= 2 {
                lemma_run_total_entry(ts.drop_last(), r, 0);
            }
        }
    }
}

/// One record of a non-empty sequence: the first, plus the rest.
pub proof fn lemma_to_multiset_first<R>(s: Seq<R>)
    requires
        s.len() > 0,
    ensures
        s.to_multiset() == s.skip(1).to_multiset().insert(s[0]),
{
    assert(s =~= seq![s[0]] + s.skip(1));
    vstd::seq_lib::lemma_multiset_commutative(seq![s[0]], s.skip(1));
    assert(seq![s[0]] =~= Seq::<R>::empty().push(s[0]));
    assert(Seq::<R>::empty().push(s[0]).to_multiset() == Seq::<R>::empty().to_multiset().insert(
        s[0],
    ));
    assert(Seq::<R>::empty().to_multiset() =~= Multiset::<R>::empty());
    assert(s.to_multiset() =~= s.skip(1).to_multiset().insert(s[0]));
}

/// The greatest number of runs any of the tapes holds.
pub fn max_run<R: Record>(tapes: &Vec<Tape<R>>) -> (r: usize)
    ensures
        r as int == max_runs(tapes@),
{
    let mut mr: usize = 0;
    let mut j: usize = 0;
    proof {
        assert(tapes@.take(0) =~= Seq::<Tape<R>>::empty());
    }
    while j < tapes.len()
        invariant
            j <= tapes@.len(),
            mr as int == max_runs(tapes@.take(j as int)),
        decreases tapes@.len() - j,
    {
        let c = tapes[j].runs();
        proof {
            assert(tapes@.take(j as int + 1).drop_last() =~= tapes@.take(j as int));
            assert(tapes@.take(j as int + 1).last() == tapes@[j as int]);
        }
        if c > mr {
            mr = c;
        }
        j += 1;
    }
    proof {
        assert(tapes@.take(tapes@.len() as int) =~= tapes@);
    }
    mr
}

/// What a scan of tapes `0 .. j` has established: either none of them has
/// a record left in run `r`, or `best_idx` points at one that has, whose
/// head `best_head` has the least key seen, earliest tape first.
pub open spec fn scan_state<R: Record>(
    sources: Seq<Tape<R>>,
    idx: Seq<usize>,
    r: int,
    j: int,
    best_head: Option<R>,
    best_idx: int,
) -> bool {
    match best_head {
        None => forall|jj: int|
            0 <= jj < j ==> idx[jj] as int == run_len_at(#[trigger] sources[jj], r),
        Some(h) => {
            &&& 0 <= best_idx < j
            &&& (idx[best_idx] as int) < run_len_at(sources[best_idx], r)
            &&& h == src_head(sources[best_idx], r, idx[best_idx] as int)
            &&& forall|jj: int|
                0 <= jj < j && (idx[jj] as int) < run_len_at(#[trigger] sources[jj], r)
                    ==> h.key() <= src_head(sources[jj], r, idx[jj] as int).key()
            &&& forall|jj: int|
                0 <= jj < best_idx && (idx[jj] as int) < run_len_at(#[trigger] sources[jj], r)
                    ==> h.key() < src_head(sources[jj], r, idx[jj] as int).key()
        },
    }
}

/// The per-tape state a k-way merge scan relies on: a well-formed tape in
/// reading position `run_start + idx` of run `r`.
pub open spec fn scan_sources_ok<R: Record>(sources: Seq<Tape<R>>, idx: Seq<usize>, r: int) -> bool {
    &&& sources.len() == idx.len()
    &&& forall|j: int|
        0 <= j < sources.len() ==> {
            let t = #[trigger] sources[j];
            &&& t.inv()
            &&& t.is_reading()
            &&& idx[j] as int <= run_len_at(t, r)
            &&& t.unread() == t.records().skip(run_start(t, r) + idx[j])
        }
}

/// No tape of a set has more unread records than the whole set.
pub proof fn lemma_tapes_unread_len_ge<R: Record>(ts: Seq<Tape<R>>, j: int)
    requires
        0 <= j < ts.len(),
    ensures
        ts[j].unread().len() <= tapes_unread_multiset(ts).len(),
    decreases ts.len(),
{
    if j == ts.len() - 1 {
    } else {
        lemma_tapes_unread_len_ge(ts.drop_last(), j);
        assert(ts.drop_last()[j] == ts[j]);
    }
}


/// Where run `r` of a record sequence starts, as a record position; the
/// sequence's end once `r` runs off the decomposition.
pub open spec fn run_start_of<R: Record>(s: Seq<R>, r: int) -> int {
    psum(runs_of(s), min(r, runs_of(s).len() as int))
}

/// The heads of a merge round: for each source, the record its cursor
/// stands on, or nothing once the cursor reached the round's end.
pub open spec fn round_heads<R: Record>(
    origs: Seq<Seq<R>>,
    pos: Seq<int>,
    ends: Seq<int>,
) -> Seq<Option<R>> {
    Seq::new(origs.len(), |j: int| if pos[j] < ends[j] {
        Some(origs[j][pos[j]])
    } else {
        None::<R>
    })
}

/// The source whose head has the least key, lowest index first on equal
/// keys, among sources `from ..`; the source count when every head is
/// gone.
pub open spec fn pick_min<R: Record>(heads: Seq<Option<R>>, from: int) -> int
    decreases heads.len() - from,
{
    if from < 0 || from >= heads.len() {
        heads.len() as int
    } else {
        let rest = pick_min(heads, from + 1);
        if heads[from] is Some {
            if rest < heads.len() && heads[rest] is Some && (heads[rest]->Some_0).key() < (
            heads[from]->Some_0).key() {
                rest
            } else {
                from
            }
        } else {
            rest
        }
    }
}

/// One merge round, record by record: repeatedly the picked head moves to
/// the output. `fuel` bounds the steps; callers set it to the round's
/// record count.
pub open spec fn merge_round_rec<R: Record>(
    origs: Seq<Seq<R>>,
    pos: Seq<int>,
    ends: Seq<int>,
    fuel: nat,
) -> Seq<R>
    decreases fuel,
{
    if fuel == 0 {
        Seq::empty()
    } else {
        let b = pick_min(round_heads(origs, pos, ends), 0);
        if b >= origs.len() {
            Seq::empty()
        } else {
            seq![origs[b][pos[b]]] + merge_round_rec(
                origs,
                pos.update(b, pos[b] + 1),
                ends,
                (fuel - 1) as nat,
            )
        }
    }
}

/// The output of merge round `r` over a set of source contents: their
/// `r`-th runs, merged by least key, earliest source first on ties.
pub open spec fn merge_round_of<R: Record>(origs: Seq<Seq<R>>, r: int) -> Seq<R> {
    merge_round_rec(
        origs,
        Seq::new(origs.len(), |j: int| run_start_of(origs[j], r)),
        Seq::new(origs.len(), |j: int| run_start_of(origs[j], r + 1)),
        seq_sum(
            Seq::new(
                origs.len(),
                |j: int| run_start_of(origs[j], r + 1) - run_start_of(origs[j], r),
            ),
        ) as nat,
    )
}

/// The whole merge output: the rounds `0 .. r`, one after another.
pub open spec fn merged_upto<R: Record>(origs: Seq<Seq<R>>, r: int) -> Seq<R>
    decreases r,
{
    if r <= 0 {
        Seq::empty()
    } else {
        merged_upto(origs, r - 1) + merge_round_of(origs, r - 1)
    }
}

/// What the pick guarantees: an index past the end only when every head is
/// gone, else a present head of least key.
pub proof fn lemma_pick_min_props<R: Record>(heads: Seq<Option<R>>, from: int)
    requires
        0 <= from <= heads.len(),
    ensures
        from <= pick_min(heads, from) <= heads.len(),
        pick_min(heads, from) == heads.len() ==> forall|j: int|
            from <= j < heads.len() ==> (#[trigger] heads[j]) is None,
        pick_min(heads, from) < heads.len() ==> heads[pick_min(heads, from)] is Some && forall|
            j: int,
        |
            from <= j < heads.len() && (#[trigger] heads[j]) is Some ==> (heads[pick_min(
                heads,
                from,
            )]->Some_0).key() <= (heads[j]->Some_0).key(),
    decreases heads.len() - from,
{
    if from < heads.len() {
        lemma_pick_min_props(heads, from + 1);
    }
}

/// The pick is exactly the earliest head of least key.
pub proof fn lemma_pick_min_is<R: Record>(heads: Seq<Option<R>>, from: int, b: int)
    requires
        0 <= from <= b < heads.len(),
        heads[b] is Some,
        forall|j: int|
            from <= j < heads.len() && (#[trigger] heads[j]) is Some ==> (heads[b]->Some_0).key()
                <= (heads[j]->Some_0).key(),
        forall|j: int|
            from <= j < b && (#[trigger] heads[j]) is Some ==> (heads[b]->Some_0).key() < (
            heads[j]->Some_0).key(),
    ensures
        pick_min(heads, from) == b,
    decreases heads.len() - from,
{
    if from == b {
        lemma_pick_min_props(heads, from + 1);
    } else {
        lemma_pick_min_is(heads, from + 1, b);
    }
}

/// What round `r` holds across a set of contents equals the same count
/// taken off the tapes.
pub proof fn lemma_run_total_as_bounds<R: Record>(ts: Seq<Tape<R>>, r: int)
    requires
        r >= 0,
        forall|j: int| 0 <= j < ts.len() ==> (#[trigger] ts[j]).inv(),
    ensures
        run_total(ts, r) == seq_sum(
            Seq::new(
                ts.len(),
                |j: int| run_start_of(records_of_tapes(ts)[j], r + 1) - run_start_of(
                    records_of_tapes(ts)[j],
                    r,
                ),
            ),
        ),
        forall|j: int|
            0 <= j < ts.len() ==> run_len_at(#[trigger] ts[j], r) == run_start_of(
                ts[j].records(),
                r + 1,
            ) - run_start_of(ts[j].records(), r),
    decreases ts.len(),
{
    assert forall|j: int|
        0 <= j < ts.len() implies run_len_at(#[trigger] ts[j], r) == run_start_of(
        ts[j].records(),
        r + 1,
    ) - run_start_of(ts[j].records(), r) by {
        let t = ts[j];
        assert(t.inv());
        assert(t.run_lens() == runs_of(t.records()));
        let lens = runs_of(t.records());
        lemma_runs_basic(t.records());
        if r < lens.len() {
            assert(min(r, lens.len() as int) == r);
            lemma_psum_step(lens, r);
        } else {
            assert(min(r, lens.len() as int) == lens.len() as int);
            assert(min(r + 1, lens.len() as int) == lens.len() as int);
        }
    }
    if ts.len() > 0 {
        lemma_run_total_as_bounds(ts.drop_last(), r);
        let f = Seq::new(
            ts.len(),
            |j: int| run_start_of(records_of_tapes(ts)[j], r + 1) - run_start_of(
                records_of_tapes(ts)[j],
                r,
            ),
        );
        let fd = Seq::new(
            ts.drop_last().len(),
            |j: int| run_start_of(records_of_tapes(ts.drop_last())[j], r + 1) - run_start_of(
                records_of_tapes(ts.drop_last())[j],
                r,
            ),
        );
        assert(f.drop_last() =~= fd);
        assert(records_of_tapes(ts)[ts.len() - 1] == ts.last().records());
    } else {
        assert(Seq::new(0, |j: int| 0int) =~= Seq::<int>::empty());
    }
}

/// The bookkeeping of a tape being filled: the disk counter covers exactly
/// the full pages already stored, and a partial page sits in memory.
pub open spec fn write_accounted<R: Record>(t: Tape<R>) -> bool {
    &&& !t.is_reading()
    &&& t.ops() * t.capacity() == t.stored()
    &&& 0 <= t.ops() <= t.stored()
    &&& (t.records().len() == 0 ==> t.ops() == 0 && t.buffered() == 0)
    &&& (t.records().len() > 0 ==> 1 <= t.buffered())
}

/// A source tape mid-merge, measured against its state `t0` at the start
/// of the phase: records and capacity intact, the counter covering exactly
/// the pages its cursor has walked.
pub open spec fn merge_source_ok<R: Record>(t: Tape<R>, t0: Tape<R>) -> bool {
    &&& t.inv()
    &&& t.is_reading()
    &&& t.records() == t0.records()
    &&& t.capacity() == t0.capacity()
    &&& 0 <= t.cursor() <= t.records().len()
    &&& t.ops() == t0.ops() + ceil_div(t.cursor(), t.capacity())
    &&& (t.unread().len() == 0 ==> t.cursor() == t.records().len())
}

/// Merges run `r` of every source onto the end of `target`: repeatedly
/// picks the least head among the sources still inside their run `r`,
/// consumes it and appends it. The merged run lands as one sorted block.
#[verifier::rlimit(100)]
fn merge_run<R: Record>(
    sources: &mut Vec<Tape<R>>,
    target: &mut Tape<R>,
    r: usize,
    Ghost(orig): Ghost<Seq<Tape<R>>>,
    Ghost(total): Ghost<Multiset<R>>,
) -> (res: Result<(), SortError>)
    requires
        old(sources)@.len() == orig.len(),
        1 <= orig.len(),
        forall|j: int|
            0 <= j < orig.len() ==> {
                let t = #[trigger] old(sources)@[j];
                &&& orig[j].inv()
                &&& merge_source_ok(t, orig[j])
                &&& t.unread() == t.records().skip(run_start(t, r as int))
                &&& 0 <= orig[j].ops() <= OPS_BUDGET as int
            },
        old(target).inv(),
        write_accounted(*old(target)),
        forall|j: int| 0 <= j < orig.len() ==> (#[trigger] orig[j]).capacity() == old(
            target,
        ).capacity(),
        old(target).records().to_multiset().add(tapes_unread_multiset(old(sources)@)) == total,
        total.len() < usize::MAX,
    ensures
        res is Ok,
        final(sources)@.len() == orig.len(),
        forall|j: int|
            0 <= j < orig.len() ==> {
                let t = #[trigger] final(sources)@[j];
                &&& merge_source_ok(t, orig[j])
                &&& t.unread() == t.records().skip(run_start(t, r as int + 1))
            },
        final(target).inv(),
        write_accounted(*final(target)),
        final(target).capacity() == old(target).capacity(),
        final(target).records().to_multiset().add(tapes_unread_multiset(final(sources)@))
            == total,
        final(target).run_count() <= old(target).run_count() + 1,
        seq_max(final(target).run_lens()) >= seq_max(old(target).run_lens()),
        seq_max(final(target).run_lens()) >= 0,
        forall|j: int|
            0 <= j < orig.len() ==> run_len_at(#[trigger] final(sources)@[j], r as int) <= seq_max(
                final(target).run_lens(),
            ),
        final(target).records().len() == old(target).records().len() + run_total(orig, r as int),
        final(target).records() == old(target).records() + merge_round_of(
            records_of_tapes(orig),
            r as int,
        ),
{
    let n = sources.len();
    let mut idx: Vec<usize> = Vec::new();
    let mut z: usize = 0;
    while z < n
        invariant
            idx@.len() == z as int,
            z <= n,
            forall|k: int| 0 <= k < z as int ==> #[trigger] idx@[k] == 0,
        decreases n - z,
    {
        idx.push(0);
        z += 1;
    }
    let ghost target0 = *old(target);
    let ghost cap = old(target).capacity();
    let ghost origs = records_of_tapes(orig);
    let ghost len0 = target0.records().len() as int;
    let ghost rends = Seq::new(origs.len(), |j: int| run_start_of(origs[j], r as int + 1));
    proof {
        assert(idx@.map_values(|x: usize| x as int) =~= Seq::<int>::new(n as nat, |k: int| 0int));
        lemma_seq_sum_zero(idx@.map_values(|x: usize| x as int));
        assert(idx_sum(idx@) == 0);
        // the round machine starts at the round's start positions
        assert forall|j: int| 0 <= j < orig.len() implies (#[trigger] orig[j]).inv() by {
            let w = old(sources)@[j];
            assert(orig[j].inv());
        }
        lemma_run_total_as_bounds(orig, r as int);
        assert(Seq::new(origs.len(), |j: int| run_start_of(origs[j], r as int) + idx@[j])
            =~= Seq::new(origs.len(), |j: int| run_start_of(origs[j], r as int)));
        assert(Seq::new(
            origs.len(),
            |j: int| run_start_of(origs[j], r as int + 1) - run_start_of(origs[j], r as int),
        ) =~= Seq::new(
            origs.len(),
            |j: int| run_start_of(records_of_tapes(orig)[j], r as int + 1) - run_start_of(
                records_of_tapes(orig)[j],
                r as int,
            ),
        ));
        assert(target0.records().skip(len0) =~= Seq::<R>::empty());
        assert(merge_round_of(origs, r as int) == Seq::<R>::empty() + merge_round_rec(
            origs,
            Seq::new(origs.len(), |j: int| run_start_of(origs[j], r as int) + idx@[j]),
            rends,
            (run_total(orig, r as int) - idx_sum(idx@)) as nat,
        )) by {
            assert(Seq::<R>::empty() + merge_round_rec(
                origs,
                Seq::new(origs.len(), |j: int| run_start_of(origs[j], r as int) + idx@[j]),
                rends,
                (run_total(orig, r as int) - idx_sum(idx@)) as nat,
            ) =~= merge_round_rec(
                origs,
                Seq::new(origs.len(), |j: int| run_start_of(origs[j], r as int) + idx@[j]),
                rends,
                (run_total(orig, r as int) - idx_sum(idx@)) as nat,
            ));
            assert(Seq::new(origs.len(), |j: int| run_start_of(origs[j], r as int + 1)) =~= rends);
        }
        assert forall|j: int| 0 <= j < orig.len() implies run_len_at(#[trigger] sources@[j], r as int)
            == run_len_at(orig[j], r as int) && run_len_at(sources@[j], r as int) >= 0 by {
            assert(sources@[j].inv());
            assert(orig[j].inv());
            assert(orig[j].run_lens() == runs_of(orig[j].records()));
            assert(sources@[j].run_lens() == runs_of(sources@[j].records()));
            lemma_runs_basic(sources@[j].records());
        }
        lemma_runs_basic(target0.records());
        lemma_seq_max_nonneg(target0.run_lens());
        assert(sources@ == old(sources)@);
        assert forall|j: int| 0 <= j < orig.len() implies run_len_at(#[trigger] orig[j], r as int)
            >= 0 by {
            let w = old(sources)@[j];
            assert(orig[j].inv());
            assert(orig[j].run_lens() == runs_of(orig[j].records()));
            lemma_runs_basic(orig[j].records());
        }
        lemma_run_total_entry(orig, r as int, 0);
        assert forall|j: int| 0 <= j < orig.len() implies {
            let t0 = #[trigger] orig[j];
            &&& t0.inv()
            &&& 0 <= t0.ops() <= OPS_BUDGET as int
            &&& t0.capacity() == cap
        } by {
            let w = old(sources)@[j];
            assert(orig[j].inv());
        }
        assert forall|j: int| 0 <= j < orig.len() implies {
            let t = #[trigger] sources@[j];
            &&& merge_source_ok(t, orig[j])
            &&& idx@[j] as int <= run_len_at(t, r as int)
            &&& run_len_at(t, r as int) == run_len_at(orig[j], r as int)
            &&& t.unread() == t.records().skip(run_start(t, r as int) + idx@[j])
        } by {
            let w = old(sources)@[j];
            assert(sources@[j] == old(sources)@[j]);
            assert(merge_source_ok(old(sources)@[j], orig[j]));
            assert(idx@[j] == 0);
            assert(sources@[j].inv());
            assert(orig[j].inv());
            assert(orig[j].run_lens() == runs_of(orig[j].records()));
            assert(sources@[j].run_lens() == runs_of(sources@[j].records()));
            lemma_runs_basic(sources@[j].records());
            assert(old(sources)@[j].unread() == old(sources)@[j].records().skip(run_start(
                old(sources)@[j],
                r as int,
            )));
        }
    }
    let mut done = false;
    while !done
        invariant
            sources@.len() == n as int,
            idx@.len() == n as int,
            n as int == orig.len(),
            n >= 1,
            cap == target0.capacity(),
            forall|j: int|
                0 <= j < orig.len() ==> {
                    let t0 = #[trigger] orig[j];
                    &&& t0.inv()
                    &&& 0 <= t0.ops() <= OPS_BUDGET as int
                    &&& t0.capacity() == cap
                },
            forall|j: int|
                0 <= j < orig.len() ==> {
                    let t = #[trigger] sources@[j];
                    &&& merge_source_ok(t, orig[j])
                    &&& idx@[j] as int <= run_len_at(t, r as int)
                    &&& run_len_at(t, r as int) == run_len_at(orig[j], r as int)
                    &&& t.unread() == t.records().skip(run_start(t, r as int) + idx@[j])
                },
            target.inv(),
            write_accounted(*target),
            target.capacity() == cap,
            target.records().to_multiset().add(tapes_unread_multiset(sources@)) == total,
            total.len() < usize::MAX,
            target.records().len() == target0.records().len() + idx_sum(idx@),
            idx_sum(idx@) >= 0,
            idx_sum(idx@) == 0 ==> *target == target0,
            idx_sum(idx@) >= 1 ==> {
                &&& target.run_count() <= target0.run_count() + 1
                &&& target.records().len() > 0
                &&& target.run_lens().last() >= idx_sum(idx@)
                &&& forall|j: int|
                    0 <= j < orig.len() && (idx@[j] as int) < run_len_at(
                        #[trigger] sources@[j],
                        r as int,
                    ) ==> target.records().last().key() <= src_head(
                        sources@[j],
                        r as int,
                        idx@[j] as int,
                    ).key()
            },
            seq_max(target.run_lens()) >= seq_max(target0.run_lens()),
            seq_max(target.run_lens()) >= 0,
            idx_sum(idx@) <= run_total(orig, r as int),
            origs == records_of_tapes(orig),
            len0 == target0.records().len() as int,
            rends == Seq::new(origs.len(), |j: int| run_start_of(origs[j], r as int + 1)),
            target.records().take(len0) == target0.records(),
            merge_round_of(origs, r as int) == target.records().skip(len0) + merge_round_rec(
                origs,
                Seq::new(origs.len(), |j: int| run_start_of(origs[j], r as int) + idx@[j]),
                rends,
                (run_total(orig, r as int) - idx_sum(idx@)) as nat,
            ),
            done ==> forall|j: int|
                0 <= j < orig.len() ==> idx@[j] as int == run_len_at(
                    #[trigger] sources@[j],
                    r as int,
                ),
        decreases run_total(orig, r as int) - idx_sum(idx@) + if done {
            0int
        } else {
            1int
        },
    {
        let mut best_head: Option<R> = None;
        let mut best_idx: usize = 0;
        let mut j2: usize = 0;
        while j2 < n
            invariant
                n == sources@.len(),
                sources@.len() == idx@.len(),
                j2 <= n,
                n as int == orig.len(),
                scan_sources_ok(sources@, idx@, r as int),
                forall|j: int|
                    0 <= j < orig.len() ==> {
                        let t = #[trigger] sources@[j];
                        &&& merge_source_ok(t, orig[j])
                        &&& idx@[j] as int <= run_len_at(t, r as int)
                        &&& run_len_at(t, r as int) == run_len_at(orig[j], r as int)
                        &&& t.unread() == t.records().skip(run_start(t, r as int) + idx@[j])
                    },
                scan_state(sources@, idx@, r as int, j2 as int, best_head, best_idx as int),
                (best_head is Some) ==> best_idx < n,
            decreases n - j2,
        {
            let t_runs = sources[j2].runs();
            let active = r < t_runs && idx[j2] < sources[j2].run_len_entry(r);
            if active {
                let ghost t = sources@[j2 as int];
                proof {
                    t.lemma_inv_facts();
                    lemma_runs_basic(t.records());
                    let lens = t.run_lens();
                    assert(min(r as int, lens.len() as int) == r as int);
                    lemma_psum_step(lens, r as int);
                    lemma_psum_bounds(lens, r as int + 1, lens.len() as int);
                    lemma_psum_full(lens);
                    lemma_psum_bounds(lens, 0, r as int);
                    lemma_psum_zero(lens);
                    assert(run_start(t, r as int) + idx@[j2 as int] < t.records().len());
                    assert(t.unread().len() == t.records().len() - (run_start(t, r as int)
                        + idx@[j2 as int]));
                }
                let h = match sources[j2].view_record() {
                    Some(h) => h,
                    None => {
                        proof {
                            assert(false);
                        }
                        return Err(SortError::Internal);
                    },
                };
                proof {
                    assert(t.records().skip(run_start(t, r as int) + idx@[j2 as int])[0]
                        == t.records()[run_start(t, r as int) + idx@[j2 as int]]);
                    assert(h == src_head(t, r as int, idx@[j2 as int] as int));
                }
                match &best_head {
                    None => {
                        best_head = Some(h);
                        best_idx = j2;
                    },
                    Some(bh) => {
                        if !bh.le(&h) {
                            best_head = Some(h);
                            best_idx = j2;
                        }
                    },
                }
            }
            j2 += 1;
        }
        let picked: Option<usize> = match best_head {
            None => None,
            Some(_) => Some(best_idx),
        };
        match picked {
            None => {
                done = true;
            },
            Some(b) => {
                let ghost pre_ss = sources@;
                let ghost pre_b = sources@[b as int];
                let ghost pos_entry = Seq::new(
                    origs.len(),
                    |j: int| run_start_of(origs[j], r as int) + idx@[j],
                );
                let ghost fuel_entry = run_total(orig, r as int) - idx_sum(idx@);
                let ghost pos = run_start(pre_b, r as int) + idx@[b as int];
                proof {
                    pre_b.lemma_inv_facts();
                    lemma_runs_basic(pre_b.records());
                    let lens = pre_b.run_lens();
                    assert(min(r as int, lens.len() as int) == r as int);
                    lemma_psum_step(lens, r as int);
                    lemma_psum_bounds(lens, r as int + 1, lens.len() as int);
                    lemma_psum_full(lens);
                    lemma_psum_bounds(lens, 0, r as int);
                    lemma_psum_zero(lens);
                    assert(pos < pre_b.records().len());
                    assert(pre_b.unread().len() == pre_b.records().len() - pos);
                    lemma_ceil_div_bounds(pre_b.cursor(), cap);
                }
                let got = {
                    let t = vec_index_mut(sources, b);
                    t.next_record()
                };
                let rec = match got {
                    Ok(rec) => rec,
                    Err(_) => {
                        proof {
                            assert(false);
                        }
                        return Err(SortError::Internal);
                    },
                };
                let ghost new_b = sources@[b as int];
                proof {
                    assert(sources@ == pre_ss.update(b as int, new_b));
                    assert(rec == pre_b.unread()[0]);
                    assert(rec == src_head(pre_b, r as int, idx@[b as int] as int));
                    assert(new_b.unread() =~= new_b.records().skip(pos + 1));
                    // conservation: the record moved out of the unread pool
                    lemma_tapes_unread_multiset_update(pre_ss, b as int, new_b);
                    lemma_to_multiset_first(pre_b.unread());
                    assert(pre_b.unread().skip(1) =~= new_b.unread());
                    assert(pre_b.unread().to_multiset() == new_b.unread().to_multiset().insert(rec));
                    lemma_add_insert_cancel(
                        tapes_unread_multiset(pre_ss),
                        tapes_unread_multiset(sources@),
                        new_b.unread().to_multiset(),
                        rec,
                    );
                    assert(tapes_unread_multiset(pre_ss) == tapes_unread_multiset(sources@).insert(rec));
                    // room for one more record on the target
                    lemma_tapes_unread_len_ge(pre_ss, b as int);
                    assert(target.records().to_multiset().len() + tapes_unread_multiset(pre_ss).len()
                        == total.len());
                    assert(pre_b.unread().len() >= 1);
                    assert(target.records().len() < usize::MAX);
                    assert(target.ops() <= target.stored() <= target.records().len());
                }
                let ghost pre_t = *target;
                target.push(rec);
                proof {
                    // conservation after the push
                    assert(target.records() == pre_t.records().push(rec));
                    assert(pre_t.records().push(rec).to_multiset() == pre_t.records().to_multiset().insert(
                        rec,
                    ));
                    assert forall|e: R|
                        target.records().to_multiset().add(tapes_unread_multiset(sources@)).count(e)
                            == total.count(e) by {
                        assert(pre_t.records().to_multiset().add(tapes_unread_multiset(pre_ss)).count(e)
                            == total.count(e));
                    }
                    assert(target.records().to_multiset().add(tapes_unread_multiset(sources@)) =~= total);
                    // page accounting
                    let opsb = pre_t.ops();
                    assert((opsb + 1) * cap == opsb * cap + cap) by (nonlinear_arith);
                    // run bookkeeping
                    lemma_runs_push(pre_t.records(), rec);
                    lemma_runs_basic(pre_t.records());
                    lemma_runs_basic(target.records());
                    if idx_sum(idx@) >= 1 {
                        assert(pre_t.records().last().key() <= rec.key());
                        lemma_seq_max_update_last(
                            pre_t.run_lens(),
                            pre_t.run_lens().last() + 1,
                        );
                    } else {
                        assert(pre_t == target0);
                        if pre_t.records().len() > 0 {
                            if rec.key() < pre_t.records().last().key() {
                                lemma_seq_max_push(pre_t.run_lens(), 1);
                            } else {
                                lemma_seq_max_update_last(
                                    pre_t.run_lens(),
                                    pre_t.run_lens().last() + 1,
                                );
                            }
                        }
                    }
                }
                let v = idx[b];
                let ghost old_map = idx@.map_values(|x: usize| x as int);
                proof {
                    lemma_seq_sum_entry_nonneg(old_map, b as int);
                }
                idx[b] = v + 1;
                proof {
                    assert(idx@.map_values(|x: usize| x as int) =~= old_map.update(b as int, v + 1));
                    lemma_seq_sum_update(old_map, b as int, v + 1);
                    assert forall|j: int|
                        0 <= j < orig.len() implies idx@[j] as int <= run_len_at(
                        #[trigger] orig[j],
                        r as int,
                    ) by {
                        assert(idx@[j] as int <= run_len_at(sources@[j], r as int));
                    }
                    lemma_idx_le_run_total(orig, r as int, idx@);
                    // new head of the popped source stays above the record taken
                    if (idx@[b as int] as int) < run_len_at(new_b, r as int) {
                        lemma_within_run_adjacent(new_b.records(), r as int, pos);
                    }
                    // the merge machine takes this very record
                    lemma_run_total_as_bounds(orig, r as int);
                    let pos_old = pos_entry;
                    assert(pos_old =~= Seq::new(
                        origs.len(),
                        |j: int| run_start_of(origs[j], r as int) + old_map[j],
                    ));
                    let heads = round_heads(origs, pos_old, rends);
                    assert forall|j: int| 0 <= j < origs.len() implies #[trigger] heads[j] == (
                    if (old_map[j] as int) < run_len_at(pre_ss[j], r as int) {
                        Some(src_head(pre_ss[j], r as int, old_map[j]))
                    } else {
                        None::<R>
                    }) by {
                        assert(pre_ss[j].inv());
                        assert(orig[j].records() == pre_ss[j].records());
                        assert(pre_ss[j].run_lens() == runs_of(pre_ss[j].records()));
                        assert(run_start(pre_ss[j], r as int) == run_start_of(origs[j], r as int));
                        assert(run_len_at(orig[j], r as int) == rends[j] - run_start_of(
                            origs[j],
                            r as int,
                        ));
                    }
                    assert(heads[b as int] is Some);
                    assert forall|j: int|
                        0 <= j < origs.len() && (#[trigger] heads[j]) is Some implies (
                    heads[b as int]->Some_0).key() <= (heads[j]->Some_0).key() by {
                        assert(rec.key() <= src_head(pre_ss[j], r as int, old_map[j]).key());
                    }
                    assert forall|j: int|
                        0 <= j < b as int && (#[trigger] heads[j]) is Some implies (
                    heads[b as int]->Some_0).key() < (heads[j]->Some_0).key() by {
                        assert(rec.key() < src_head(pre_ss[j], r as int, old_map[j]).key());
                    }
                    lemma_pick_min_is(heads, 0, b as int);
                    let fuel_old = fuel_entry;
                    assert(fuel_old == run_total(orig, r as int) - seq_sum(old_map));
                    assert(seq_sum(idx@.map_values(|x: usize| x as int)) == seq_sum(old_map) + 1);
                    assert(fuel_old >= 1);
                    assert(merge_round_rec(origs, pos_old, rends, fuel_old as nat) == seq![
                        origs[b as int][pos_old[b as int]],
                    ] + merge_round_rec(
                        origs,
                        pos_old.update(b as int, pos_old[b as int] + 1),
                        rends,
                        (fuel_old - 1) as nat,
                    ));
                    assert(origs[b as int][pos_old[b as int]] == rec);
                    assert(pos_old.update(b as int, pos_old[b as int] + 1) =~= Seq::new(
                        origs.len(),
                        |j: int| run_start_of(origs[j], r as int) + idx@[j],
                    ));
                    // the record also went onto the end of the target
                    assert(target.records() == pre_t.records().push(rec));
                    assert(target.records().take(len0) =~= pre_t.records().take(len0));
                    assert(target.records().skip(len0) =~= pre_t.records().skip(len0) + seq![rec]);
                    assert(pre_t.records().skip(len0) + (seq![rec] + merge_round_rec(
                        origs,
                        pos_old.update(b as int, pos_old[b as int] + 1),
                        rends,
                        (fuel_old - 1) as nat,
                    )) =~= (pre_t.records().skip(len0) + seq![rec]) + merge_round_rec(
                        origs,
                        pos_old.update(b as int, pos_old[b as int] + 1),
                        rends,
                        (fuel_old - 1) as nat,
                    ));
                }
            },
        }
    }
    proof {
        assert forall|j: int|
            0 <= j < orig.len() implies (#[trigger] sources@[j]).unread()
            == sources@[j].records().skip(run_start(sources@[j], r as int + 1)) by {
            let t = sources@[j];
            t.lemma_inv_facts();
            lemma_runs_basic(t.records());
            let lens = t.run_lens();
            if (r as int) < lens.len() {
                assert(min(r as int, lens.len() as int) == r as int);
                lemma_psum_step(lens, r as int);
                assert(run_start(t, r as int + 1) == run_start(t, r as int) + lens[r as int]);
            } else {
                assert(min(r as int, lens.len() as int) == lens.len() as int);
                assert(min(r as int + 1, lens.len() as int) == lens.len() as int);
                assert(run_len_at(t, r as int) == 0);
            }
        }
        assert forall|j: int|
            0 <= j < orig.len() implies idx@[j] as int == run_len_at(orig[j], r as int) by {
            assert(idx@[j] as int == run_len_at(sources@[j], r as int));
        }
        lemma_idx_le_run_total(orig, r as int, idx@);
        assert(idx_sum(idx@) == run_total(orig, r as int));
        // the machine has no fuel left: the round output is what was pushed
        assert(merge_round_rec(
            origs,
            Seq::new(origs.len(), |j: int| run_start_of(origs[j], r as int) + idx@[j]),
            rends,
            (run_total(orig, r as int) - idx_sum(idx@)) as nat,
        ) =~= Seq::<R>::empty());
        assert(target.records().skip(len0) + Seq::<R>::empty() =~= target.records().skip(len0));
        assert(merge_round_of(origs, r as int) == target.records().skip(len0));
        assert(target.records() =~= target.records().take(len0) + target.records().skip(len0));
        assert(target.records() == target0.records() + merge_round_of(origs, r as int));
        if idx_sum(idx@) >= 1 {
            assert(target.inv());
            lemma_runs_basic(target.records());
            assert(target.run_lens().len() > 0);
            lemma_seq_max_ge(target.run_lens(), target.run_lens().len() - 1);
        }
        assert forall|j: int|
            0 <= j < orig.len() implies run_len_at(#[trigger] sources@[j], r as int) <= seq_max(
            target.run_lens(),
        ) by {
            if idx_sum(idx@) >= 1 {
                lemma_seq_sum_entry_nonneg(idx@.map_values(|x: usize| x as int), j);
                assert(idx@[j] as int <= idx_sum(idx@));
            } else {
                lemma_idx_le_run_total(orig, r as int, idx@);
                lemma_seq_sum_entry_nonneg(idx@.map_values(|x: usize| x as int), j);
            }
        }
    }
    Ok(())
}


/// A set of rewound tapes has its whole content still unread.
pub proof fn lemma_tapes_unread_eq_records<R: Record>(ts: Seq<Tape<R>>)
    requires
        forall|j: int| 0 <= j < ts.len() ==> (#[trigger] ts[j]).rewound(),
    ensures
        tapes_unread_multiset(ts) == tapes_multiset(ts),
    decreases ts.len(),
{
    if ts.len() > 0 {
        lemma_tapes_unread_eq_records(ts.drop_last());
        assert(ts.last().rewound());
        assert(ts.last().unread() == ts.last().records());
    }
}

/// A set of drained tapes has nothing unread.
pub proof fn lemma_tapes_unread_empty<R: Record>(ts: Seq<Tape<R>>)
    requires
        forall|j: int| 0 <= j < ts.len() ==> (#[trigger] ts[j]).unread().len() == 0,
    ensures
        tapes_unread_multiset(ts) == Multiset::<R>::empty(),
    decreases ts.len(),
{
    if ts.len() > 0 {
        lemma_tapes_unread_empty(ts.drop_last());
        assert(ts.last().unread().len() == 0);
        assert(tapes_unread_multiset(ts) =~= Multiset::<R>::empty());
    }
}

pub proof fn lemma_seq_max_le_bound(s: Seq<int>, bound: int)
    requires
        forall|k: int| 0 <= k < s.len() ==> #[trigger] s[k] <= bound,
        bound >= 0,
    ensures
        seq_max(s) <= bound,
    decreases s.len(),
{
    if s.len() > 0 {
        lemma_seq_max_le_bound(s.drop_last(), bound);
    }
}

pub proof fn lemma_max_run_entry_le<R: Record>(ts: Seq<Tape<R>>, bound: int)
    requires
        forall|j: int| 0 <= j < ts.len() ==> seq_max((#[trigger] ts[j]).run_lens()) <= bound,
        bound >= 0,
    ensures
        max_run_entry(ts) <= bound,
    decreases ts.len(),
{
    if ts.len() > 0 {
        lemma_max_run_entry_le(ts.drop_last(), bound);
        assert(seq_max(ts.last().run_lens()) <= bound);
    }
}

/// Merge phase: combines the runs of the source tapes, run index by run
/// index, into longer sorted runs on the target tape, then flushes it. One
/// read pass over every source, one write pass onto the target. Runs never
/// shrink: the longest run afterwards is at least the longest run before.
pub fn merge<R: Record>(sources: &mut Vec<Tape<R>>, target: &mut Tape<R>) -> (res: Result<
    (),
    SortError,
>)
    requires
        1 <= old(sources)@.len(),
        forall|j: int|
            0 <= j < old(sources)@.len() ==> {
                let t = #[trigger] old(sources)@[j];
                &&& t.inv()
                &&& t.rewound()
                &&& t.capacity() == old(target).capacity()
                &&& 0 <= t.ops() <= OPS_BUDGET as int
            },
        old(target).inv(),
        old(target).cleared(),
        tapes_multiset(old(sources)@).len() < usize::MAX,
    ensures
        res is Ok,
        final(target).inv(),
        final(target).rewound(),
        final(target).capacity() == old(target).capacity(),
        final(target).records().to_multiset() == tapes_multiset(old(sources)@),
        final(target).records().len() == tapes_multiset(old(sources)@).len(),
        final(target).records() == merged_upto(
            records_of_tapes(old(sources)@),
            max_runs(old(sources)@),
        ),
        final(target).run_count() <= max_runs(old(sources)@),
        seq_max(final(target).run_lens()) >= max_run_entry(old(sources)@),
        final(target).ops() == ceil_div(final(target).records().len() as int, final(target).capacity()),
        final(sources)@.len() == old(sources)@.len(),
        forall|j: int|
            0 <= j < old(sources)@.len() ==> {
                let t = #[trigger] final(sources)@[j];
                &&& t.inv()
                &&& t.is_reading()
                &&& t.records() == old(sources)@[j].records()
                &&& t.unread().len() == 0
                &&& t.capacity() == old(sources)@[j].capacity()
                &&& t.ops() == old(sources)@[j].ops() + ceil_div(t.records().len() as int,
                    t.capacity())
            },
{
    let ghost orig = old(sources)@;
    let ghost total = tapes_multiset(old(sources)@);
    let ghost cap = old(target).capacity();
    let runs = max_run(sources);
    proof {
        lemma_tapes_unread_eq_records(orig);
        assert forall|j: int| 0 <= j < orig.len() implies {
            let t = #[trigger] sources@[j];
            &&& merge_source_ok(t, orig[j])
            &&& t.unread() == t.records().skip(run_start(t, 0))
        } by {
            let w = orig[j];
            assert(orig[j].inv());
            lemma_ceil_div_zero(cap);
            let lens = sources@[j].run_lens();
            assert(min(0int, lens.len() as int) == 0);
            lemma_psum_zero(lens);
            assert(sources@[j].records().skip(0) =~= sources@[j].records());
        }
        assert(target.records().to_multiset().add(tapes_unread_multiset(sources@)) =~= total);
        lemma_runs_basic(target.records());
    }
    let mut run: usize = 0;
    while run < runs
        invariant
            sources@.len() == orig.len(),
            1 <= orig.len(),
            runs as int == max_runs(orig),
            run <= runs,
            forall|j: int|
                0 <= j < orig.len() ==> {
                    let t0 = #[trigger] orig[j];
                    &&& t0.inv()
                    &&& 0 <= t0.ops() <= OPS_BUDGET as int
                    &&& t0.capacity() == cap
                },
            forall|j: int|
                0 <= j < orig.len() ==> {
                    let t = #[trigger] sources@[j];
                    &&& merge_source_ok(t, orig[j])
                    &&& t.unread() == t.records().skip(run_start(t, run as int))
                },
            target.inv(),
            write_accounted(*target),
            target.capacity() == cap,
            target.records().to_multiset().add(tapes_unread_multiset(sources@)) == total,
            total.len() < usize::MAX,
            total == tapes_multiset(orig),
            target.run_count() <= run as int,
            target.records() == merged_upto(records_of_tapes(orig), run as int),
            seq_max(target.run_lens()) >= 0,
            forall|j: int, r2: int|
                0 <= j < orig.len() && 0 <= r2 < run as int ==> #[trigger] run_len_at(orig[j], r2)
                    <= seq_max(target.run_lens()),
        decreases runs - run,
    {
        let ghost pre_max = seq_max(target.run_lens());
        let ghost pre_count = target.run_count();
        let ghost pre_ss = sources@;
        let got = merge_run(sources, target, run, Ghost(orig), Ghost(total));
        match got {
            Ok(_) => {},
            Err(_) => {
                proof {
                    assert(false);
                }
                return Err(SortError::Internal);
            },
        }
        proof {
            assert forall|j: int, r2: int|
                0 <= j < orig.len() && 0 <= r2 < run as int + 1 implies #[trigger] run_len_at(
                orig[j],
                r2,
            ) <= seq_max(target.run_lens()) by {
                if r2 < run as int {
                    assert(run_len_at(orig[j], r2) <= pre_max);
                } else {
                    assert(run_len_at(pre_ss[j], run as int) == run_len_at(orig[j], run as int));
                    assert(run_len_at(sources@[j], run as int) <= seq_max(target.run_lens()));
                    assert(sources@[j].records() == pre_ss[j].records());
                    assert(sources@[j].inv() && pre_ss[j].inv());
                    assert(run_len_at(sources@[j], run as int) == run_len_at(
                        pre_ss[j],
                        run as int,
                    ));
                }
            }
        }
        run += 1;
    }
    proof {
        assert forall|j: int| 0 <= j < orig.len() implies (#[trigger] sources@[j]).unread().len()
            == 0 by {
            let t = sources@[j];
            t.lemma_inv_facts();
            lemma_runs_basic(t.records());
            let lens = t.run_lens();
            lemma_max_runs_ge(orig, j);
            assert(orig[j].inv());
            assert(orig[j].run_count() == lens.len());
            assert(lens.len() <= runs as int);
            assert(min(runs as int, lens.len() as int) == lens.len() as int);
            lemma_psum_full(lens);
            assert(run_start(t, runs as int) == t.records().len());
            assert(t.records().skip(t.records().len() as int).len() == 0);
        }
        lemma_tapes_unread_empty(sources@);
        assert(target.records().to_multiset() =~= total);
        vstd::seq_lib::to_multiset_len(target.records());
        // the longest source run fits under the longest merged run
        assert forall|j: int| 0 <= j < orig.len() implies seq_max(
            (#[trigger] orig[j]).run_lens(),
        ) <= seq_max(target.run_lens()) by {
            assert(orig[j].inv());
            lemma_runs_basic(orig[j].records());
            lemma_max_runs_ge(orig, j);
            assert forall|k: int|
                0 <= k < orig[j].run_lens().len() implies #[trigger] orig[j].run_lens()[k]
                <= seq_max(target.run_lens()) by {
                assert(run_len_at(orig[j], k) <= seq_max(target.run_lens()));
            }
            lemma_seq_max_le_bound(orig[j].run_lens(), seq_max(target.run_lens()));
        }
        lemma_max_run_entry_le(orig, seq_max(target.run_lens()));
        assert(target.ops() <= target.stored() <= target.records().len());
    }
    let ghost pre_t = *target;
    target.flush();
    proof {
        let len = pre_t.records().len() as int;
        let opsb = pre_t.ops();
        if len == 0 {
            lemma_ceil_div_zero(cap);
        } else {
            let bu = pre_t.buffered();
            assert(cap * ((opsb + 1) - 1) < len && len <= cap * (opsb + 1)) by (nonlinear_arith)
                requires
                    opsb * cap == len - bu,
                    1 <= bu <= cap,
            ;
            lemma_ceil_div_char(len, cap, opsb + 1);
        }
        assert forall|j: int| 0 <= j < orig.len() implies {
            let t = #[trigger] sources@[j];
            &&& t.ops() == orig[j].ops() + ceil_div(t.records().len() as int, t.capacity())
        } by {
            assert(merge_source_ok(sources@[j], orig[j]));
            assert(sources@[j].cursor() == sources@[j].records().len());
        }
    }
    Ok(())
}


/// How many records a set of tapes holds in all.
pub open spec fn tapes_records_total<R: Record>(ts: Seq<Tape<R>>) -> int
    decreases ts.len(),
{
    if ts.len() == 0 {
        0
    } else {
        tapes_records_total(ts.drop_last()) + ts.last().records().len()
    }
}

pub proof fn lemma_tapes_records_total<R: Record>(ts: Seq<Tape<R>>)
    ensures
        tapes_records_total(ts) == tapes_multiset(ts).len(),
    decreases ts.len(),
{
    if ts.len() > 0 {
        lemma_tapes_records_total(ts.drop_last());
        vstd::seq_lib::to_multiset_len(ts.last().records());
    }
}

pub proof fn lemma_tapes_records_total_take<R: Record>(ts: Seq<Tape<R>>, k: int)
    requires
        0 <= k < ts.len(),
    ensures
        tapes_records_total(ts.take(k + 1)) == tapes_records_total(ts.take(k)) + ts[
            k
        ].records().len(),
        tapes_records_total(ts.take(k + 1)) <= tapes_records_total(ts),
    decreases ts.len() - k,
{
    assert(ts.take(k + 1).drop_last() =~= ts.take(k));
    assert(ts.take(k + 1).last() == ts[k]);
    if k + 1 == ts.len() {
        assert(ts.take(k + 1) =~= ts);
    } else {
        lemma_tapes_records_total_take(ts, k + 1);
    }
}

/// Tape sets with the same records tape for tape hold the same multiset.
pub proof fn lemma_tapes_multiset_congr<R: Record>(ts1: Seq<Tape<R>>, ts2: Seq<Tape<R>>)
    requires
        ts1.len() == ts2.len(),
        forall|j: int| 0 <= j < ts1.len() ==> (#[trigger] ts1[j]).records() == ts2[j].records(),
    ensures
        tapes_multiset(ts1) == tapes_multiset(ts2),
    decreases ts1.len(),
{
    if ts1.len() > 0 {
        assert forall|j: int|
            0 <= j < ts1.drop_last().len() implies (#[trigger] ts1.drop_last()[j]).records()
            == ts2.drop_last()[j].records() by {
            assert(ts1.drop_last()[j] == ts1[j]);
            assert(ts2.drop_last()[j] == ts2[j]);
        }
        lemma_tapes_multiset_congr(ts1.drop_last(), ts2.drop_last());
        assert(ts1.last().records() == ts2.last().records());
        assert(tapes_multiset(ts1) =~= tapes_multiset(ts2));
    }
}

/// No tape of a set holds more records than the set in all.
pub proof fn lemma_tapes_records_total_bounds<R: Record>(ts: Seq<Tape<R>>, j: int)
    requires
        0 <= j < ts.len(),
    ensures
        ts[j].records().len() <= tapes_records_total(ts),
        tapes_records_total(ts) >= 0,
    decreases ts.len(),
{
    if ts.len() > 0 {
        if j < ts.len() - 1 {
            lemma_tapes_records_total_bounds(ts.drop_last(), j);
            assert(ts.drop_last()[j] == ts[j]);
        } else {
            if ts.len() >= 2 {
                lemma_tapes_records_total_bounds(ts.drop_last(), 0);
            }
        }
    }
}

/// The greatest run count of a set is bounded by any bound on the members.
pub proof fn lemma_max_runs_le<R: Record>(ts: Seq<Tape<R>>, bound: int)
    requires
        forall|j: int| 0 <= j < ts.len() ==> (#[trigger] ts[j]).run_count() <= bound,
        bound >= 0,
    ensures
        max_runs(ts) <= bound,
    decreases ts.len(),
{
    if ts.len() > 0 {
        lemma_max_runs_le(ts.drop_last(), bound);
        assert(ts.last().run_count() <= bound);
    }
}


/// The greatest run count across a set of contents.
pub open spec fn max_runs_of<R: Record>(parts: Seq<Seq<R>>) -> int
    decreases parts.len(),
{
    if parts.len() == 0 {
        0
    } else if runs_of(parts.last()).len() >= max_runs_of(parts.drop_last()) {
        runs_of(parts.last()).len() as int
    } else {
        max_runs_of(parts.drop_last())
    }
}

/// On well-formed tapes the two run-count maxima agree.
pub proof fn lemma_max_runs_bridge<R: Record>(ts: Seq<Tape<R>>)
    requires
        forall|j: int| 0 <= j < ts.len() ==> (#[trigger] ts[j]).inv(),
    ensures
        max_runs(ts) == max_runs_of(records_of_tapes(ts)),
    decreases ts.len(),
{
    if ts.len() > 0 {
        assert forall|j: int|
            0 <= j < ts.drop_last().len() implies (#[trigger] ts.drop_last()[j]).inv() by {
            assert(ts.drop_last()[j] == ts[j]);
        }
        lemma_max_runs_bridge(ts.drop_last());
        assert(records_of_tapes(ts).drop_last() =~= records_of_tapes(ts.drop_last()));
        assert(ts.last().inv());
        assert(ts.last().run_count() == runs_of(ts.last().records()).len());
        assert(records_of_tapes(ts).last() == ts.last().records());
    } else {
        assert(records_of_tapes(ts).len() == 0);
    }
}

/// One full phase: the content dealt round robin over `n` tapes, then
/// their runs merged back, round by round.
pub open spec fn phase_next<R: Record>(s: Seq<R>, n: int) -> Seq<R> {
    let parts = Seq::new(n as nat, |j: int| dealt(s, n, j));
    merged_upto(parts, max_runs_of(parts))
}

/// The content after `k` distribute-and-merge phases.
pub open spec fn contents_after<R: Record>(s: Seq<R>, n: int, k: int) -> Seq<R>
    decreases k,
{
    if k <= 0 {
        s
    } else {
        phase_next(contents_after(s, n, k - 1), n)
    }
}


/// One sequential pass over a set of contents, in page units.
pub open spec fn slots_ops<R: Record>(parts: Seq<Seq<R>>, cap: int) -> int
    decreases parts.len(),
{
    if parts.len() == 0 {
        0
    } else {
        slots_ops(parts.drop_last(), cap) + ceil_div(parts.last().len() as int, cap)
    }
}

pub proof fn lemma_slots_ops_take<R: Record>(parts: Seq<Seq<R>>, cap: int, j: int)
    requires
        0 <= j < parts.len(),
    ensures
        slots_ops(parts.take(j + 1), cap) == slots_ops(parts.take(j), cap) + ceil_div(
            parts[j].len() as int,
            cap,
        ),
{
    assert(parts.take(j + 1).drop_last() =~= parts.take(j));
    assert(parts.take(j + 1).last() == parts[j]);
}

/// The disk operations one phase costs beyond the source's prior counter:
/// the distribute read pass, then a write pass and a read pass over the
/// dealt work tapes.
pub open spec fn phase_ops<R: Record>(s: Seq<R>, n: int, cap: int) -> int {
    ceil_div(s.len() as int, cap) + 2 * slots_ops(
        Seq::new(n as nat, |j: int| dealt(s, n, j)),
        cap,
    )
}

/// The disk operations phases `0 .. k` cost.
pub open spec fn phases_ops<R: Record>(s: Seq<R>, n: int, k: int, cap: int) -> int
    decreases k,
{
    if k <= 0 {
        0
    } else {
        phases_ops(s, n, k - 1, cap) + phase_ops(contents_after(s, n, k - 1), n, cap)
    }
}

/// Sorted if and only if one run: the convergence test of the phase loop.
pub fn is_sorted<R: Record>(t: &Tape<R>) -> (b: bool)
    ensures
        b == (t.run_count() == 1),
{
    t.runs() == 1
}

/// Clears every tape of a set for the next phase.
pub fn clear_tapes<R: Record>(tapes: &mut Vec<Tape<R>>)
    requires
        forall|j: int| 0 <= j < old(tapes)@.len() ==> (#[trigger] old(tapes)@[j]).inv(),
    ensures
        final(tapes)@.len() == old(tapes)@.len(),
        forall|j: int|
            0 <= j < old(tapes)@.len() ==> {
                let t = #[trigger] final(tapes)@[j];
                &&& t.inv()
                &&& t.cleared()
                &&& t.capacity() == old(tapes)@[j].capacity()
            },
{
    let mut j: usize = 0;
    let n = tapes.len();
    while j < n
        invariant
            tapes@.len() == n as int,
            j <= n,
            forall|jj: int|
                j as int <= jj < n as int ==> (#[trigger] tapes@[jj]) == old(tapes)@[jj],
            forall|jj: int| 0 <= jj < n as int ==> (#[trigger] old(tapes)@[jj]).inv(),
            forall|jj: int|
                0 <= jj < j as int ==> {
                    let t = #[trigger] tapes@[jj];
                    &&& t.inv()
                    &&& t.cleared()
                    &&& t.capacity() == old(tapes)@[jj].capacity()
                },
        decreases n - j,
    {
        let ghost pre = tapes@;
        let t = vec_index_mut(tapes, j);
        t.clear();
        proof {
            assert(tapes@ == pre.update(j as int, tapes@[j as int]));
        }
        j += 1;
    }
}

/// Ceiling of the base-two logarithm, by repeated halving.
pub fn ceil_log2(r: usize) -> (p: usize)
    requires
        r >= 1,
    ensures
        p as int == clog2(r as int),
        p <= 64,
{
    let mut x = r;
    let mut p: usize = 0;
    proof {
        lemma_clog2_nonneg(r as int);
        lemma_pow2_64();
        lemma_clog2_pow2(r as int, 64);
    }
    while x > 1
        invariant
            x >= 1,
            clog2(r as int) == p + clog2(x as int),
            clog2(r as int) <= 64,
            p + clog2(x as int) >= p,
        decreases x,
    {
        proof {
            lemma_clog2_nonneg(x as int);
            lemma_clog2_nonneg(ceil_div(x as int, 2));
            assert((x as int - 1) / 2 + 1 == (x as int + 1) / 2) by (nonlinear_arith)
                requires
                    x >= 2,
            ;
        }
        x = (x - 1) / 2 + 1;
        p = p + 1;
    }
    p
}

/// The report a sort hands back: the phases it ran, the disk operations it
/// observed, and the theoretical equivalents of the cost model.
#[derive(Clone, Copy, Debug, PartialEq, Eq, Structural)]
pub struct SortInfo {
    /// Distribute-and-merge rounds performed.
    pub number_of_phases: usize,
    /// Disk operations observed: zero when no phase ran; otherwise the sum,
    /// over every phase, of the source tape's counter after its distribute
    /// read pass and the work tapes' counters after the merge, plus the
    /// result tape's counter (the final merge's write pass) once at the
    /// end. The input tape's pre-sort counter rides along in the first
    /// phase's sample, as a phase-end summation of live counters has it.
    pub disk_ops: u128,
    /// The phase count the cost model predicts: `ceil(log2(R))` for `R`
    /// initial natural runs.
    pub teor_number_of_phases: usize,
    /// The disk operations the cost model predicts: a read and a write pass
    /// for distribute and for merge, each phase, at one operation per page.
    pub teor_disk_ops: u128,
}

/// Sorts the records of `target` in place by natural merge sort with fan-in
/// `n`: repeatedly deals the tape's natural runs round robin onto `n` fresh
/// work tapes and merges them back, until a single run remains. On success
/// the tape holds the same records, sorted, as one run.
///
/// Each phase turns `R` runs into at most `ceil(R / n)`, so the phase count
/// never exceeds `ceil(log2(R))` for `R` initial natural runs, whatever the
/// fan-in; runs that happen to meet in order coalesce and can only speed
/// convergence up. The outcome is exact: the result is `contents_after`
/// applied for exactly as many phases as it takes to reach one run, and
/// the report's disk-operation count follows the cost model pinned in the
/// contract.
pub fn sort<R: Record>(target: &mut Tape<R>, n: usize, ctx: &mut TapeContext) -> (res: Result<
    SortInfo,
    SortError,
>)
    requires
        old(target).inv(),
        !old(target).is_reading() || old(target).rewound(),
        old(target).ops() < OPS_BUDGET as int,
        old(target).records().len() < usize::MAX,
        old(ctx).issued() + n <= usize::MAX,
    ensures
        n < 2 ==> res == Err::<SortInfo, SortError>(SortError::InvalidFanIn) && *final(target)
            == *old(target),
        n >= 2 && old(target).records().len() == 0 ==> res == Err::<SortInfo, SortError>(
            SortError::EmptyInput,
        ) && *final(target) == *old(target),
        n >= 2 && old(target).records().len() > 0 ==> res is Ok,
        (res is Ok) ==> ({
            let info = res->Ok_0;
            let r0 = runs_of(old(target).records()).len();
            let m = old(target).records().len() as int;
            &&& final(target).inv()
            &&& final(target).rewound()
            &&& final(target).capacity() == old(target).capacity()
            &&& sorted(final(target).records())
            &&& final(target).records().to_multiset() == old(target).records().to_multiset()
            &&& final(target).records().len() == old(target).records().len()
            &&& final(target).run_count() == 1
            &&& final(target).records() == contents_after(
                old(target).records(),
                n as int,
                info.number_of_phases as int,
            )
            &&& forall|k: int|
                0 <= k < info.number_of_phases as int ==> runs_of(
                    #[trigger] contents_after(old(target).records(), n as int, k),
                ).len() > 1
            &&& info.number_of_phases as int <= clog2(r0 as int)
            &&& (info.number_of_phases == 0 <==> r0 == 1)
            &&& (info.number_of_phases == 0 ==> info.disk_ops == 0)
            &&& (info.number_of_phases >= 1 ==> info.disk_ops as int == old(target).ops() + (
            if old(target).is_reading() || old(target).buffered() == 0 {
                0int
            } else {
                1int
            }) + (info.number_of_phases as int) * ceil_div(m, old(target).capacity())
                + phases_ops(old(target).records(), n as int, info.number_of_phases as int, old(
                target,
            ).capacity()))
            &&& info.teor_number_of_phases as int == clog2(r0 as int)
            &&& info.teor_disk_ops as int == 4 * m * clog2(r0 as int) / old(target).capacity()
            &&& (r0 == 1 ==> info.number_of_phases == 0 && final(target).records() == old(
                target,
            ).records())
        }),
{
    if n < 2 {
        return Err(SortError::InvalidFanIn);
    }
    let m = target.record_count();
    if m == 0 {
        return Err(SortError::EmptyInput);
    }
    if !target.reading() {
        target.flush();
    }
    let ghost base_ops = target.ops();
    proof {
        assert(base_ops == old(target).ops() + (if old(target).is_reading() || old(
            target,
        ).buffered() == 0 {
            0int
        } else {
            1int
        }));
    }
    let cap = target.page_capacity();
    let r0 = target.runs();
    let ghost m0 = old(target).records().to_multiset();
    let ghost s0 = old(target).records();
    proof {
        assert(target.records() == s0);
        lemma_runs_basic(s0);
        assert(r0 as int == runs_of(s0).len());
        assert(r0 >= 1);
        lemma_clog2_nonneg(r0 as int);
        lemma_pow2_64();
        lemma_clog2_pow2(r0 as int, 64);
    }
    let teor_phases = ceil_log2(r0);
    let mut work: Vec<Tape<R>> = Vec::new();
    let mut k: usize = 0;
    while k < n
        invariant
            work@.len() == k as int,
            k <= n,
            ctx.issued() <= old(ctx).issued() + k,
            ctx.issued() + (n - k) <= usize::MAX,
            cap >= 1,
            forall|j: int|
                0 <= j < k as int ==> {
                    let t = #[trigger] work@[j];
                    &&& t.inv()
                    &&& t.cleared()
                    &&& t.capacity() == cap as int
                },
        decreases n - k,
    {
        let t = Tape::new(ctx, cap);
        work.push(t);
        k += 1;
    }
    let mut phases: usize = 0;
    let mut disk_ops: u128 = 0;
    while target.runs() != 1
        invariant
            n >= 2,
            cap >= 1,
            m >= 1,
            target.inv(),
            target.rewound(),
            target.capacity() == cap as int,
            target.records().to_multiset() == m0,
            target.records().len() == m as int,
            target.run_count() >= 1,
            phases as int + clog2(target.run_count()) <= clog2(r0 as int),
            clog2(r0 as int) <= 64,
            target.ops() <= if phases == 0 {
                OPS_BUDGET as int
            } else {
                m as int
            },
            target.ops() == if phases == 0 {
                base_ops
            } else {
                ceil_div(m as int, cap as int)
            },
            base_ops == old(target).ops() + (if old(target).is_reading() || old(
                target,
            ).buffered() == 0 {
                0int
            } else {
                1int
            }),
            phases >= 1 ==> disk_ops as int == base_ops + (phases as int - 1) * ceil_div(
                m as int,
                cap as int,
            ) + phases_ops(s0, n as int, phases as int, cap as int),
            (m as int) < usize::MAX,
            usize::MAX <= 0xFFFFFFFFFFFFFFFF,
            work@.len() == n as int,
            forall|j: int|
                0 <= j < n as int ==> {
                    let t = #[trigger] work@[j];
                    &&& t.inv()
                    &&& t.cleared()
                    &&& t.capacity() == cap as int
                },
            disk_ops as int <= 0x100000000000000000000 * (2 + 2 * (phases as int)),
            phases == 0 ==> disk_ops == 0,
            OPS_BUDGET as int == 0x100000000000000000000,
            phases as int <= clog2(r0 as int),
            r0 as int == runs_of(s0).len(),
            phases == 0 ==> target.run_count() == r0 as int && target.records() == s0,
            r0 == 1 ==> phases == 0 && target.records() == s0,
            target.records() == contents_after(s0, n as int, phases as int),
            forall|k: int|
                0 <= k < phases as int ==> runs_of(
                    #[trigger] contents_after(s0, n as int, k),
                ).len() > 1,
        decreases target.run_count(),
    {
        let ghost count_pre = target.run_count();
        let ghost t_ops_pre = target.ops();
        let ghost disk_entry = disk_ops as int;
        proof {
            assert(count_pre >= 2);
            lemma_clog2_nonneg(ceil_div(count_pre, 2));
            assert(clog2(count_pre) >= 1);
            assert(phases as int <= 63);
        }
        let got = distribute(target, &mut work);
        let runs_now = match got {
            Ok((runs_now, _)) => runs_now,
            Err(_) => {
                proof {
                    assert(false);
                }
                return Err(SortError::Internal);
            },
        };
        proof {
            assert(runs_now as int == count_pre);
            lemma_ceil_div_bounds(m as int, cap as int);
            assert(target.ops() <= t_ops_pre + (m as int));
            assert(OPS_BUDGET as int == 0x100000000000000000000);
            assert(disk_entry <= 0x100000000000000000000 * 130);
            assert(disk_ops as int + target.ops() <= disk_entry + 0x100000000000000000000 + (
            m as int));
            assert(disk_ops as int + target.ops() < u128::MAX as int);
        }
        disk_ops = disk_ops + target.disk_ops();
        let ghost disk_after_src = disk_ops as int;
        target.clear();
        let ghost work_pre = work@;
        proof {
            lemma_tapes_records_total(work_pre);
            vstd::seq_lib::to_multiset_len(s0);
            assert(tapes_multiset(work_pre).len() == m as int);
        }
        let got2 = merge(&mut work, target);
        match got2 {
            Ok(_) => {},
            Err(_) => {
                proof {
                    assert(false);
                }
                return Err(SortError::Internal);
            },
        }
        proof {
            // the merged tape holds everything again, in at most half the runs
            assert(target.records().to_multiset() == m0);
            vstd::seq_lib::to_multiset_len(target.records());
            assert(target.records().len() == m as int);
            lemma_runs_basic(target.records());
            assert(target.run_count() >= 1);
            assert forall|j: int| 0 <= j < n as int implies (#[trigger] work_pre[j]).run_count()
                <= ceil_div(count_pre, 2) by {
                assert(work_pre[j].run_count() <= ceil_div(count_pre, n as int));
                lemma_ceil_div_divisor(count_pre, n as int, 2);
            }
            lemma_ceil_div_bounds(count_pre, 2);
            lemma_max_runs_le(work_pre, ceil_div(count_pre, 2));
            assert(target.run_count() <= max_runs(work_pre));
            assert(target.run_count() <= ceil_div(count_pre, 2));
            // the phase bound ticks down with the halving
            assert(count_pre >= 2);
            assert(clog2(count_pre) == 1 + clog2(ceil_div(count_pre, 2)));
            lemma_clog2_mono(target.run_count(), ceil_div(count_pre, 2));
            lemma_clog2_nonneg(target.run_count());
            assert(phases as int + 1 + clog2(target.run_count()) <= clog2(r0 as int));
            // each work tape cost one write pass and one read pass
            assert forall|j: int| 0 <= j < n as int implies {
                let t = #[trigger] work@[j];
                &&& t.inv()
                &&& t.ops() <= 2 * t.records().len()
                &&& t.ops() == 2 * ceil_div(t.records().len() as int, cap as int)
            } by {
                assert(work@[j].records() == work_pre[j].records());
                assert(work_pre[j].ops() == ceil_div(work_pre[j].records().len() as int,
                    work_pre[j].capacity()));
                lemma_ceil_div_bounds(work_pre[j].records().len() as int, cap as int);
                assert(work@[j].ops() == work_pre[j].ops() + ceil_div(
                    work@[j].records().len() as int,
                    work@[j].capacity(),
                ));
                if work@[j].records().len() == 0 {
                    lemma_ceil_div_zero(cap as int);
                }
            }
            lemma_tapes_multiset_congr(work@, work_pre);
            lemma_tapes_records_total(work@);
            assert(tapes_records_total(work@) == m as int);
            // this pass was exactly one spec-level phase
            let cur = contents_after(s0, n as int, phases as int);
            let parts = Seq::new(n as nat, |j: int| dealt(cur, n as int, j));
            assert(records_of_tapes(work_pre) =~= parts);
            assert forall|j: int| 0 <= j < work_pre.len() implies (#[trigger] work_pre[j]).inv() by {}
            lemma_max_runs_bridge(work_pre);
            assert(max_runs(work_pre) == max_runs_of(parts));
            assert(target.records() == merged_upto(parts, max_runs_of(parts)));
            assert(target.records() == phase_next(cur, n as int));
            assert(target.records() == contents_after(s0, n as int, phases as int + 1));
            assert(runs_of(cur).len() > 1);
        }
        // the work tapes' counters: a write pass and a read pass each
        proof {
            assert(tapes_records_total(work@.take(0)) == 0) by {
                assert(work@.take(0) =~= Seq::<Tape<R>>::empty());
            }
            assert(slots_ops(records_of_tapes(work@).take(0), cap as int) == 0) by {
                assert(records_of_tapes(work@).take(0) =~= Seq::<Seq<R>>::empty());
            }
            assert(OPS_BUDGET as int == 0x100000000000000000000);
            assert(disk_entry <= 0x100000000000000000000 * 130);
            assert(disk_ops as int <= disk_entry + 0x100000000000000000000 + (m as int));
            assert(disk_ops as int <= 0x100000000000000000000 * 132);
        }
        let mut j: usize = 0;
        let ghost dbase = disk_ops as int;
        while j < n
            invariant
                work@.len() == n as int,
                j <= n,
                forall|jj: int|
                    0 <= jj < n as int ==> {
                        let t = #[trigger] work@[jj];
                        &&& t.inv()
                        &&& t.ops() <= 2 * t.records().len()
                        &&& t.ops() == 2 * ceil_div(t.records().len() as int, cap as int)
                        &&& t.records().len() >= 0
                    },
                disk_ops as int == dbase + 2 * slots_ops(
                    records_of_tapes(work@).take(j as int),
                    cap as int,
                ),
                disk_ops as int <= dbase + 2 * tapes_records_total(work@.take(j as int)),
                tapes_records_total(work@.take(j as int)) <= tapes_records_total(work@),
                tapes_records_total(work@.take(j as int)) >= 0,
                tapes_records_total(work@) == m as int,
                0 <= dbase <= 0x100000000000000000000 * 132,
                disk_ops as int >= 0,
                (m as int) <= 0xFFFFFFFFFFFFFFFF,
                m >= 1,
            decreases n - j,
        {
            proof {
                lemma_tapes_records_total_take(work@, j as int);
                lemma_slots_ops_take(records_of_tapes(work@), cap as int, j as int);
                assert(records_of_tapes(work@)[j as int] == work@[j as int].records());
                let t = work@[j as int];
                assert(t.ops() <= 2 * t.records().len());
                assert(t.records().len() <= tapes_records_total(work@)) by {
                    lemma_tapes_records_total_bounds(work@, j as int);
                }
                assert(disk_ops as int + t.ops() < u128::MAX as int);
            }
            let d = work[j].disk_ops();
            disk_ops = disk_ops + d;
            j += 1;
        }
        proof {
            // the phase's cost is one source read pass plus a write and a
            // read pass over the dealt work tapes
            let cw = ceil_div(m as int, cap as int);
            let cur = contents_after(s0, n as int, phases as int);
            let parts = Seq::new(n as nat, |jj: int| dealt(cur, n as int, jj));
            assert(records_of_tapes(work@).take(n as int) =~= records_of_tapes(work@));
            assert forall|jj: int|
                0 <= jj < n as int implies #[trigger] records_of_tapes(work@)[jj] == dealt(
                cur,
                n as int,
                jj,
            ) by {
                assert(work@[jj].records() == work_pre[jj].records());
                assert(work_pre[jj].records() == dealt(cur, n as int, jj));
            }
            assert(records_of_tapes(work@) =~= parts);
            assert(disk_ops as int == dbase + 2 * slots_ops(parts, cap as int));
            assert(dbase == disk_entry + (if phases == 0 {
                base_ops
            } else {
                cw
            }) + cw);
            assert(cur.len() == m as int);
            assert(phases_ops(s0, n as int, phases as int + 1, cap as int) == phases_ops(
                s0,
                n as int,
                phases as int,
                cap as int,
            ) + phase_ops(cur, n as int, cap as int));
            assert(phase_ops(cur, n as int, cap as int) == cw + 2 * slots_ops(parts, cap as int))
                by {
                assert(Seq::new(n as nat, |jj: int| dealt(cur, n as int, jj)) =~= parts);
            }
            if phases >= 1 {
                let k = phases as int;
                assert(k * cw == (k - 1) * cw + cw) by (nonlinear_arith);
            }
            assert(disk_ops as int == base_ops + ((phases as int + 1) - 1) * cw + phases_ops(
                s0,
                n as int,
                phases as int + 1,
                cap as int,
            ));
        }
        clear_tapes(&mut work);
        proof {
            assert(disk_ops as int <= dbase + 2 * (m as int));
            assert(dbase <= disk_entry + 0x100000000000000000000 + (m as int));
            assert(disk_ops as int <= 0x100000000000000000000 * (2 + 2 * (phases as int + 1)));
        }
        phases = phases + 1;
    }
    proof {
        lemma_single_run_sorted(target.records());
        assert(target.ops() <= OPS_BUDGET as int + 1 + (m as int));
    }
    proof {
        lemma_clog2_nonneg(target.run_count());
        assert(phases as int <= clog2(r0 as int) <= 64);
        assert(disk_ops as int <= 0x100000000000000000000 * 130);
        assert(disk_ops as int + target.ops() < u128::MAX as int);
        assert(4 * (m as int) * (teor_phases as int) < u128::MAX as int) by (nonlinear_arith)
            requires
                0 <= m as int <= 0xFFFFFFFFFFFFFFFF,
                0 <= teor_phases as int <= 64,
                u128::MAX as int == 0xffffffffffffffffffffffffffffffff,
        ;
    }
    if phases > 0 {
        proof {
            let cw = ceil_div(m as int, cap as int);
            let k = phases as int;
            assert((k - 1) * cw + cw == k * cw) by (nonlinear_arith);
        }
        disk_ops = disk_ops + target.disk_ops();
    }
    let teor_disk_ops = 4u128 * (m as u128) * (teor_phases as u128) / (cap as u128);
    proof {
        assert(4 * (m as int) * (teor_phases as int) == (4u128 * (m as u128) * (teor_phases
            as u128)) as int) by (nonlinear_arith)
            requires
                m as int <= 0xFFFFFFFFFFFFFFFF,
                0 <= teor_phases <= 64,
        ;
    }
    Ok(
        SortInfo {
            number_of_phases: phases,
            disk_ops,
            teor_number_of_phases: teor_phases,
            teor_disk_ops,
        },
    )
}

} // verus!
