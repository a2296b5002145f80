use vstd::prelude::*;

use crate::file_handler::{FileHandler, StoreError, OPS_CEILING};
use crate::math::ceil_div;
use crate::record::Record;
use crate::runs::{lemma_runs_basic, lemma_runs_push, lemma_seq_sum_entry, runs_of, seq_sum};

verus! {

/// Hands out the identities of the tapes of one sorting context: a
/// monotonically increasing counter, threaded explicitly instead of living
/// in ambient global state, so independent sorts never collide.
pub struct TapeContext {
    next_id: usize,
}

impl TapeContext {
    /// How many identities have been handed out.
    pub closed spec fn issued(self) -> int {
        self.next_id as int
    }

    pub fn new() -> (ctx: Self)
        ensures
            ctx.issued() == 0,
    {
        TapeContext { next_id: 0 }
    }

    /// The next fresh identity; never handed out twice.
    pub fn fresh_id(&mut self) -> (id: usize)
        requires
            old(self).issued() < usize::MAX,
        ensures
            id == old(self).issued(),
            final(self).issued() == old(self).issued() + 1,
    {
        let id = self.next_id;
        self.next_id = self.next_id + 1;
        id
    }
}

/// A tape: one paged storage handler bound to a record kind, together with
/// the lengths of the sorted runs currently stored on it. The tape keeps
/// `run_len` equal to the maximal-run decomposition of its records: a push
/// whose key drops below the previous record's starts a new run, any other
/// push extends the last one.
pub struct Tape<R: Record> {
    id: usize,
    file: FileHandler<R>,
    run_len: Vec<usize>,
    last: Option<R>,
}

impl<R: Record> Tape<R> {
    /// Every record on the tape, in storage order.
    pub closed spec fn records(self) -> Seq<R> {
        self.file.records()
    }

    /// What a sequential read will still yield.
    pub closed spec fn unread(self) -> Seq<R> {
        self.file.unread()
    }

    /// The stored run lengths, as the mathematical sequence they represent.
    pub closed spec fn run_lens(self) -> Seq<int> {
        self.run_len@.map_values(|x: usize| x as int)
    }

    pub open spec fn run_count(self) -> int {
        self.run_lens().len() as int
    }

    pub closed spec fn capacity(self) -> int {
        self.file.capacity()
    }

    pub closed spec fn ops(self) -> int {
        self.file.ops()
    }

    pub closed spec fn cursor(self) -> int {
        self.file.cursor()
    }

    pub closed spec fn buffered(self) -> int {
        self.file.buffered()
    }

    pub closed spec fn stored(self) -> int {
        self.file.stored()
    }

    pub closed spec fn is_reading(self) -> bool {
        self.file.is_reading()
    }

    pub closed spec fn id_of(self) -> int {
        self.id as int
    }

    /// Rewound and ready for a full sequential read.
    pub open spec fn rewound(self) -> bool {
        &&& self.is_reading()
        &&& self.cursor() == 0
        &&& self.buffered() == 0
        &&& self.unread() == self.records()
    }

    /// Cleared: writing, empty, counter at zero, no runs recorded.
    pub open spec fn cleared(self) -> bool {
        &&& !self.is_reading()
        &&& self.records().len() == 0
        &&& self.ops() == 0
        &&& self.run_count() == 0
    }

    /// The tape's invariant: the handler is well formed, and `run_len` is
    /// exactly the maximal-run decomposition of the records stored, with
    /// `last` remembering the most recently stored record.
    pub closed spec fn inv(self) -> bool {
        &&& self.file.inv()
        &&& self.run_lens() == runs_of(self.records())
        &&& self.last == if self.records().len() == 0 {
            None::<R>
        } else {
            Some(self.records().last())
        }
    }

    /// What every well-formed tape guarantees, stated over the public view
    /// functions so that callers outside this module can use it.
    pub broadcast proof fn lemma_inv_facts(self)
        requires
            #[trigger] self.inv(),
        ensures
            self.capacity() >= 1,
            0 <= self.buffered() <= self.capacity(),
            self.ops() >= 0,
            self.stored() >= 0,
            self.run_lens() == runs_of(self.records()),
            self.run_count() == runs_of(self.records()).len(),
            self.records().len() <= usize::MAX,
            self.is_reading() ==> self.records().len() == self.stored() && 0 <= self.cursor()
                <= self.records().len() && self.unread().len() == self.buffered()
                + self.records().len() - self.cursor(),
            !self.is_reading() ==> self.records().len() == self.stored() + self.buffered()
                && self.records().len() <= usize::MAX,
    {
        self.file.lemma_inv_facts();
    }

    /// A new tape with a fresh identity, empty, ready to be written.
    pub fn new(ctx: &mut TapeContext, cap: usize) -> (t: Self)
        requires
            cap >= 1,
            old(ctx).issued() < usize::MAX,
        ensures
            t.inv(),
            t.cleared(),
            t.capacity() == cap,
            t.id_of() == old(ctx).issued(),
            final(ctx).issued() == old(ctx).issued() + 1,
    {
        let id = ctx.fresh_id();
        let t = Tape { id, file: FileHandler::new(cap), run_len: Vec::new(), last: None };
        proof {
            assert(t.run_lens() =~= runs_of(t.records()));
        }
        t
    }

    /// Appends one record, extending the last run or starting a new one as
    /// the record's key demands.
    pub fn push(&mut self, rec: R)
        requires
            old(self).inv(),
            !old(self).is_reading(),
            old(self).ops() < OPS_CEILING,
            old(self).records().len() < usize::MAX,
        ensures
            final(self).inv(),
            !final(self).is_reading(),
            final(self).records() == old(self).records().push(rec),
            final(self).capacity() == old(self).capacity(),
            final(self).buffered() == if old(self).buffered() == old(self).capacity() {
                1int
            } else {
                old(self).buffered() + 1
            },
            final(self).stored() == old(self).stored() + if old(self).buffered() == old(self).capacity() {
                old(self).capacity()
            } else {
                0int
            },
            final(self).ops() == old(self).ops() + if old(self).buffered() == old(self).capacity() {
                1int
            } else {
                0int
            },
    {
        proof {
            lemma_runs_push(old(self).records(), rec);
            lemma_runs_basic(old(self).records());
        }
        let is_new_run = match &self.last {
            None => true,
            Some(l) => !l.le(&rec),
        };
        self.file.write(rec);
        if is_new_run {
            self.run_len.push(1);
            proof {
                assert(self.run_lens() =~= runs_of(self.records()));
            }
        } else {
            let k = self.run_len.len() - 1;
            let v = self.run_len[k];
            proof {
                lemma_seq_sum_entry(old(self).run_lens(), k as int);
                assert(seq_sum(old(self).run_lens()) == old(self).records().len()) by {
                    lemma_runs_basic(old(self).records());
                }
            }
            self.run_len[k] = v + 1;
            proof {
                assert(self.run_lens() =~= runs_of(self.records()));
            }
        }
        self.last = Some(rec);
    }

    /// Removes and returns the next record of a sequential read. A record
    /// is owed exactly when one is left unread.
    pub fn next_record(&mut self) -> (r: Result<R, StoreError>)
        requires
            old(self).inv(),
            old(self).is_reading(),
            old(self).ops() + 2 <= OPS_CEILING,
        ensures
            final(self).inv(),
            final(self).is_reading(),
            final(self).records() == old(self).records(),
            final(self).run_lens() == old(self).run_lens(),
            final(self).capacity() == old(self).capacity(),
            old(self).unread().len() > 0 ==> r == Ok::<R, StoreError>(old(self).unread()[0])
                && final(self).unread() == old(self).unread().skip(1),
            old(self).unread().len() == 0 ==> r == Err::<R, StoreError>(StoreError::Exhausted)
                && final(self).unread().len() == 0,
            old(self).cursor() <= final(self).cursor() <= final(self).records().len(),
            final(self).ops() - old(self).ops() == ceil_div(final(self).cursor(),
                final(self).capacity()) - ceil_div(old(self).cursor(), old(self).capacity()),
            final(self).ops() <= old(self).ops() + 2,
            final(self).unread().len() == 0 ==> final(self).cursor() == final(self).records().len(),
    {
        self.file.read()
    }

    /// The next record of the read, without advancing past it; `None` when
    /// nothing is left. Purely in-memory.
    pub fn view_record(&self) -> (r: Option<R>)
        requires
            self.inv(),
            self.is_reading(),
        ensures
            r == if self.unread().len() > 0 {
                Some(self.unread()[0])
            } else {
                None::<R>
            },
    {
        self.file.peek()
    }

    /// True only when a sequential read has nothing more to yield.
    pub fn is_empty(&self) -> (b: bool)
        requires
            self.inv(),
            self.is_reading(),
        ensures
            b ==> self.unread().len() == 0 && self.cursor() == self.records().len(),
            !b && self.unread().len() == 0 ==> self.records().len() == 0,
    {
        self.file.eof()
    }

    /// Forces buffered records out and rewinds for reading.
    pub fn flush(&mut self)
        requires
            old(self).inv(),
            !old(self).is_reading(),
            old(self).ops() < OPS_CEILING,
        ensures
            final(self).inv(),
            final(self).rewound(),
            final(self).records() == old(self).records(),
            final(self).run_lens() == old(self).run_lens(),
            final(self).capacity() == old(self).capacity(),
            final(self).ops() == old(self).ops() + if old(self).buffered() == 0 {
                0int
            } else {
                1int
            },
    {
        self.file.flush()
    }

    /// Truncates the tape and forgets its runs; the disk-operation counter
    /// restarts at zero.
    pub fn clear(&mut self)
        requires
            old(self).inv(),
        ensures
            final(self).inv(),
            final(self).cleared(),
            final(self).capacity() == old(self).capacity(),
            final(self).id_of() == old(self).id_of(),
    {
        self.file.clear();
        self.run_len = Vec::new();
        self.last = None;
        proof {
            assert(final(self).run_lens() =~= runs_of(final(self).records()));
        }
    }

    /// Disk operations performed since the tape was last cleared.
    pub fn disk_ops(&self) -> (n: u128)
        ensures
            n == self.ops(),
    {
        self.file.disk_ops()
    }

    /// Whether the tape is positioned for reading.
    pub fn reading(&self) -> (b: bool)
        ensures
            b == self.is_reading(),
    {
        self.file.reading_mode()
    }

    pub fn page_capacity(&self) -> (c: usize)
        ensures
            c == self.capacity(),
    {
        self.file.page_capacity()
    }

    /// How many records the tape holds in all.
    pub fn record_count(&self) -> (n: usize)
        requires
            self.inv(),
        ensures
            n == self.records().len(),
    {
        self.file.record_count()
    }

    /// How many runs the tape currently holds.
    pub fn runs(&self) -> (n: usize)
        ensures
            n == self.run_count(),
    {
        self.run_len.len()
    }

    /// The length of one stored run.
    pub fn run_len_entry(&self, r: usize) -> (v: usize)
        requires
            (r as int) < self.run_count(),
        ensures
            v as int == self.run_lens()[r as int],
    {
        let v = self.run_len[r];
        proof {
            assert(self.run_lens()[r as int] == self.run_len@.map_values(|x: usize| x as int)[
                r as int
            ]);
        }
        v
    }

    /// The stored run lengths, in storage order.
    pub fn run_lengths(&self) -> (v: &Vec<usize>)
        ensures
            v@.map_values(|x: usize| x as int) == self.run_lens(),
    {
        &self.run_len
    }

    /// Every record on the tape, in storage order, without disturbing the
    /// read position or the counter.
    pub fn contents(&self) -> (v: Vec<R>)
        requires
            self.inv(),
        ensures
            v@ == self.records(),
    {
        self.file.contents()
    }
}

} // verus!
