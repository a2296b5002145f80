use vstd::math::min;
use vstd::std_specs::vec::spec_vec_len;
use vstd::prelude::*;

use crate::math::{ceil_div, lemma_ceil_div_exact, lemma_ceil_div_page_step};
use crate::record::Record;

verus! {

/// Ceiling on the disk-operation counter. Every operation that could grow
/// the counter asks for room below it, so the counter never wraps.
pub const OPS_CEILING: u128 = 0x1000000000000000000000000;

/// A caller-side allowance well below `OPS_CEILING`: a handler whose counter
/// is within this budget can run a full pass without nearing the ceiling.
pub const OPS_BUDGET: u128 = 0x100000000000000000000;

/// Why a storage operation failed.
#[derive(Clone, Copy, Debug, PartialEq, Eq, Structural)]
pub enum StoreError {
    /// A record was asked for when none was left to read.
    Exhausted,
}

/// Paged storage handler: owns one simulated backing store and buffers one
/// page of records in memory. A physical read fills the page from the
/// store; a physical write empties the page into it; the counter grows by
/// exactly one per physical read or write and never for an in-memory
/// operation. The handler is either being written (records accumulate at
/// the end) or being read (a cursor walks the store page by page).
pub struct FileHandler<R: Record> {
    /// Records on the backing store, in storage order.
    data: Vec<R>,
    /// Read cursor into `data`, in records; page-aligned until the final
    /// short page has been read.
    pos: usize,
    /// The in-memory page.
    page: Vec<R>,
    /// Page capacity, in records.
    cap: usize,
    /// Set once a physical read returned fewer records than a full page.
    end_of_file: bool,
    /// Physical reads plus physical writes since the last `clear`.
    disk_ops: u128,
    /// Reading mode (after `flush`/`rewind`) or writing mode (after
    /// `new`/`clear`).
    reading: bool,
}

impl<R: Record> FileHandler<R> {
    /// Every record the handler holds, in storage order: the store itself,
    /// plus — while writing — the records still buffered in the page.
    pub closed spec fn records(self) -> Seq<R> {
        if self.reading {
            self.data@
        } else {
            self.data@ + self.page@
        }
    }

    /// What a sequential read will still yield: the buffered page, then the
    /// records past the cursor.
    pub closed spec fn unread(self) -> Seq<R> {
        self.page@ + self.data@.skip(self.pos as int)
    }

    pub closed spec fn capacity(self) -> int {
        self.cap as int
    }

    pub closed spec fn ops(self) -> int {
        self.disk_ops as int
    }

    pub closed spec fn cursor(self) -> int {
        self.pos as int
    }

    /// Records already flushed to the store (write mode).
    pub closed spec fn stored(self) -> int {
        self.data@.len() as int
    }

    /// Records sitting in the in-memory page.
    pub closed spec fn buffered(self) -> int {
        self.page@.len() as int
    }

    pub closed spec fn is_reading(self) -> bool {
        self.reading
    }

    /// Well-formedness: the page never outgrows its capacity; while reading,
    /// the page mirrors the slice of the store just before the cursor, the
    /// cursor is page-aligned until the short final page, and an empty page
    /// before any read means the cursor still sits at the start.
    pub closed spec fn inv_core(self) -> bool {
        &&& self.cap >= 1
        &&& self.page@.len() <= self.cap
        &&& (self.reading ==> {
            &&& self.pos <= self.data@.len()
            &&& self.page@.len() <= self.pos
            &&& self.page@ == self.data@.subrange(self.pos - self.page@.len(), self.pos as int)
            &&& (self.end_of_file ==> self.pos == self.data@.len())
            &&& (!self.end_of_file ==> self.pos as int % self.cap as int == 0)
        })
        &&& (!self.reading ==> {
            &&& self.pos == self.data@.len()
            &&& !self.end_of_file
            &&& self.data@.len() + self.page@.len() <= usize::MAX
        })
    }

    /// The read-ahead discipline: an empty page while reading, short of the
    /// end, can only mean that no read has happened yet.
    pub closed spec fn inv(self) -> bool {
        &&& self.inv_core()
        &&& (self.reading && !self.end_of_file && self.page@.len() == 0 ==> self.pos == 0)
    }

    /// Rewound and ready for a full sequential read.
    pub open spec fn rewound(self) -> bool {
        &&& self.is_reading()
        &&& self.cursor() == 0
        &&& self.buffered() == 0
        &&& self.unread() == self.records()
    }

    /// Freshly cleared: writing, nothing held, counter at zero.
    pub open spec fn cleared(self) -> bool {
        &&& !self.is_reading()
        &&& self.records().len() == 0
        &&& self.buffered() == 0
        &&& self.ops() == 0
    }

    /// What every well-formed handler guarantees, stated over the public
    /// view functions so that callers outside this module can use it.
    pub broadcast proof fn lemma_inv_facts(self)
        requires
            #[trigger] self.inv(),
        ensures
            self.capacity() >= 1,
            0 <= self.buffered() <= self.capacity(),
            self.ops() >= 0,
            self.stored() >= 0,
            self.records().len() <= usize::MAX || !self.is_reading(),
            self.is_reading() ==> self.records().len() == self.stored() && 0 <= self.cursor()
                <= self.records().len() && self.buffered() <= self.cursor() && self.unread().len()
                == self.buffered() + self.records().len() - self.cursor(),
            !self.is_reading() ==> self.records().len() == self.stored() + self.buffered()
                && self.records().len() <= usize::MAX && self.unread().len() == self.buffered(),
    {
        broadcast use vstd::std_specs::vec::axiom_spec_len;

        if self.reading {
            assert(spec_vec_len(&self.data) == self.data@.len());
            assert(self.unread().len() == self.page@.len() + self.data@.len() - self.pos);
        } else {
            assert(self.data@.skip(self.pos as int).len() == 0);
        }
    }

    /// Opens a fresh handler with the given page capacity, in write mode.
    pub fn new(cap: usize) -> (h: Self)
        requires
            cap >= 1,
        ensures
            h.inv(),
            h.cleared(),
            h.capacity() == cap,
    {
        FileHandler {
            data: Vec::new(),
            pos: 0,
            page: Vec::new(),
            cap,
            end_of_file: false,
            disk_ops: 0,
            reading: false,
        }
    }

    /// True only when no record can be obtained any more: the short final
    /// page has been seen and the in-memory page is drained.
    pub fn eof(&self) -> (b: bool)
        requires
            self.inv(),
            self.is_reading(),
        ensures
            b ==> self.unread().len() == 0 && self.cursor() == self.records().len(),
            !b && self.unread().len() == 0 ==> self.records().len() == 0,
    {
        proof {
            if self.end_of_file && self.page@.len() == 0 {
                assert(self.data@.skip(self.pos as int).len() == 0);
            }
            if !(self.end_of_file || self.page@.len() > 0) && self.unread().len() == 0 {
                assert(self.pos == 0);
                assert(self.data@.skip(0).len() == 0);
            }
        }
        self.end_of_file && self.page.len() == 0
    }

    pub fn disk_ops(&self) -> (n: u128)
        ensures
            n == self.ops(),
    {
        self.disk_ops
    }

    /// Whether the handler is positioned for reading.
    pub fn reading_mode(&self) -> (b: bool)
        ensures
            b == self.is_reading(),
    {
        self.reading
    }

    pub fn page_capacity(&self) -> (c: usize)
        ensures
            c == self.capacity(),
    {
        self.cap
    }

    /// How many records the handler holds in all.
    pub fn record_count(&self) -> (n: usize)
        requires
            self.inv(),
        ensures
            n == self.records().len(),
    {
        if self.reading {
            self.data.len()
        } else {
            self.data.len() + self.page.len()
        }
    }

    /// Physical read: fills the empty page with the next page's worth of
    /// records, or marks the end of the store. Counts one disk operation
    /// exactly when records were obtained.
    fn read_page(&mut self)
        requires
            old(self).inv_core(),
            old(self).is_reading(),
            old(self).buffered() == 0,
            old(self).ops() < OPS_CEILING,
        ensures
            final(self).inv(),
            final(self).is_reading(),
            final(self).records() == old(self).records(),
            final(self).capacity() == old(self).capacity(),
            final(self).unread() == old(self).unread(),
            final(self).buffered() == min(old(self).capacity(), old(self).unread().len() as int),
            old(self).cursor() <= final(self).cursor() <= final(self).records().len(),
            final(self).ops() - old(self).ops() == ceil_div(final(self).cursor(),
                final(self).capacity()) - ceil_div(old(self).cursor(), old(self).capacity()),
            final(self).ops() <= old(self).ops() + 1,
            final(self).unread().len() == 0 ==> final(self).cursor() == final(self).records().len(),
    {
        if self.end_of_file {
            proof {
                assert(old(self).unread() =~= old(self).data@.skip(old(self).pos as int));
            }
            return ;
        }
        if self.pos == self.data.len() {
            self.end_of_file = true;
            proof {
                assert(final(self).unread() =~= old(self).unread());
            }
            return ;
        }
        proof {
            lemma_ceil_div_exact(old(self).cursor(), old(self).capacity());
        }
        let remaining = self.data.len() - self.pos;
        let take = if remaining < self.cap {
            remaining
        } else {
            self.cap
        };
        let mut i: usize = 0;
        let dlen = self.data.len();
        proof {
            assert(self.page@ =~= self.data@.subrange(self.pos as int, self.pos as int));
        }
        while i < take
            invariant
                self.page@.len() == i,
                i <= take,
                take == min(self.cap as int, self.data@.len() - self.pos),
                self.pos + take <= dlen,
                dlen == self.data@.len(),
                self.page@ == self.data@.subrange(self.pos as int, self.pos + i),
                self.data == old(self).data,
                self.pos == old(self).pos,
                self.cap == old(self).cap,
                self.disk_ops == old(self).disk_ops,
                self.end_of_file == old(self).end_of_file,
                self.reading,
            decreases take - i,
        {
            let r = self.data[self.pos + i];
            self.page.push(r);
            i += 1;
            proof {
                assert(self.page@ =~= self.data@.subrange(self.pos as int, self.pos + i));
            }
        }
        self.pos = self.pos + take;
        if take < self.cap {
            self.end_of_file = true;
        }
        self.disk_ops = self.disk_ops + 1;
        proof {
            assert(final(self).page@ == final(self).data@.subrange(
                final(self).pos - final(self).page@.len(),
                final(self).pos as int,
            ));
            assert(final(self).unread() =~= old(self).unread());
            lemma_ceil_div_page_step(old(self).cursor(), old(self).capacity(), take as int);
            lemma_ceil_div_exact(old(self).cursor(), old(self).capacity());
            if take == old(self).cap {
                let p0 = old(self).pos as int;
                let c = old(self).cap as int;
                assert((p0 + c) % c == 0) by (nonlinear_arith)
                    requires
                        c >= 1,
                        p0 % c == 0,
                ;
            }
        }
    }

    /// Removes and returns the next record of a sequential read; refills the
    /// page ahead of time so that `eof` stays accurate. A record is owed
    /// exactly when one is left.
    pub fn read(&mut self) -> (r: Result<R, StoreError>)
        requires
            old(self).inv(),
            old(self).is_reading(),
            old(self).ops() + 2 <= OPS_CEILING,
        ensures
            final(self).inv(),
            final(self).is_reading(),
            final(self).records() == old(self).records(),
            final(self).capacity() == old(self).capacity(),
            old(self).unread().len() > 0 ==> r == Ok::<R, StoreError>(old(self).unread()[0])
                && final(self).unread() == old(self).unread().skip(1),
            old(self).unread().len() == 0 ==> r == Err::<R, StoreError>(StoreError::Exhausted)
                && final(self).unread().len() == 0,
            old(self).cursor() <= final(self).cursor() <= final(self).records().len(),
            final(self).ops() - old(self).ops() == ceil_div(final(self).cursor(),
                final(self).capacity()) - ceil_div(old(self).cursor(), old(self).capacity()),
            final(self).ops() <= old(self).ops() + 2,
            final(self).unread().len() == 0 ==> final(self).cursor() == final(self).records().len(),
    {
        if self.page.len() == 0 {
            self.read_page();
        }
        if self.page.len() == 0 {
            proof {
                assert(old(self).unread().len() == self.unread().len());
            }
            return Err(StoreError::Exhausted);
        }
        let rec = self.page.remove(0);
        proof {
            assert(self.page@ =~= self.data@.subrange(self.pos - self.page@.len(), self.pos as int));
            assert(self.unread() =~= old(self).unread().skip(1));
        }
        if self.page.len() == 0 {
            self.read_page();
        }
        Ok(rec)
    }

    /// Returns the next record of the read without advancing past it, or
    /// `None` when nothing is left. Purely in-memory: no disk operation.
    pub fn peek(&self) -> (r: Option<R>)
        requires
            self.inv(),
            self.is_reading(),
        ensures
            r == if self.unread().len() > 0 {
                Some(self.unread()[0])
            } else {
                None::<R>
            },
    {
        if self.page.len() > 0 {
            Some(self.page[0])
        } else if self.pos < self.data.len() {
            proof {
                assert(self.unread()[0] == self.data@.skip(self.pos as int)[0]);
            }
            Some(self.data[self.pos])
        } else {
            proof {
                assert(self.unread().len() == 0);
            }
            None
        }
    }

    /// Physical write: empties the full or final partial page onto the end
    /// of the store. Writing an empty page is a no-op, not an error.
    fn write_page(&mut self)
        requires
            old(self).inv(),
            !old(self).is_reading(),
            old(self).ops() < OPS_CEILING,
        ensures
            final(self).inv(),
            !final(self).is_reading(),
            final(self).records() == old(self).records(),
            final(self).capacity() == old(self).capacity(),
            final(self).buffered() == 0,
            final(self).stored() == old(self).stored() + old(self).buffered(),
            final(self).ops() == old(self).ops() + if old(self).buffered() == 0 {
                0int
            } else {
                1int
            },
    {
        if self.page.len() == 0 {
            return ;
        }
        let buffered = self.page.len();
        self.data.append(&mut self.page);
        self.pos = self.data.len();
        self.disk_ops = self.disk_ops + 1;
    }

    /// Appends one record to the write. When the page is already full it is
    /// first written out physically, so the page never exceeds the capacity
    /// and a full pass of `m` records costs exactly `ceil(m / K)` writes
    /// once `flush` has pushed the final partial page.
    pub fn write(&mut self, rec: R)
        requires
            old(self).inv(),
            !old(self).is_reading(),
            old(self).ops() < OPS_CEILING,
            old(self).records().len() < usize::MAX,
        ensures
            final(self).inv(),
            !final(self).is_reading(),
            final(self).records() == old(self).records().push(rec),
            final(self).capacity() == old(self).capacity(),
            final(self).buffered() == if old(self).buffered() == old(self).capacity() {
                1int
            } else {
                old(self).buffered() + 1
            },
            final(self).stored() == old(self).stored() + if old(self).buffered() == old(self).capacity() {
                old(self).capacity()
            } else {
                0int
            },
            final(self).ops() == old(self).ops() + if old(self).buffered() == old(self).capacity() {
                1int
            } else {
                0int
            },
    {
        if self.page.len() == self.cap {
            self.write_page();
        }
        self.page.push(rec);
        proof {
            assert(final(self).records() =~= old(self).records().push(rec));
        }
    }

    /// Forces the buffered partial page out and rewinds: the cursor returns
    /// to the start, the end-of-file mark clears, and the page empties. This
    /// turns a handler that was being written into one ready to be read.
    pub fn flush(&mut self)
        requires
            old(self).inv(),
            !old(self).is_reading(),
            old(self).ops() < OPS_CEILING,
        ensures
            final(self).inv(),
            final(self).rewound(),
            final(self).records() == old(self).records(),
            final(self).capacity() == old(self).capacity(),
            final(self).ops() == old(self).ops() + if old(self).buffered() == 0 {
                0int
            } else {
                1int
            },
    {
        self.write_page();
        self.rewind();
    }

    /// Rewinds to the start of the store and drops the in-memory page. On a
    /// handler being written this discards the unwritten page, as a rewind
    /// of the underlying file would; `flush` is the safe combination.
    pub fn rewind(&mut self)
        requires
            old(self).inv(),
        ensures
            final(self).inv(),
            final(self).rewound(),
            final(self).capacity() == old(self).capacity(),
            final(self).ops() == old(self).ops(),
            old(self).is_reading() ==> final(self).records() == old(self).records(),
            !old(self).is_reading() ==> final(self).records() == old(self).records().take(
                old(self).stored(),
            ),
    {
        self.end_of_file = false;
        self.pos = 0;
        self.page.clear();
        self.reading = true;
        proof {
            assert(final(self).page@ =~= final(self).data@.subrange(0, 0));
            assert(final(self).unread() =~= final(self).records());
            if !old(self).is_reading() {
                assert(old(self).data@ =~= old(self).records().take(old(self).stored()));
            }
        }
    }

    /// Truncates the store to nothing, resets the disk-operation counter and
    /// returns to write mode: the handler is as good as new.
    pub fn clear(&mut self)
        requires
            old(self).inv(),
        ensures
            final(self).inv(),
            final(self).cleared(),
            final(self).capacity() == old(self).capacity(),
    {
        self.data.clear();
        self.page.clear();
        self.pos = 0;
        self.end_of_file = false;
        self.disk_ops = 0;
        self.reading = false;
        proof {
            assert(final(self).records() =~= Seq::<R>::empty());
        }
    }

    /// Every record held, in storage order, without disturbing the read
    /// position, the page or the counter.
    pub fn contents(&self) -> (v: Vec<R>)
        requires
            self.inv(),
        ensures
            v@ == self.records(),
    {
        let mut v: Vec<R> = Vec::new();
        let mut i: usize = 0;
        while i < self.data.len()
            invariant
                i <= self.data@.len(),
                v@ == self.data@.take(i as int),
            decreases self.data@.len() - i,
        {
            v.push(self.data[i]);
            i += 1;
            proof {
                assert(v@ =~= self.data@.take(i as int));
            }
        }
        proof {
            assert(v@ =~= self.data@);
        }
        if !self.reading {
            let mut j: usize = 0;
            while j < self.page.len()
                invariant
                    j <= self.page@.len(),
                    v@ == self.data@ + self.page@.take(j as int),
                decreases self.page@.len() - j,
            {
                v.push(self.page[j]);
                j += 1;
                proof {
                    assert(v@ =~= self.data@ + self.page@.take(j as int));
                }
            }
            proof {
                assert(v@ =~= self.records());
            }
        }
        v
    }
}

} // verus!
