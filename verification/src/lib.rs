//! External sorting of fixed-size records over a simulated multi-tape
//! store: each tape is backed by sequential, page-buffered storage with an
//! exact disk-operation count, and a distribute/merge orchestrator turns
//! the tapes' natural runs into one sorted run.
//!
//! The layers, leaves first: [`file_handler`] owns one backing store and
//! buffers one page of records; [`tape`] binds a handler to a record kind
//! and to the lengths of the sorted runs it holds; [`sorter`] drives the
//! distribute and merge phases to convergence and reports the cost.
//! [`codec`] gives records their flat binary file format, [`parse`] their
//! human-readable text format, and [`record`] holds the record kind -- a
//! triangle ordered by area -- together with the capability set the engine
//! asks of any record.

pub mod codec;
pub mod file_handler;
pub mod math;
pub mod parse;
pub mod record;
pub mod runs;
pub mod sorter;
pub mod tape;

use vstd::prelude::*;

verus! {

/// Number of records a page holds when no other capacity is chosen.
pub const DEFAULT_PAGE_RECORDS: usize = 1000;

} // verus!
