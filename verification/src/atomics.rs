//! The two counters that shared reservation moves: one call each, so that
//! every other function can be read without them.

use std::sync::atomic::{AtomicI64, AtomicU32, Ordering};
use vstd::prelude::*;

verus! {

/// Subtracts a request from the shared cursor and returns what the cursor
/// held before. Other threads move the cursor too: nothing is known of the
/// value.
pub(crate) fn claim(cursor: &AtomicI64, count: i64) -> (before: i64) {
    cursor.fetch_sub(count, Ordering::Relaxed)
}

/// Adds to the shared high-water mark and returns what it held before.
pub(crate) fn raise(last: &AtomicU32, count: u32) -> (before: u32) {
    last.fetch_add(count, Ordering::Relaxed)
}

pub(crate) fn read_cursor(cursor: &AtomicI64) -> (now: i64) {
    cursor.load(Ordering::Relaxed)
}

pub(crate) fn read_mark(last: &AtomicU32) -> (now: u32) {
    last.load(Ordering::Relaxed)
}

pub(crate) fn write_cursor(cursor: &AtomicI64, value: i64) {
    cursor.store(value, Ordering::Relaxed)
}

pub(crate) fn write_mark(last: &AtomicU32, value: u32) {
    last.store(value, Ordering::Relaxed)
}

} // verus!
