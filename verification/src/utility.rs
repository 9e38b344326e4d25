//! Iterator conveniences.

use vstd::prelude::*;

verus! {

/// An iterator that can be walked from both ends.
pub trait FullIterator: Iterator + DoubleEndedIterator {

}

impl<I: Iterator + DoubleEndedIterator> FullIterator for I {

}

} // verus!
