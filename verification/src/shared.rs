//! What is taken on trust. The buffers that many producers fill while a
//! scope is open sit behind `parking_lot` mutexes; what they hold at any
//! moment depends on every thread that shares them, so nothing is stated of
//! it. Mutable references to all items of a vector at once come from the
//! standard library's slice iterator, and rows are copied many at a time by
//! `rayon`.

use crate::key::Key;
use crate::write::touch;
use rayon::iter::{
    IndexedParallelIterator, IntoParallelRefIterator, IntoParallelRefMutIterator, ParallelIterator,
};
use std::collections::HashSet;
use vstd::prelude::*;

verus! {

#[verifier::external_type_specification]
#[verifier::external_body]
#[verifier::reject_recursive_types(R)]
#[verifier::reject_recursive_types(T)]
pub struct ExMutex<R, T: ?Sized>(parking_lot::lock_api::Mutex<R, T>);

#[verifier::external_type_specification]
#[verifier::external_body]
pub struct ExRawMutex(parking_lot::RawMutex);

/// `parking_lot::Mutex::new` around an empty `Vec`: a queue for pairs that
/// await insertion. Nothing is claimed of it.
#[verifier::external_body]
pub(crate) fn new_queue<T>() -> (queue: parking_lot::Mutex<Vec<(Key, T)>>) {
    parking_lot::Mutex::new(Vec::new())
}

/// `parking_lot::Mutex::new` around an empty `HashSet`: a set for keys that
/// await removal. Nothing is claimed of it.
#[verifier::external_body]
pub(crate) fn new_set() -> (set: parking_lot::Mutex<HashSet<Key>>) {
    parking_lot::Mutex::new(HashSet::new())
}

/// `parking_lot::Mutex::lock`, then `Vec::extend` on what it guards: appends
/// the pairs to the queue in their order. It takes the lock for the length
/// of the call only. No clause: the queue is shared.
#[verifier::external_body]
pub(crate) fn queue_extend<T>(queue: &parking_lot::Mutex<Vec<(Key, T)>>, pairs: Vec<(Key, T)>) {
    queue.lock().extend(pairs);
}

/// `parking_lot::Mutex::lock`, then `HashSet::extend` on what it guards:
/// merges the keys into the set. No clause: the set is shared.
#[verifier::external_body]
pub(crate) fn set_extend(set: &parking_lot::Mutex<HashSet<Key>>, keys: Vec<Key>) {
    set.lock().extend(keys);
}

/// `parking_lot::Mutex::get_mut`, then `Vec::drain` over the whole queue:
/// hands out what producers left in it, in the order they left it, and
/// leaves it empty. No clause: what producers left is not known here.
#[verifier::external_body]
pub(crate) fn queue_drain<T>(queue: &mut parking_lot::Mutex<Vec<(Key, T)>>) -> (pairs: Vec<(Key, T)>) {
    queue.get_mut().drain(..).collect()
}

/// `parking_lot::Mutex::get_mut`, then `HashSet::drain`: hands out the keys
/// that producers left in the set, in no particular order, and leaves it
/// empty. No clause: what producers left is not known here.
#[verifier::external_body]
pub(crate) fn set_drain(set: &mut parking_lot::Mutex<HashSet<Key>>) -> (keys: Vec<Key>) {
    set.get_mut().drain().collect()
}

/// `<[T]>::iter_mut`, collected: one mutable reference per item, in the
/// items' order. What is written through a reference is what its item holds
/// afterwards; the number of items stays.
#[verifier::external_body]
pub(crate) fn each_mut<E>(items: &mut Vec<E>) -> (each: Vec<&mut E>)
    ensures
        each@.len() == old(items)@.len(),
        final(items)@.len() == old(items)@.len(),
        forall|r: int| 0 <= r < each@.len() ==> *(#[trigger] each@[r]) == old(items)@[r],
        forall|r: int| 0 <= r < each@.len() ==> #[trigger] final(items)@[r] == *final(each@[r]),
{
    items.iter_mut().collect()
}

/// rayon's `par_iter_mut` over the buffer, zipped with `par_iter` over the
/// rows, and `for_each`: runs `touch` once on every buffer entry that has a
/// row, many at a time. rayon pairs the two sides place by place and stops
/// at the shorter, so an entry beyond the rows is left as it was.
#[verifier::external_body]
pub(crate) fn par_touch<T: Clone + Send + Sync>(reads: &Vec<(Key, T)>, writes: &mut Vec<Option<T>>)
    ensures
        final(writes)@.len() == old(writes)@.len(),
        forall|r: int|
            0 <= r < old(writes)@.len() ==> if r < reads@.len() && old(writes)@[r] is None {
                (#[trigger] final(writes)@[r]) is Some && cloned(
                    reads@[r].1,
                    final(writes)@[r]->Some_0,
                )
            } else {
                final(writes)@[r] == old(writes)@[r]
            },
{
    writes.par_iter_mut().zip(reads.par_iter()).for_each(|(entry, pair)| touch(&pair.1, entry));
}

} // verus!
