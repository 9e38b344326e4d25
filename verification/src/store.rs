//! The store itself: dense rows of values behind generational keys.

use crate::atomics::{read_cursor, read_mark};
use crate::defer::Defer;
use crate::fork::{disjoint, Access, Fork};
use crate::key::{blank, Key, Keys};
use crate::model::Table;
use crate::read::Read;
use crate::shared::{new_queue, new_set, queue_drain, set_drain};
use crate::laws::spent;
use crate::table::{
    advanced, answers, claimable, granted, index, is_claimable, lemma_free_below_slots, outcomes,
};
use crate::write::Write;
use parking_lot::Mutex;
use std::collections::HashSet;
use vstd::prelude::*;

verus! {

/// A generational object store. Values sit in dense rows; a key names a
/// value through the slot of its index for as long as the slot stays at the
/// key's generation.
///
/// Keys can be reserved through a shared reference at any time; that runs
/// on the key table's shared counters. Every step that holds the store
/// exclusively first reads those counters back and leaves them current when
/// it is done, so what such a step does is fixed once it is known what the
/// counters held.
#[verifier::reject_recursive_types(T)]
pub struct Armoire<T> {
    keys: Keys,
    pairs: Vec<(Key, T)>,
    inserts: Mutex<Vec<(Key, T)>>,
    removes: Mutex<HashSet<Key>>,
}

/// The handles are those of a scope opened on the store `before`: they show
/// its rows, slots, free list and counters, and no row is touched yet.
pub open spec fn opens<T>(before: Table<T>, write: Write<T>, read: Read<T>, defer: Defer<T>) -> bool {
    &&& write.slots() == before.slots
    &&& write.reads() == before.pairs
    &&& write.buffer() == Seq::<Option<T>>::empty()
    &&& read.slots() == before.slots
    &&& read.pairs() == before.pairs
    &&& defer.free() == before.free
    &&& defer.cursor() == before.cursor
    &&& defer.last() == before.last
}

/// The store `after` is what closing a scope makes of the store `before`,
/// for some values of the shared counters and some content of the two
/// buffers.
pub open spec fn settles<T>(before: Table<T>, after: Table<T>) -> bool {
    exists|cursor: int, last: int, inserts: Seq<(Key, T)>, removes: Seq<Key>|
        after == #[trigger] before.settled(cursor, last, inserts, removes)
}

impl<T> View for Armoire<T> {
    type V = Table<T>;

    closed spec fn view(&self) -> Table<T> {
        Table {
            slots: self.keys.slots@,
            pairs: self.pairs@,
            free: self.keys.free@,
            cursor: self.keys.cursor as int,
            last: self.keys.last as int,
        }
    }
}

impl<T> Default for Armoire<T> {
    fn default() -> (store: Self)
        ensures
            store@ == Table::<T>::empty(),
            store.wf(),
    {
        Armoire::new()
    }
}

impl<T> Armoire<T> {
    /// The store's parts are consistent with each other.
    pub open spec fn wf(&self) -> bool {
        self@.wf()
    }

    /// An empty store.
    pub fn new() -> (store: Self)
        ensures
            store@ == Table::<T>::empty(),
            store.wf(),
    {
        let store = Armoire {
            keys: Keys::new(),
            pairs: Vec::new(),
            inserts: new_queue(),
            removes: new_set(),
        };
        proof {
            assert(store@.slots =~= Seq::empty());
            assert(store@.pairs =~= Seq::empty());
            assert(store@.free =~= Seq::empty());
        }
        store
    }

    /// Whether the index space has room for a request of `n` keys. The
    /// functions that hand out keys ask for this.
    pub fn can_reserve(&self, n: usize) -> (room: bool)
        requires
            self.wf(),
        ensures
            room == self@.can_reserve(n as int),
    {
        crate::table::has_room(self.keys.cursor, self.keys.last, n)
    }

    /// Whether a key waits in the claimable part of the free list: such a
    /// key was not handed out, and is not to be inserted at.
    pub fn is_claimable(&self, key: Key) -> (found: bool)
        ensures
            found == claimable(self@.free, self@.cursor, key),
    {
        self.keys.is_claimable(key)
    }

    /// The number of live values.
    pub fn len(&self) -> (len: usize)
        ensures
            len == self@.len(),
    {
        self.pairs.len()
    }

    pub fn is_empty(&self) -> (empty: bool)
        ensures
            empty == (self@.len() == 0),
    {
        self.len() == 0
    }

    /// Whether the key names a live value.
    pub fn has(&self, key: Key) -> (has: bool)
        ensures
            has == self@.has(key),
    {
        index(key, &self.keys.slots).is_some()
    }

    /// The value that a key names, or `None` for a stale key.
    pub fn get(&self, key: Key) -> (value: Option<&T>)
        requires
            self.wf(),
        ensures
            value matches Some(v) ==> self@.get(key) == Some(*v),
            value is None ==> self@.get(key) is None,
    {
        match index(key, &self.keys.slots) {
            Some(row) => {
                proof {
                    self@.lemma_row_key(key);
                }
                Some(&self.pairs[row].1)
            },
            None => None,
        }
    }

    /// The value that a key names, for writing; `None` for a stale key. What
    /// is written through the reference is what the key names afterwards;
    /// no row moves and no other value changes.
    pub fn get_mut(&mut self, key: Key) -> (value: Option<&mut T>)
        requires
            old(self).wf(),
        ensures
            old(self)@.get(key) is None ==> value is None && final(self)@ == old(self)@,
            old(self)@.get(key) is Some ==> value is Some && Some(*value.unwrap()) == old(
                self,
            )@.get(key) && final(self)@ == old(self)@.assigned(key, *final(value.unwrap())),
            final(self).wf(),
    {
        let ghost before = self@;
        proof {
            assert forall|any: T| #[trigger] before.assigned(key, any).wf() by {
                before.lemma_assigned(key, any);
            }
        }
        match index(key, &self.keys.slots) {
            Some(row) => {
                proof {
                    self@.lemma_row_key(key);
                }
                Some(&mut self.pairs[row].1)
            },
            None => None,
        }
    }

    /// Inserts a value under a newly reserved key and returns the key: the
    /// most recently freed key of the free list if one is claimable, else a
    /// key at the next fresh index.
    ///
    /// This is the step on the store as it stands: whoever calls it has read
    /// the shared counters back before.
    pub(crate) fn step_insert(&mut self, value: T) -> (key: Key)
        requires
            old(self).wf(),
            old(self)@.can_reserve(1),
        ensures
            final(self).wf(),
            key == old(self)@.next_key(),
            final(self)@ == old(self)@.inserted(value),
            !old(self)@.has(key),
            final(self)@.get(key) == Some(value),
            final(self)@.len() == old(self)@.len() + 1,
            forall|other: Key| other != key ==> final(self)@.get(other) == old(self)@.get(other),
    {
        let ghost before = self@;
        let mut keys: Vec<Key> = Vec::new();
        keys.push(Key::null());
        proof {
            before.lemma_inserted(value);
            if before.cursor > 0 {
                lemma_free_below_slots(before.slots, before.free, before.cursor);
            }
        }
        crate::table::reserve_mut(&mut keys, &mut self.keys.cursor, &self.keys.free, &mut self.keys.last);
        let key = keys[0];
        let ghost middle = self@;
        let mut one: Vec<(Key, T)> = Vec::new();
        one.push((key, value));
        proof {
            assert(middle == before.reserved(1));
            assert(one@ =~= seq![(key, value)]);
            middle.lemma_placed_one(key, value);
        }
        let _ = crate::table::insert(
            one,
            &mut self.pairs,
            self.keys.last,
            &mut self.keys.slots,
            Ghost(middle),
        );
        key
    }

    /// Inserts a list of values under keys reserved in one request, and
    /// returns the keys in the values' order.
    ///
    /// This is the step on the store as it stands: whoever calls it has read
    /// the shared counters back before.
    pub(crate) fn step_insert_n(&mut self, values: Vec<T>) -> (keys: Vec<Key>)
        requires
            old(self).wf(),
            old(self)@.can_reserve(values@.len() as int),
        ensures
            final(self).wf(),
            keys@ == old(self)@.reserved_keys(values@.len() as int),
            final(self)@ == old(self)@.inserted_all(values@),
            final(self)@.len() == old(self)@.len() + values@.len(),
            forall|i: int| 0 <= i < values@.len() ==> final(self)@.get(#[trigger] keys@[i]) == Some(values@[i]),
            forall|other: Key| !keys@.contains(other) ==> final(self)@.get(other) == old(self)@.get(other),
    {
        let ghost before = self@;
        let ghost all = values@;
        let mut keys = self.step_reserve_n(values.len());
        let ghost middle = self@;
        let inserts = crate::table::pair_up(&keys, values);
        proof {
            let paired = Table::<T>::paired(keys@, all);
            assert(paired.take(all.len() as int) =~= paired);
            before.lemma_inserted_prefix(all, all.len() as int);
            middle.lemma_placed_all_grown(paired);
            assert((before.pairs + paired).len() == before.pairs.len() + paired.len());
        }
        let _ = crate::table::insert(
            inserts,
            &mut self.pairs,
            self.keys.last,
            &mut self.keys.slots,
            Ghost(middle),
        );
        keys
    }

    /// Tries the removal of each key, in order; see `remove`.
    ///
    /// This is the step on the store as it stands: whoever calls it has read
    /// the shared counters back before.
    pub(crate) fn step_remove_n(&mut self, keys: Vec<Key>) -> (values: Vec<Option<T>>)
        requires
            old(self).wf(),
        ensures
            final(self).wf(),
            final(self)@ == old(self)@.removed_all(keys@),
            values@ == old(self)@.removed_values(keys@),
    {
        let ghost before = self@;
        proof {
            before.lemma_removed_all(keys@);
        }
        crate::table::remove(
            &keys,
            &mut self.pairs,
            &mut self.keys.slots,
            &mut self.keys.free,
            &mut self.keys.cursor,
            Ghost(before),
        )
    }

    /// Hands out one key for every place of `keys`; see `reserve_n_mut`.
    ///
    /// This is the step on the store as it stands: whoever calls it has read
    /// the shared counters back before.
    pub(crate) fn step_reserve(&mut self, keys: &mut Vec<Key>)
        requires
            old(self).wf(),
            old(self)@.can_reserve(old(keys)@.len() as int),
        ensures
            final(self).wf(),
            final(keys)@ == old(self)@.reserved_keys(old(keys)@.len() as int),
            final(self)@ == old(self)@.reserved(old(keys)@.len() as int),
    {
        let ghost before = self@;
        proof {
            before.lemma_reserved_wf(keys@.len() as int);
            if before.cursor > 0 {
                lemma_free_below_slots(before.slots, before.free, before.cursor);
            }
        }
        crate::table::reserve_mut(keys, &mut self.keys.cursor, &self.keys.free, &mut self.keys.last);
        proof {
            assert(keys@ =~= before.reserved_keys(old(keys)@.len() as int));
        }
    }

    /// Hands out `n` keys that name nothing yet and that no later request
    /// hands out again. Keys of removed values are recycled, most recently
    /// freed last; what the free list cannot serve is minted at fresh
    /// indices.
    ///
    /// This is the step on the store as it stands: whoever calls it has read
    /// the shared counters back before.
    pub(crate) fn step_reserve_n(&mut self, n: usize) -> (keys: Vec<Key>)
        requires
            old(self).wf(),
            old(self)@.can_reserve(n as int),
        ensures
            final(self).wf(),
            keys@ == old(self)@.reserved_keys(n as int),
            final(self)@ == old(self)@.reserved(n as int),
    {
        let mut keys = blank(n);
        self.step_reserve(&mut keys);
        keys
    }

    /// Gives reserved keys back unused. The keys must have been handed out
    /// and not inserted since, each index once; one whose slot is occupied
    /// or at another generation is passed over.
    ///
    /// This is the step on the store as it stands: whoever calls it has read
    /// the shared counters back before.
    pub(crate) fn step_release(&mut self, keys: Vec<Key>)
        requires
            old(self).wf(),
            forall|i: int|
                0 <= i < keys@.len() ==> !claimable(old(self)@.free, old(self)@.cursor, #[trigger] keys@[i]),
            forall|i: int, j: int|
                0 <= i < j < keys@.len() ==> (#[trigger] keys@[i]).index != (#[trigger] keys@[j]).index,
        ensures
            final(self).wf(),
            final(self)@ == old(self)@.released_all(keys@),
            forall|other: Key| final(self)@.get(other) == old(self)@.get(other),
    {
        let ghost before = self@;
        proof {
            before.lemma_released_all(keys@);
        }
        crate::table::release::<T>(
            &keys,
            self.keys.last,
            &mut self.keys.slots,
            &mut self.keys.free,
            &mut self.keys.cursor,
            Ghost(before),
        );
    }

    /// Tries an insertion at a key that was reserved before. The pair
    /// becomes the last row when the key's slot is vacant at the key's
    /// generation; otherwise the value comes back.
    ///
    /// This is the step on the store as it stands: whoever calls it has read
    /// the shared counters back before.
    pub(crate) fn step_try_insert(&mut self, key: Key, value: T) -> (result: Result<(), T>)
        requires
            old(self).wf(),
            !claimable(old(self)@.free, old(self)@.cursor, key),
        ensures
            final(self).wf(),
            final(self)@ == old(self)@.placed(key, value),
            result == (if old(self)@.admits(key) {
                Ok::<(), T>(())
            } else {
                Err::<(), T>(value)
            }),
            result is Ok ==> final(self)@.get(key) == Some(value),
            forall|other: Key| other != key ==> final(self)@.get(other) == old(self)@.get(other),
    {
        let ghost before = self@;
        let mut one: Vec<(Key, T)> = Vec::new();
        one.push((key, value));
        proof {
            assert(one@ =~= seq![(key, value)]);
            before.lemma_placed_one(key, value);
            before.lemma_placed(key, value);
        }
        let mut results = crate::table::insert(
            one,
            &mut self.pairs,
            self.keys.last,
            &mut self.keys.slots,
            Ghost(before),
        );
        results.pop().unwrap()
    }

    /// Removes the value that a key names and returns it; `None` for a stale
    /// key. The key, and every earlier key of its index, names nothing from
    /// then on. Every other key names what it named before.
    ///
    /// This is the step on the store as it stands: whoever calls it has read
    /// the shared counters back before.
    pub(crate) fn step_remove(&mut self, key: Key) -> (value: Option<T>)
        requires
            old(self).wf(),
        ensures
            final(self).wf(),
            final(self)@ == old(self)@.removed(key),
            value == old(self)@.get(key),
            final(self)@.get(key) is None,
            forall|other: Key| other != key ==> final(self)@.get(other) == old(self)@.get(other),
    {
        let ghost before = self@;
        let mut one: Vec<Key> = Vec::new();
        one.push(key);
        proof {
            assert(one@ =~= seq![key]);
            before.lemma_removed_one(key);
            before.lemma_removed(key);
        }
        let mut values = crate::table::remove(
            &one,
            &mut self.pairs,
            &mut self.keys.slots,
            &mut self.keys.free,
            &mut self.keys.cursor,
            Ghost(before),
        );
        values.pop().unwrap()
    }

    /// Every row, in row order, as its key and a reference to its value.
    pub fn iter(&self) -> (rows: Vec<(Key, &T)>)
        ensures
            rows@.len() == self@.len(),
            forall|r: int|
                0 <= r < rows@.len() ==> (#[trigger] rows@[r]).0 == self@.pairs[r].0 && *rows@[r].1
                    == self@.pairs[r].1,
    {
        Read::new(&self.keys, &self.pairs).iter()
    }

    /// Every row, in row order, as its key and a reference for writing its
    /// value. What is written through a reference is what the row's key
    /// names afterwards; no row moves.
    pub fn iter_mut(&mut self) -> (rows: Vec<(Key, &mut T)>)
        requires
            old(self).wf(),
        ensures
            rows@.len() == old(self)@.len(),
            forall|r: int|
                0 <= r < rows@.len() ==> (#[trigger] rows@[r]).0 == old(self)@.pairs[r].0 && *rows@[r].1
                    == old(self)@.pairs[r].1,
            final(self)@ == old(self)@.with_rows(final(self)@.pairs),
            final(self)@.pairs.len() == old(self)@.len(),
            forall|r: int|
                0 <= r < rows@.len() ==> #[trigger] final(self)@.pairs[r] == (
                    old(self)@.pairs[r].0,
                    *final(rows@[r].1),
                ),
            final(self).wf(),
    {
        let ghost before = self@;
        let rows = crate::table::keyed_mut(&mut self.pairs);
        proof {
            let after = Seq::new(
                rows@.len(),
                |r: int| (before.pairs[r].0, *final(rows@[r].1)),
            );
            before.lemma_with_rows(after);
            assert(after_borrow(self.pairs)@ =~= after);
        }
        rows
    }

    /// Splits the rows into two sides that can be walked and written
    /// independently; see `fork::fork`. The copies that the sides made are
    /// brought back with `merge`.
    pub fn fork<F: Fn(Key, &T) -> (Access, Access)>(&self, partition: F) -> (sides: (
        Fork<'_, T>,
        Fork<'_, T>,
    ))
        requires
            forall|r: int|
                0 <= r < self@.pairs.len() ==> partition.requires(
                    ((#[trigger] self@.pairs[r]).0, &self@.pairs[r].1),
                ),
            forall|key: Key, value: &T, grants: (Access, Access)|
                partition.ensures((key, value), grants) ==> !(grants.0 is Write && grants.1 is Write),
        ensures
            sides.0.wf(),
            sides.1.wf(),
            sides.0.rows() == self@.pairs,
            sides.1.rows() == self@.pairs,
            forall|r: int| 0 <= r < self@.pairs.len() ==> (#[trigger] sides.0.buffer()[r]) is None,
            forall|r: int| 0 <= r < self@.pairs.len() ==> (#[trigger] sides.1.buffer()[r]) is None,
            forall|r: int|
                0 <= r < self@.pairs.len() ==> partition.ensures(
                    ((#[trigger] self@.pairs[r]).0, &self@.pairs[r].1),
                    (sides.0.grants()[r], sides.1.grants()[r]),
                ),
            disjoint(sides.0.grants(), sides.1.grants()),
    {
        proof {
            assert forall|r: int| 0 <= r < self.pairs@.len() implies partition.requires(
                ((#[trigger] self.pairs@[r]).0, &self.pairs@[r].1),
            ) by {
                assert(self.pairs@[r] == self@.pairs[r]);
            }
        }
        crate::fork::fork(&self.pairs, partition)
    }

    /// Merges a buffer of written copies into the rows: row `r` takes the
    /// buffer's value at `r` where there is one, and keeps its own where
    /// there is none or the buffer is shorter. No key moves.
    pub fn merge(&mut self, buffer: Vec<Option<T>>)
        requires
            old(self).wf(),
        ensures
            final(self).wf(),
            advanced(old(self)@.slots, final(self)@.slots),
            final(self)@ == old(self)@.merged(buffer@),
    {
        let mut buffer = buffer;
        let ghost all = buffer@;
        let ghost before = self@;
        proof {
            before.lemma_merged(all);
        }
        while buffer.len() > 0
            invariant
                buffer@.len() <= all.len(),
                buffer@ == all.take(buffer@.len() as int),
                self.pairs@.len() == before.pairs.len(),
                forall|r: int|
                    0 <= r < self.pairs@.len() ==> #[trigger] self.pairs@[r] == (if r >= buffer@.len() {
                        before.merged(all).pairs[r]
                    } else {
                        before.pairs[r]
                    }),
                self.keys.slots@ == before.slots,
                self.keys.free@ == before.free,
                self.keys.cursor == before.cursor,
                self.keys.last == before.last,
            decreases buffer@.len(),
        {
            let entry = buffer.pop();
            let row = buffer.len();
            proof {
                assert(buffer@ =~= all.take(row as int));
            }
            match entry {
                Some(Some(value)) => {
                    if row < self.pairs.len() {
                        let key = self.pairs[row].0;
                        self.pairs.set(row, (key, value));
                    }
                },
                _ => {},
            }
        }
        proof {
            assert(self.pairs@ =~= before.merged(all).pairs);
        }
    }

    /// Reads the shared counters back before a step that asks for `n` keys,
    /// and returns what they held; see `Keys::catch_up`.
    pub(crate) fn catch_up(&mut self, n: usize) -> (read: (i64, u32))
        requires
            old(self).wf(),
        ensures
            final(self).wf(),
            final(self)@ == old(self)@.caught_up(read.0 as int, read.1 as int, n as int),
            old(self)@.can_reserve(n as int) ==> final(self)@.can_reserve(n as int),
    {
        let read = self.keys.catch_up(n);
        proof {
            old(self)@.lemma_caught_up(read.0 as int, read.1 as int, n as int);
        }
        read
    }

    /// Leaves the shared counters current, for those who reserve through a
    /// shared reference next.
    pub(crate) fn publish(&self) {
        self.keys.share();
    }

    /// Offers a pair to the store as it stands: a key that waits in the
    /// free list is turned away, any other key is tried.
    pub(crate) fn step_offer(&mut self, key: Key, value: T) -> (result: Result<(), T>)
        requires
            old(self).wf(),
        ensures
            final(self).wf(),
            final(self)@ == old(self)@.offered(key, value),
            result == old(self)@.offer_result(key, value),
            result is Ok ==> final(self)@.get(key) == Some(value) && !old(self)@.has(key)
                && final(self)@.len() == old(self)@.len() + 1,
            result is Err ==> final(self)@.pairs == old(self)@.pairs,
            forall|other: Key| other != key ==> final(self)@.get(other) == old(self)@.get(other),
    {
        if self.keys.is_claimable(key) {
            Err(value)
        } else {
            proof {
                self@.lemma_placed(key, value);
            }
            self.step_try_insert(key, value)
        }
    }

    /// Inserts a value under a newly reserved key and returns the key. The
    /// shared counters are read back first; then the key is the most
    /// recently freed key of the free list if one is claimable, else a key
    /// at the next fresh index. The key named nothing before and names the
    /// value now; every other key names what it named.
    pub fn insert(&mut self, value: T) -> (key: Key)
        requires
            old(self).wf(),
            old(self)@.can_reserve(1),
        ensures
            final(self).wf(),
            advanced(old(self)@.slots, final(self)@.slots),
            exists|cursor: int, last: int|
                final(self)@ == (#[trigger] old(self)@.caught_up(cursor, last, 1)).inserted(value)
                    && key == old(self)@.caught_up(cursor, last, 1).next_key(),
            granted(old(self)@.free, old(self)@.cursor, old(self)@.last, key),
            !old(self)@.has(key),
            final(self)@.get(key) == Some(value),
            final(self)@.len() == old(self)@.len() + 1,
            final(self)@.pairs == old(self)@.pairs.push((key, value)),
            forall|other: Key| other != key ==> final(self)@.get(other) == old(self)@.get(other),
    {
        let read = self.catch_up(1);
        let ghost start = self@;
        proof {
            old(self)@.lemma_caught_up(read.0 as int, read.1 as int, 1);
            start.lemma_inserted(value);
            start.lemma_reserved_wf(1);
            start.reserved(1).lemma_advanced(start.next_key(), value);
            old(self)@.lemma_reserved_granted(read.0 as int, read.1 as int, 1, 0);
        }
        let key = self.step_insert(value);
        self.publish();
        proof {
            assert(self@ == old(self)@.caught_up(read.0 as int, read.1 as int, 1).inserted(value));
        }
        key
    }

    /// Inserts a list of values under keys reserved in one request, after
    /// the shared counters were read back, and returns the keys in the
    /// values' order. Each key names its value afterwards; every key that is
    /// not among them names what it named.
    pub fn insert_n(&mut self, values: Vec<T>) -> (keys: Vec<Key>)
        requires
            old(self).wf(),
            old(self)@.can_reserve(values@.len() as int),
        ensures
            final(self).wf(),
            advanced(old(self)@.slots, final(self)@.slots),
            exists|cursor: int, last: int|
                final(self)@ == (#[trigger] old(self)@.caught_up(
                    cursor,
                    last,
                    values@.len() as int,
                )).inserted_all(values@) && keys@ == old(self)@.caught_up(
                    cursor,
                    last,
                    values@.len() as int,
                ).reserved_keys(values@.len() as int),
            keys@.len() == values@.len(),
            final(self)@.len() == old(self)@.len() + values@.len(),
            final(self)@.pairs == old(self)@.pairs + Table::<T>::paired(keys@, values@),
            forall|i: int| 0 <= i < values@.len() ==> final(self)@.get(#[trigger] keys@[i]) == Some(values@[i]),
            forall|other: Key| !keys@.contains(other) ==> final(self)@.get(other) == old(self)@.get(other),
    {
        let read = self.catch_up(values.len());
        let ghost start = self@;
        let ghost all = values@;
        proof {
            old(self)@.lemma_caught_up(read.0 as int, read.1 as int, all.len() as int);
            start.lemma_inserted_prefix(all, all.len() as int);
            let paired = Table::<T>::paired(start.reserved_keys(all.len() as int), all);
            assert(paired.take(all.len() as int) =~= paired);
            start.reserved(all.len() as int).lemma_advanced_placed(paired);
        }
        let keys = self.step_insert_n(values);
        self.publish();
        proof {
            assert(self@ == old(self)@.caught_up(
                read.0 as int,
                read.1 as int,
                all.len() as int,
            ).inserted_all(all));
        }
        keys
    }

    /// Tries an insertion at a key, after the shared counters were read
    /// back. The pair becomes the last row when the key was handed out and
    /// its slot is vacant at the key's generation. The value comes back for
    /// a key that still waits in the free list, whose slot is occupied or
    /// at another generation, or whose index was never handed out.
    pub fn try_insert(&mut self, key: Key, value: T) -> (result: Result<(), T>)
        requires
            old(self).wf(),
        ensures
            final(self).wf(),
            advanced(old(self)@.slots, final(self)@.slots),
            exists|cursor: int, last: int|
                final(self)@ == (#[trigger] old(self)@.caught_up(cursor, last, 0)).offered(key, value)
                    && result == old(self)@.caught_up(cursor, last, 0).offer_result(key, value),
            result is Ok ==> final(self)@.get(key) == Some(value) && !old(self)@.has(key)
                && final(self)@.pairs == old(self)@.pairs.push((key, value)),
            result is Err ==> result == Err::<(), T>(value) && final(self)@.pairs == old(self)@.pairs,
            old(self)@.has(key) ==> result is Err,
            forall|other: Key| other != key ==> final(self)@.get(other) == old(self)@.get(other),
    {
        let read = self.catch_up(0);
        proof {
            old(self)@.lemma_caught_up(read.0 as int, read.1 as int, 0);
            self@.lemma_advanced(key, value);
        }
        let result = self.step_offer(key, value);
        proof {
            assert(self@ == old(self)@.caught_up(read.0 as int, read.1 as int, 0).offered(key, value));
        }
        result
    }

    /// Tries each pair at its key, in order, after the shared counters were
    /// read back; see `try_insert`.
    pub fn try_insert_n(&mut self, pairs: Vec<(Key, T)>) -> (results: Vec<Result<(), T>>)
        requires
            old(self).wf(),
        ensures
            final(self).wf(),
            advanced(old(self)@.slots, final(self)@.slots),
            results@.len() == pairs@.len(),
            exists|cursor: int, last: int|
                final(self)@ == (#[trigger] old(self)@.caught_up(cursor, last, 0)).tried_all(pairs@)
                    && results@ == old(self)@.caught_up(cursor, last, 0).tried_results(pairs@),
    {
        let read = self.catch_up(0);
        let ghost start = self@;
        let ghost all = pairs@;
        let mut results: Vec<Result<(), T>> = Vec::new();
        proof {
            assert(all.take(0) =~= Seq::<(Key, T)>::empty());
            old(self)@.lemma_caught_up(read.0 as int, read.1 as int, 0);
            start.lemma_advanced_all(all, Seq::empty());
        }
        for pair in it: pairs
            invariant
                it.seq() == all,
                start.wf(),
                self.wf(),
                results@.len() == it.index(),
                self@ == start.tried_all(all.take(it.index() as int)),
                results@ == start.tried_results(all.take(it.index() as int)),
        {
            proof {
                let next = all.take(it.index() + 1);
                assert(next.drop_last() =~= all.take(it.index() as int));
                assert(next.last() == pair);
            }
            let (key, value) = pair;
            let result = self.step_offer(key, value);
            results.push(result);
        }
        proof {
            assert(all.take(all.len() as int) =~= all);
        }
        results
    }

    /// Removes the value that a key names and returns it; `None` for a stale
    /// key. The key, and every earlier key of its index, names nothing from
    /// then on; every other key names what it named. Rows and slots change
    /// as `Table::removed` says, whatever the shared counters held; the
    /// free list is cut at the cursor that was read back.
    pub fn remove(&mut self, key: Key) -> (value: Option<T>)
        requires
            old(self).wf(),
        ensures
            final(self).wf(),
            advanced(old(self)@.slots, final(self)@.slots),
            exists|cursor: int, last: int|
                final(self)@ == (#[trigger] old(self)@.caught_up(cursor, last, 0)).removed(key),
            value == old(self)@.get(key),
            value is Some ==> spent(final(self)@, key),
            final(self)@.pairs == old(self)@.removed(key).pairs,
            final(self)@.slots == old(self)@.removed(key).slots,
            final(self)@.get(key) is None,
            forall|other: Key| other != key ==> final(self)@.get(other) == old(self)@.get(other),
    {
        let read = self.catch_up(0);
        proof {
            old(self)@.lemma_caught_up(read.0 as int, read.1 as int, 0);
            self@.lemma_advanced(key, arbitrary());
            if self@.has(key) {
                crate::laws::law_removed_is_spent(self@, key);
            }
        }
        let value = self.step_remove(key);
        self.publish();
        proof {
            assert(self@ == old(self)@.caught_up(read.0 as int, read.1 as int, 0).removed(key));
        }
        value
    }

    /// Tries the removal of each key, in order, after the shared counters
    /// were read back; see `remove`.
    pub fn remove_n(&mut self, keys: Vec<Key>) -> (values: Vec<Option<T>>)
        requires
            old(self).wf(),
        ensures
            final(self).wf(),
            advanced(old(self)@.slots, final(self)@.slots),
            values@.len() == keys@.len(),
            exists|cursor: int, last: int|
                final(self)@ == (#[trigger] old(self)@.caught_up(cursor, last, 0)).removed_all(keys@)
                    && values@ == old(self)@.caught_up(cursor, last, 0).removed_values(keys@),
            forall|i: int| 0 <= i < keys@.len() ==> final(self)@.get(#[trigger] keys@[i]) is None,
            forall|other: Key| !keys@.contains(other) ==> final(self)@.get(other) == old(self)@.get(other),
    {
        let read = self.catch_up(0);
        let ghost start = self@;
        proof {
            old(self)@.lemma_caught_up(read.0 as int, read.1 as int, 0);
            start.lemma_removed_values_len(keys@);
            start.lemma_advanced_all(Seq::empty(), keys@);
            assert forall|i: int| 0 <= i < keys@.len() implies start.removed_all(keys@).get(
                #[trigger] keys@[i],
            ) is None by {
                start.lemma_removed_all_gone(keys@, i);
            }
            assert forall|other: Key| !keys@.contains(other) implies start.removed_all(keys@).get(other)
                == start.get(other) by {
                start.lemma_removed_all_keeps(keys@, other);
            }
        }
        let values = self.step_remove_n(keys);
        self.publish();
        proof {
            assert(self@ == old(self)@.caught_up(read.0 as int, read.1 as int, 0).removed_all(keys@));
        }
        values
    }

    /// Hands out one key for every place of `keys`, with the store held
    /// exclusively; see `reserve_n_mut`.
    pub fn reserve_mut(&mut self, keys: &mut Vec<Key>)
        requires
            old(self).wf(),
            old(self)@.can_reserve(old(keys)@.len() as int),
        ensures
            final(self).wf(),
            advanced(old(self)@.slots, final(self)@.slots),
            final(keys)@.len() == old(keys)@.len(),
            exists|cursor: int, last: int|
                final(self)@ == (#[trigger] old(self)@.caught_up(
                    cursor,
                    last,
                    old(keys)@.len() as int,
                )).reserved(old(keys)@.len() as int) && final(keys)@ == old(self)@.caught_up(
                    cursor,
                    last,
                    old(keys)@.len() as int,
                ).reserved_keys(old(keys)@.len() as int),
            forall|i: int| 0 <= i < final(keys)@.len() ==> !old(self)@.has(#[trigger] final(keys)@[i]),
            forall|i: int|
                0 <= i < final(keys)@.len() ==> granted(
                    old(self)@.free,
                    old(self)@.cursor,
                    old(self)@.last,
                    #[trigger] final(keys)@[i],
                ),
            forall|i: int, j: int|
                0 <= i < j < final(keys)@.len() ==> final(keys)@[i] != final(keys)@[j],
            forall|key: Key| final(self)@.get(key) == old(self)@.get(key),
    {
        let ghost n = keys@.len() as int;
        let read = self.catch_up(keys.len());
        let ghost start = self@;
        proof {
            old(self)@.lemma_caught_up(read.0 as int, read.1 as int, n);
            start.lemma_reserved_wf(n);
            assert forall|i: int| 0 <= i < n implies !start.has(#[trigger] start.reserved_keys(n)[i]) by {
                start.lemma_reserved_key(n, i);
            }
            assert forall|i: int| 0 <= i < n implies granted(
                old(self)@.free,
                old(self)@.cursor,
                old(self)@.last,
                #[trigger] start.reserved_keys(n)[i],
            ) by {
                old(self)@.lemma_reserved_granted(read.0 as int, read.1 as int, n, i);
            }
            assert forall|i: int, j: int| 0 <= i < j < n implies start.reserved_keys(n)[i]
                != start.reserved_keys(n)[j] by {
                start.lemma_reserved_key(n, i);
            }
        }
        self.step_reserve(keys);
        self.publish();
        proof {
            assert(self@ == old(self)@.caught_up(read.0 as int, read.1 as int, n).reserved(n));
        }
    }

    /// Hands out `n` keys that name nothing yet and that no later request
    /// hands out again, with the store held exclusively. The shared counters
    /// are read back first. Keys of removed values are recycled, most
    /// recently freed last; what the free list cannot serve is minted at
    /// fresh indices.
    pub fn reserve_n_mut(&mut self, n: usize) -> (keys: Vec<Key>)
        requires
            old(self).wf(),
            old(self)@.can_reserve(n as int),
        ensures
            final(self).wf(),
            advanced(old(self)@.slots, final(self)@.slots),
            keys@.len() == n,
            exists|cursor: int, last: int|
                final(self)@ == (#[trigger] old(self)@.caught_up(cursor, last, n as int)).reserved(
                    n as int,
                ) && keys@ == old(self)@.caught_up(cursor, last, n as int).reserved_keys(n as int),
            forall|i: int| 0 <= i < n ==> !old(self)@.has(#[trigger] keys@[i]),
            forall|i: int|
                0 <= i < n ==> granted(old(self)@.free, old(self)@.cursor, old(self)@.last, #[trigger] keys@[i]),
            forall|i: int, j: int| 0 <= i < j < n ==> keys@[i] != keys@[j],
            forall|key: Key| final(self)@.get(key) == old(self)@.get(key),
    {
        let mut keys = blank(n);
        self.reserve_mut(&mut keys);
        keys
    }

    /// Hands out one key for every place of `keys` through a shared
    /// reference, at any time, while other callers do the same on the
    /// shared counters. Recycled keys are claimable entries of the free
    /// list; fresh keys lie at or above the store's high-water mark. Returns
    /// `false`, with no fresh key written, when the index space is used up.
    /// A request for no key is always done.
    pub fn reserve(&self, keys: &mut Vec<Key>) -> (done: bool)
        requires
            old(keys)@.len() <= i64::MAX,
        ensures
            final(keys)@.len() == old(keys)@.len(),
            outcomes(old(keys)@, final(keys)@, self@.free, self@.limit(), self@.last, done),
            old(keys)@.len() == 0 ==> done,
            done ==> answers(final(keys)@, self@.free),
            done ==> forall|i: int|
                0 <= i < final(keys)@.len() ==> granted(
                    self@.free,
                    self@.cursor,
                    self@.last,
                    #[trigger] final(keys)@[i],
                ),
    {
        self.keys.reserve(keys)
    }

    /// Reserves `n` keys through a shared reference, as `reserve` does;
    /// `None` when the index space is used up. A request for no key always
    /// gives `Some`.
    pub fn reserve_n(&self, n: usize) -> (keys: Option<Vec<Key>>)
        requires
            n <= i64::MAX,
        ensures
            n == 0 ==> keys is Some,
            keys matches Some(k) ==> {
                &&& k@.len() == n
                &&& outcomes(
                    Seq::new(n as nat, |i: int| Key::null()),
                    k@,
                    self@.free,
                    self@.limit(),
                    self@.last,
                    true,
                )
                &&& answers(k@, self@.free)
                &&& forall|i: int|
                    0 <= i < n ==> granted(self@.free, self@.cursor, self@.last, #[trigger] k@[i])
            },
    {
        self.keys.reserve_n(n)
    }

    /// Gives reserved keys back unused, after the shared counters were read
    /// back. The keys must have been handed out and not inserted since,
    /// each index once; one whose slot is occupied or at another generation
    /// is passed over. No key names anything else afterwards.
    pub fn release(&mut self, keys: Vec<Key>)
        requires
            old(self).wf(),
            forall|i: int|
                0 <= i < keys@.len() ==> !claimable(old(self)@.free, old(self)@.cursor, #[trigger] keys@[i]),
            forall|i: int, j: int|
                0 <= i < j < keys@.len() ==> (#[trigger] keys@[i]).index != (#[trigger] keys@[j]).index,
        ensures
            final(self).wf(),
            advanced(old(self)@.slots, final(self)@.slots),
            exists|cursor: int, last: int|
                final(self)@ == (#[trigger] old(self)@.caught_up(cursor, last, 0)).released_all(keys@),
            final(self)@.pairs == old(self)@.pairs,
            forall|other: Key| final(self)@.get(other) == old(self)@.get(other),
    {
        let read = self.catch_up(0);
        let ghost start = self@;
        proof {
            old(self)@.lemma_caught_up(read.0 as int, read.1 as int, 0);
            start.lemma_released_all(keys@);
            start.lemma_advanced_released(keys@);
        }
        self.step_release(keys);
        self.publish();
        proof {
            assert(self@ == old(self)@.caught_up(read.0 as int, read.1 as int, 0).released_all(keys@));
        }
    }

    /// Opens a scope: hands out a write view with no row touched, a read
    /// view and a deferring handle, which live as long as the store stays
    /// borrowed. Nothing that the handles do changes a row, a slot or the
    /// free list: what was written comes back as the write view's buffer,
    /// for `merge`, and what was deferred waits for `resolve`.
    pub fn defer(&mut self) -> (handles: (Write<'_, T>, Read<'_, T>, Defer<'_, T>))
        requires
            old(self).wf(),
        ensures
            final(self)@ == old(self)@,
            final(self).wf(),
            opens(old(self)@, handles.0, handles.1, handles.2),
    {
        let write = Write::new(&self.keys, &self.pairs);
        let read = Read::new(&self.keys, &self.pairs);
        let defer = Defer::new(&self.keys, &self.inserts, &self.removes);
        (write, read, defer)
    }

    /// Applies what a scope left behind, given as plain values: the shared
    /// counters' last values and the drained buffers. The store's counters
    /// are brought up to the shared ones; the queued pairs are tried in the
    /// order in which they were queued, and one whose key still waits in
    /// the free list, or is refused at its turn, is dropped; then the queued
    /// keys are removed, which leaves the free list compacted.
    pub fn settle(&mut self, cursor: i64, last: u32, inserts: Vec<(Key, T)>, removes: Vec<Key>)
        requires
            old(self).wf(),
        ensures
            final(self).wf(),
            advanced(old(self)@.slots, final(self)@.slots),
            final(self)@ == old(self)@.settled(cursor as int, last as int, inserts@, removes@),
    {
        let ghost before = self@;
        proof {
            before.lemma_synced(cursor as int, last as int);
            before.lemma_settled(cursor as int, last as int, inserts@, removes@);
            before.lemma_advanced_settled(cursor as int, last as int, inserts@, removes@);
        }
        self.keys.adopt(cursor, last);
        let ghost synced = self@;
        assert(synced == before.synced(cursor as int, last as int));
        let ghost all = inserts@;
        let mut accepted: Vec<(Key, T)> = Vec::new();
        proof {
            assert(all.take(0) =~= Seq::<(Key, T)>::empty());
        }
        for pair in it: inserts
            invariant
                it.seq() == all,
                accepted@ == synced.accepted(all.take(it.index() as int)),
                self.keys.free@ == synced.free,
                self.keys.cursor == synced.cursor,
        {
            proof {
                let next = all.take(it.index() + 1);
                assert(next.drop_last() =~= all.take(it.index() as int));
                assert(next.last() == pair);
            }
            if !is_claimable(&self.keys.free, self.keys.cursor, pair.0) {
                accepted.push(pair);
            }
        }
        proof {
            assert(all.take(all.len() as int) =~= all);
            synced.lemma_accepted(all);
            synced.lemma_placed_all(accepted@);
            synced.lemma_placed_all_grown(accepted@);
        }
        let _ = crate::table::insert(
            accepted,
            &mut self.pairs,
            self.keys.last,
            &mut self.keys.slots,
            Ghost(synced),
        );
        let ghost placed = self@;
        let _ = crate::table::remove(
            &removes,
            &mut self.pairs,
            &mut self.keys.slots,
            &mut self.keys.free,
            &mut self.keys.cursor,
            Ghost(placed),
        );
        proof {
            placed.lemma_removed_all(removes@);
        }
        self.publish();
    }

    /// Closes a scope: reads the shared counters, drains the two buffers
    /// and settles them. What the counters and buffers held depends on
    /// every holder of the scope's handles; the store is consistent
    /// whatever it was.
    pub fn resolve(&mut self)
        requires
            old(self).wf(),
        ensures
            final(self).wf(),
            advanced(old(self)@.slots, final(self)@.slots),
            settles(old(self)@, final(self)@),
    {
        let cursor = read_cursor(&self.keys.claims);
        let last = read_mark(&self.keys.marks);
        let inserts = queue_drain(&mut self.inserts);
        let removes = set_drain(&mut self.removes);
        proof {
            assert(self@ == old(self)@);
        }
        self.settle(cursor, last, inserts, removes);
        proof {
            assert(self@ == old(self)@.settled(cursor as int, last as int, inserts@, removes@));
        }
    }

    /// Runs `logic` with the handles of a newly opened scope, then closes
    /// the scope. `logic` returns its result together with the buffer of
    /// its write view. The rows that it touched take what was written to
    /// their copies, row by row, while row numbers still mean what they
    /// meant in the scope; then the insertions and removals that it
    /// deferred are applied, all insertions first. Returns the result of
    /// `logic`.
    pub fn scope<U, S: FnOnce(Write<T>, Read<T>, Defer<T>) -> (U, Vec<Option<T>>)>(
        &mut self,
        logic: S,
    ) -> (value: U)
        requires
            old(self).wf(),
            forall|write: Write<T>, read: Read<T>, defer: Defer<T>|
                opens(old(self)@, write, read, defer) ==> logic.requires((write, read, defer)),
        ensures
            final(self).wf(),
            advanced(old(self)@.slots, final(self)@.slots),
            exists|write: Write<T>, read: Read<T>, defer: Defer<T>, buffer: Vec<Option<T>>|
                opens(old(self)@, write, read, defer) && logic.ensures(
                    (write, read, defer),
                    (value, buffer),
                ) && settles(old(self)@.merged(buffer@), final(self)@),
    {
        let (write, read, defer) = self.defer();
        let (value, buffer) = logic(write, read, defer);
        self.merge(buffer);
        self.resolve();
        value
    }
}

} // verus!
