//! Keys and slots: the generational validity layer.

use crate::table::{
    answers, claimable, granted, lemma_free_below_slots, lemma_outcome_granted, outcome, outcomes,
    recycled, reserved_key, row_of, table_ok,
};
use std::sync::atomic::{AtomicI64, AtomicU32};
use vstd::prelude::*;

verus! {

/// The row value of a slot that holds no live value.
pub const VACANT: u32 = 0xffff_ffff;

/// A handle naming one index of the store at one generation. It owns nothing:
/// whether it still names a live value is decided against the slot table on
/// every use.
#[derive(Debug, Clone, Copy, PartialEq, Eq, Structural, PartialOrd, Ord, Hash)]
pub struct Key {
    pub generation: u32,
    pub index: u32,
}

/// Bookkeeping for one index: the generation that is current there and the
/// dense row of the live value, or `VACANT`.
#[derive(Debug, Clone, Copy, PartialEq, Eq, Structural)]
pub struct Slot {
    pub generation: u32,
    pub row: u32,
}

impl Key {
    pub open spec fn null_value() -> Key {
        Key { generation: VACANT, index: VACANT }
    }

    /// The sentinel key `(MAX, MAX)`, which never names a live value.
    #[verifier::when_used_as_spec(null_value)]
    pub fn null() -> (key: Key)
        ensures
            key == Key::null_value(),
    {
        Key { generation: VACANT, index: VACANT }
    }

    pub open spec fn zero_value() -> Key {
        Key { generation: 0, index: 0 }
    }

    /// The key `(0, 0)`: the first key that a new store hands out.
    #[verifier::when_used_as_spec(zero_value)]
    pub fn zero() -> (key: Key)
        ensures
            key == Key::zero_value(),
    {
        Key { generation: 0, index: 0 }
    }

    /// The same index one generation later; `None` once the generation
    /// counter is exhausted.
    pub open spec fn successor(self) -> Option<Key> {
        if self.generation < u32::MAX {
            Some(Key { generation: (self.generation + 1) as u32, index: self.index })
        } else {
            None
        }
    }

    pub fn new(generation: u32, index: u32) -> (key: Key)
        ensures
            key == (Key { generation, index }),
    {
        Key { generation, index }
    }

    pub fn index(&self) -> (index: u32)
        ensures
            index == self.index,
    {
        self.index
    }

    pub fn generation(&self) -> (generation: u32)
        ensures
            generation == self.generation,
    {
        self.generation
    }

    pub fn increment(self) -> (next: Option<Key>)
        ensures
            next == self.successor(),
    {
        match self.generation.checked_add(1) {
            Some(generation) => Some(Key { generation, index: self.index }),
            None => None,
        }
    }
}

impl Slot {
    pub open spec fn zero_value() -> Slot {
        Slot { generation: 0, row: VACANT }
    }

    /// The slot of an index that has never held a value.
    #[verifier::when_used_as_spec(zero_value)]
    pub fn zero() -> (slot: Slot)
        ensures
            slot == Slot::zero_value(),
    {
        Slot { generation: 0, row: VACANT }
    }

    pub open spec fn vacant(self) -> bool {
        self.row == VACANT
    }

    /// A key is accepted by a slot when the slot is at the key's generation.
    pub open spec fn accepts(self, generation: u32) -> bool {
        self.generation == generation
    }

    /// Whether `initialize` with this generation and row takes the slot.
    pub open spec fn takes(self, generation: u32, row: u32) -> bool {
        self.generation == generation && generation < u32::MAX && self.row == VACANT && row
            < VACANT
    }

    pub open spec fn spec_initialize(self, generation: u32, row: u32) -> Slot {
        if self.takes(generation, row) {
            Slot { generation, row }
        } else {
            self
        }
    }

    pub open spec fn spec_release(self, generation: u32) -> Slot {
        if self.generation == generation && self.row != VACANT {
            Slot {
                generation: if self.generation < u32::MAX {
                    (self.generation + 1) as u32
                } else {
                    self.generation
                },
                row: VACANT,
            }
        } else {
            self
        }
    }

    pub fn new(generation: u32, row: u32) -> (slot: Slot)
        ensures
            slot == (Slot { generation, row }),
    {
        Slot { generation, row }
    }

    pub fn is(&self, generation: u32) -> (same: bool)
        ensures
            same == self.accepts(generation),
    {
        self.generation == generation
    }

    pub fn row(&self) -> (row: u32)
        ensures
            row == self.row,
    {
        self.row
    }

    /// Occupies a vacant slot of the given generation with a row. Returns
    /// whether it did; a slot at another generation, one that is occupied,
    /// or one at the last generation, which is retired, is left as it was.
    pub fn initialize(&mut self, generation: u32, row: u32) -> (done: bool)
        ensures
            done == old(self).takes(generation, row),
            *final(self) == old(self).spec_initialize(generation, row),
    {
        if self.generation == generation && generation < u32::MAX && self.row == VACANT && row
            < VACANT {
            self.row = row;
            true
        } else {
            false
        }
    }

    /// Vacates an occupied slot of the given generation and moves it to the
    /// next generation, saturating at the last one. Returns the row it held,
    /// or `None` with the slot unchanged when the generation differs or the
    /// slot is vacant.
    pub fn release(&mut self, generation: u32) -> (row: Option<u32>)
        ensures
            row == (if old(self).generation == generation && !old(self).vacant() {
                Some(old(self).row)
            } else {
                None
            }),
            *final(self) == old(self).spec_release(generation),
    {
        if self.generation == generation && self.row < VACANT {
            let row = self.row;
            self.generation = self.generation.saturating_add(1);
            self.row = VACANT;
            Some(row)
        } else {
            None
        }
    }

    /// Records a new row for the slot. A retired slot, one that is vacant at
    /// the last generation, refuses and is left as it was.
    pub fn update(&mut self, row: u32) -> (done: bool)
        ensures
            done == (old(self).generation < u32::MAX || !old(self).vacant()),
            *final(self) == (if done {
                Slot { generation: old(self).generation, row }
            } else {
                *old(self)
            }),
    {
        if self.generation < u32::MAX || self.row < VACANT {
            self.row = row;
            true
        } else {
            false
        }
    }
}

/// The high-water mark after the shared one was read back: it never drops.
pub open spec fn adopted_mark(own: int, shared: int) -> int {
    if own <= shared {
        shared
    } else {
        own
    }
}

/// The cursor after the shared one was read back: it never rises, and it
/// stays within what the high-water mark allows.
pub open spec fn adopted_cursor(own: int, mark: int, shared: int) -> int {
    let low = if shared < own {
        shared
    } else {
        own
    };
    if low < -mark {
        -mark
    } else {
        low
    }
}

/// The counters `cursor` and `last` are what a table with the counters
/// `own_cursor` and `own_last` holds once it has read back the shared
/// values `shared_cursor` and `shared_last`.
pub open spec fn adopts(
    own_cursor: int,
    own_last: int,
    cursor: int,
    last: int,
    shared_cursor: int,
    shared_last: int,
) -> bool {
    &&& i64::MIN <= shared_cursor <= i64::MAX
    &&& 0 <= shared_last <= u32::MAX
    &&& last == adopted_mark(own_last, shared_last)
    &&& cursor == adopted_cursor(own_cursor, last, shared_cursor)
}

/// The high-water mark once the shared counters were read back before a
/// request for `n` keys: the adopted one, unless that leaves no room for the
/// request.
pub open spec fn caught_mark(
    own_cursor: int,
    own_last: int,
    shared_cursor: int,
    shared_last: int,
    n: int,
) -> int {
    let mark = adopted_mark(own_last, shared_last);
    let cursor = adopted_cursor(own_cursor, mark, shared_cursor);
    if mark + n - recycled(n, cursor) <= u32::MAX {
        mark
    } else {
        own_last
    }
}

/// The cursor once the shared counters were read back before a request for
/// `n` keys: the adopted one, unless that leaves no room for the request.
pub open spec fn caught_cursor(
    own_cursor: int,
    own_last: int,
    shared_cursor: int,
    shared_last: int,
    n: int,
) -> int {
    let mark = adopted_mark(own_last, shared_last);
    let cursor = adopted_cursor(own_cursor, mark, shared_cursor);
    if mark + n - recycled(n, cursor) <= u32::MAX {
        cursor
    } else {
        own_cursor
    }
}

/// The keys and the counters `cursor` and `last` are what an exclusive
/// request leaves, on a table with the counters `own_cursor` and `own_last`
/// that read back the shared values first.
pub open spec fn took(
    own_cursor: int,
    own_last: int,
    free: Seq<Key>,
    shared_cursor: int,
    shared_last: int,
    keys: Seq<Key>,
    cursor: int,
    last: int,
) -> bool {
    let n = keys.len() as int;
    let from = caught_cursor(own_cursor, own_last, shared_cursor, shared_last, n);
    let mark = caught_mark(own_cursor, own_last, shared_cursor, shared_last, n);
    &&& i64::MIN <= shared_cursor <= i64::MAX
    &&& 0 <= shared_last <= u32::MAX
    &&& cursor == from - n
    &&& last == mark + n - recycled(n, from)
    &&& forall|i: int| 0 <= i < n ==> #[trigger] keys[i] == reserved_key(n, from, free, mark, i)
}

/// The key table: a slot for every index that was handed out and has been
/// used, the free list of keys that wait for reuse, and the counters of
/// reservation.
///
/// `last` and `cursor` are in force whenever the table is held exclusively.
/// `marks` and `claims` are their shared counterparts, on which reservation
/// through a shared reference runs. An exclusive request reads them back
/// before it serves itself and leaves them at the table's own afterwards,
/// so shared and exclusive requests never hand out one key twice.
pub struct Keys {
    pub(crate) slots: Vec<Slot>,
    pub(crate) last: u32,
    pub(crate) free: Vec<Key>,
    pub(crate) cursor: i64,
    pub(crate) marks: AtomicU32,
    pub(crate) claims: AtomicI64,
}

impl Keys {
    pub open(crate) spec fn slots(&self) -> Seq<Slot> {
        self.slots@
    }

    /// The free list, claimable entries first.
    pub open(crate) spec fn free(&self) -> Seq<Key> {
        self.free@
    }

    /// How many entries of the free list are claimable; below zero once
    /// more keys were asked for than it held.
    pub open(crate) spec fn cursor(&self) -> int {
        self.cursor as int
    }

    /// The high-water mark: every index below it was handed out.
    pub open(crate) spec fn last(&self) -> int {
        self.last as int
    }

    /// Slots, free list and counters agree.
    pub open spec fn wf(&self) -> bool {
        table_ok(self.slots(), self.free(), self.cursor(), self.last())
    }

    /// Whether the index space has room for a request of `n` keys.
    pub open spec fn can_reserve(&self, n: int) -> bool {
        0 <= n && self.last() + n - recycled(n, self.cursor()) <= u32::MAX
    }

    /// A table that has handed out nothing.
    pub fn new() -> (keys: Self)
        ensures
            keys.wf(),
            keys.slots() == Seq::<Slot>::empty(),
            keys.free() == Seq::<Key>::empty(),
            keys.cursor() == 0,
            keys.last() == 0,
    {
        let keys = Keys {
            slots: Vec::new(),
            last: 0,
            free: Vec::new(),
            cursor: 0,
            marks: AtomicU32::new(0),
            claims: AtomicI64::new(0),
        };
        proof {
            assert(keys.slots@ =~= Seq::<Slot>::empty());
            assert(keys.free@ =~= Seq::<Key>::empty());
        }
        keys
    }

    /// The dense row of a live key; `None` for a key whose slot is missing,
    /// at another generation, or vacant.
    pub fn row(&self, key: Key) -> (row: Option<u32>)
        ensures
            row matches Some(r) ==> row_of(self.slots(), key) == Some(r as int),
            row is None ==> row_of(self.slots(), key) is None,
    {
        match self.get(key) {
            Some(slot) => {
                if slot.is(key.generation()) && slot.row() != VACANT {
                    Some(slot.row())
                } else {
                    None
                }
            },
            None => None,
        }
    }

    /// Whether the key is live: its slot exists, is at the key's generation
    /// and holds a row.
    pub fn has(&self, key: Key) -> (has: bool)
        ensures
            has == crate::table::live(self.slots(), key),
    {
        self.row(key).is_some()
    }

    /// Vacates the slot of a live key and moves it to the next generation;
    /// see `Slot::release`. Returns the row that the slot held, or `None`,
    /// with the table unchanged, for a key that is stale already.
    pub fn release(&mut self, key: Key) -> (row: Option<u32>)
        requires
            old(self).wf(),
        ensures
            final(self).wf(),
            row == (match row_of(old(self).slots(), key) {
                Some(r) => Some(r as u32),
                None => None,
            }),
            row is Some ==> final(self).slots() == old(self).slots().update(
                key.index as int,
                old(self).slots()[key.index as int].spec_release(key.generation),
            ),
            row is None ==> final(self).slots() == old(self).slots(),
            final(self).free() == old(self).free(),
            final(self).cursor() == old(self).cursor(),
            final(self).last() == old(self).last(),
    {
        if (key.index as usize) < self.slots.len() {
            let mut slot = self.slots[key.index as usize];
            match slot.release(key.generation) {
                Some(row) => {
                    self.slots.set(key.index as usize, slot);
                    proof {
                        crate::table::lemma_free_ok_kept(
                            old(self).slots@,
                            self.slots@,
                            self.free@,
                            old(self).cursor as int,
                            self.cursor as int,
                        );
                    }
                    return Some(row);
                },
                None => {},
            }
        }
        None
    }

    /// Occupies the slot of a key with a row; see `Slot::initialize`.
    /// Returns `false`, with the table unchanged, when the key has no slot
    /// or the slot refuses.
    pub fn initialize(&mut self, key: Key, row: u32) -> (done: bool)
        ensures
            done == (key.index < old(self).slots().len() && old(self).slots()[key.index as int].takes(
                key.generation,
                row,
            )),
            done ==> final(self).slots() == old(self).slots().update(
                key.index as int,
                Slot { generation: key.generation, row },
            ),
            !done ==> final(self).slots() == old(self).slots(),
            final(self).free() == old(self).free(),
            final(self).cursor() == old(self).cursor(),
            final(self).last() == old(self).last(),
    {
        if (key.index as usize) < self.slots.len() {
            let mut slot = self.slots[key.index as usize];
            if slot.initialize(key.generation, row) {
                self.slots.set(key.index as usize, slot);
                return true;
            }
        }
        false
    }

    /// The slot of a key's index, whatever its generation; `None` where the
    /// table has no slot for the index yet.
    pub fn get(&self, key: Key) -> (slot: Option<&Slot>)
        ensures
            slot matches Some(s) ==> key.index < self.slots().len() && *s == self.slots()[key.index as int],
            slot is None ==> key.index >= self.slots().len(),
    {
        if (key.index as usize) < self.slots.len() {
            Some(&self.slots[key.index as usize])
        } else {
            None
        }
    }

    /// The slot of a key's index, for writing.
    pub fn get_mut(&mut self, key: Key) -> (slot: Option<&mut Slot>)
        ensures
            final(self).free() == old(self).free(),
            final(self).cursor() == old(self).cursor(),
            final(self).last() == old(self).last(),
            slot matches Some(s) ==> key.index < old(self).slots().len() && *s == old(self).slots()[key.index as int]
                && final(self).slots() == old(self).slots().update(key.index as int, *final(s)),
            slot is None ==> key.index >= old(self).slots().len() && final(self).slots() == old(
                self,
            ).slots(),
    {
        if (key.index as usize) < self.slots.len() {
            Some(&mut self.slots[key.index as usize])
        } else {
            None
        }
    }

    /// Starts the shared counters from the table's own. From here on
    /// `reserve` hands out keys that the table's own counters know nothing
    /// of, until `gather` or `adopt` brings them up.
    pub fn share(&self) {
        crate::atomics::write_cursor(&self.claims, self.cursor);
        crate::atomics::write_mark(&self.marks, self.last);
    }

    /// Brings the table's own counters up to given values of the shared
    /// ones: the high-water mark never drops, the cursor never rises, and
    /// it stays within what the mark allows. The shared counters are left
    /// at the table's own.
    pub fn adopt(&mut self, cursor: i64, last: u32)
        requires
            old(self).wf(),
        ensures
            final(self).wf(),
            final(self).slots() == old(self).slots(),
            final(self).free() == old(self).free(),
            final(self).last() == adopted_mark(old(self).last(), last as int),
            final(self).cursor() == adopted_cursor(
                old(self).cursor(),
                final(self).last(),
                cursor as int,
            ),
    {
        if last > self.last {
            self.last = last;
        }
        if cursor < self.cursor {
            self.cursor = cursor;
        }
        if self.cursor < -(self.last as i64) {
            self.cursor = -(self.last as i64);
        }
        self.share();
        proof {
            crate::table::lemma_free_ok_kept(
                old(self).slots@,
                self.slots@,
                self.free@,
                old(self).cursor as int,
                self.cursor as int,
            );
        }
    }

    /// Reads the shared counters back before a request for `n` keys with the
    /// table held exclusively, and returns what they held. The table takes
    /// them over as `adopt` does. Only where that would leave no room for
    /// the request, which means that the index space is used up, it keeps
    /// its own counters.
    pub fn catch_up(&mut self, n: usize) -> (read: (i64, u32))
        requires
            old(self).wf(),
        ensures
            final(self).wf(),
            final(self).slots() == old(self).slots(),
            final(self).free() == old(self).free(),
            final(self).last() == caught_mark(
                old(self).cursor(),
                old(self).last(),
                read.0 as int,
                read.1 as int,
                n as int,
            ),
            final(self).cursor() == caught_cursor(
                old(self).cursor(),
                old(self).last(),
                read.0 as int,
                read.1 as int,
                n as int,
            ),
            old(self).can_reserve(n as int) ==> final(self).can_reserve(n as int),
    {
        let cursor = crate::atomics::read_cursor(&self.claims);
        let last = crate::atomics::read_mark(&self.marks);
        let mark: u32 = if last > self.last {
            last
        } else {
            self.last
        };
        let low: i64 = if cursor < self.cursor {
            cursor
        } else {
            self.cursor
        };
        let bound: i64 = if low < -(mark as i64) {
            -(mark as i64)
        } else {
            low
        };
        if crate::table::has_room(bound, mark, n) {
            self.adopt(cursor, last);
        }
        (cursor, last)
    }

    /// Reads the shared counters back into the table's own, as `adopt`
    /// does with the two values read. What they hold depends on every
    /// caller of `reserve` since `share`; whatever it is, the table is
    /// consistent, its mark has not dropped and its cursor has not risen.
    pub fn gather(&mut self)
        requires
            old(self).wf(),
        ensures
            final(self).wf(),
            final(self).slots() == old(self).slots(),
            final(self).free() == old(self).free(),
            exists|shared_cursor: int, shared_last: int| #[trigger]
                adopts(
                    old(self).cursor(),
                    old(self).last(),
                    final(self).cursor(),
                    final(self).last(),
                    shared_cursor,
                    shared_last,
                ),
            final(self).last() >= old(self).last(),
            final(self).cursor() <= old(self).cursor(),
    {
        let cursor = crate::atomics::read_cursor(&self.claims);
        let last = crate::atomics::read_mark(&self.marks);
        self.adopt(cursor, last);
        proof {
            assert(adopts(
                old(self).cursor(),
                old(self).last(),
                self.cursor(),
                self.last(),
                cursor as int,
                last as int,
            ));
        }
    }

    /// The table's own cursor as a bound on the shared one: shared
    /// reservation claims no entry of the free list beyond it.
    pub open spec fn limit(&self) -> int {
        if self.cursor() < 0 {
            0
        } else if self.cursor() > self.free().len() {
            self.free().len() as int
        } else {
            self.cursor()
        }
    }

    /// Hands out one key for every place of `keys` while the table is
    /// shared: it runs on the shared counters and leaves the table's own
    /// untouched. The shared cursor counts no further than the table's own,
    /// so every recycled key is a claimable entry of the free list; a fresh
    /// key is never below the table's own high-water mark. Returns `false`,
    /// with no fresh key written, when the index space is used up or the
    /// shared mark is behind the table's own. A request for no key is
    /// always done.
    pub fn reserve(&self, keys: &mut Vec<Key>) -> (done: bool)
        requires
            old(keys)@.len() <= i64::MAX,
        ensures
            final(keys)@.len() == old(keys)@.len(),
            outcomes(old(keys)@, final(keys)@, self.free(), self.limit(), self.last(), done),
            old(keys)@.len() == 0 ==> done,
            done ==> answers(final(keys)@, self.free()),
            done ==> forall|i: int|
                0 <= i < final(keys)@.len() ==> granted(
                    self.free(),
                    self.cursor(),
                    self.last(),
                    #[trigger] final(keys)@[i],
                ),
    {
        let limit: usize = if self.cursor < 0 {
            0
        } else if self.cursor as u64 > self.free.len() as u64 {
            self.free.len()
        } else {
            self.cursor as usize
        };
        let done = crate::table::reserve_within(
            keys,
            &self.claims,
            &self.free,
            limit,
            &self.marks,
            self.last,
        );
        proof {
            if done {
                let (before, first) = choose|before: int, first: int| #[trigger]
                    outcome(
                        old(keys)@,
                        keys@,
                        self.free@,
                        limit as int,
                        self.last as int,
                        before,
                        first,
                        true,
                    );
                lemma_outcome_granted(
                    old(keys)@,
                    keys@,
                    self.free@,
                    limit as int,
                    self.cursor as int,
                    self.last as int,
                    before,
                    first,
                );
            }
        }
        done
    }

    /// Reserves `n` keys while the table is shared, as `reserve` does;
    /// `None` when the index space is used up or the shared mark is behind
    /// the table's own. A request for no key always gives `Some`.
    pub fn reserve_n(&self, n: usize) -> (keys: Option<Vec<Key>>)
        requires
            n <= i64::MAX,
        ensures
            n == 0 ==> keys is Some,
            keys matches Some(k) ==> {
                &&& k@.len() == n
                &&& outcomes(
                    Seq::new(n as nat, |i: int| Key::null()),
                    k@,
                    self.free(),
                    self.limit(),
                    self.last(),
                    true,
                )
                &&& answers(k@, self.free())
                &&& forall|i: int|
                    0 <= i < n ==> granted(self.free(), self.cursor(), self.last(), #[trigger] k@[i])
            },
    {
        let mut keys = blank(n);
        proof {
            assert(keys@ =~= Seq::new(n as nat, |i: int| Key::null()));
        }
        if self.reserve(&mut keys) {
            Some(keys)
        } else {
            None
        }
    }

    /// Hands out one key for every place of `keys`, with the table held
    /// exclusively. The shared counters are read back first, as `catch_up`
    /// does, and are left current afterwards. Recycled keys come from the
    /// claimable end of the free list, most recently freed last; what it
    /// cannot serve is minted at fresh indices.
    pub fn reserve_mut(&mut self, keys: &mut Vec<Key>)
        requires
            old(self).wf(),
            old(self).can_reserve(old(keys)@.len() as int),
        ensures
            final(self).wf(),
            final(keys)@.len() == old(keys)@.len(),
            final(self).slots() == old(self).slots(),
            final(self).free() == old(self).free(),
            exists|shared_cursor: int, shared_last: int| #[trigger]
                took(
                    old(self).cursor(),
                    old(self).last(),
                    old(self).free(),
                    shared_cursor,
                    shared_last,
                    final(keys)@,
                    final(self).cursor(),
                    final(self).last(),
                ),
    {
        let read = self.catch_up(keys.len());
        let ghost cursor = self.cursor as int;
        let ghost last = self.last as int;
        proof {
            if self.cursor > 0 {
                lemma_free_below_slots(self.slots@, self.free@, self.cursor as int);
            }
        }
        crate::table::reserve_mut(keys, &mut self.cursor, &self.free, &mut self.last);
        self.share();
        proof {
            crate::table::lemma_free_ok_kept(
                old(self).slots@,
                self.slots@,
                self.free@,
                cursor,
                self.cursor as int,
            );
            assert(took(
                old(self).cursor(),
                old(self).last(),
                old(self).free(),
                read.0 as int,
                read.1 as int,
                keys@,
                self.cursor(),
                self.last(),
            ));
        }
    }

    /// Reserves `n` keys with the table held exclusively; see
    /// `reserve_mut`.
    pub fn reserve_n_mut(&mut self, n: usize) -> (keys: Vec<Key>)
        requires
            old(self).wf(),
            old(self).can_reserve(n as int),
        ensures
            final(self).wf(),
            keys@.len() == n,
            final(self).slots() == old(self).slots(),
            final(self).free() == old(self).free(),
            exists|shared_cursor: int, shared_last: int| #[trigger]
                took(
                    old(self).cursor(),
                    old(self).last(),
                    old(self).free(),
                    shared_cursor,
                    shared_last,
                    keys@,
                    final(self).cursor(),
                    final(self).last(),
                ),
    {
        let mut keys = blank(n);
        self.reserve_mut(&mut keys);
        keys
    }

    /// Grows the slot table to the high-water mark and returns its length.
    pub fn ensure(&mut self) -> (capacity: usize)
        requires
            old(self).wf(),
        ensures
            final(self).wf(),
            capacity == final(self).slots().len(),
            capacity == old(self).last(),
            forall|i: int| 0 <= i < old(self).slots().len() ==> final(self).slots()[i] == old(self).slots()[i],
            forall|i: int|
                old(self).slots().len() <= i < final(self).slots().len() ==> final(self).slots()[i]
                    == Slot::zero(),
            final(self).free() == old(self).free(),
            final(self).cursor() == old(self).cursor(),
            final(self).last() == old(self).last(),
    {
        crate::table::ensure(self.last, &mut self.slots);
        proof {
            crate::table::lemma_free_ok_kept(
                old(self).slots@,
                self.slots@,
                self.free@,
                old(self).cursor as int,
                self.cursor as int,
            );
        }
        self.slots.len()
    }

    /// Whether a key waits in the claimable part of the free list.
    pub fn is_claimable(&self, key: Key) -> (found: bool)
        ensures
            found == claimable(self.free(), self.cursor(), key),
    {
        crate::table::is_claimable(&self.free, self.cursor, key)
    }
}

/// `n` places for keys, each holding the null key until it is filled.
pub fn blank(n: usize) -> (keys: Vec<Key>)
    ensures
        keys@.len() == n,
        forall|i: int| 0 <= i < n ==> #[trigger] keys@[i] == Key::null(),
{
    let mut keys: Vec<Key> = Vec::new();
    let mut i: usize = 0;
    while i < n
        invariant
            i <= n,
            keys@.len() == i,
            forall|j: int| 0 <= j < i ==> #[trigger] keys@[j] == Key::null(),
        decreases n - i,
    {
        keys.push(Key::null());
        i += 1;
    }
    keys
}

} // verus!
