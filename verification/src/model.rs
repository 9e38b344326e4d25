//! The store as a mathematical value, and its steps as functions on it.

use crate::key::{Key, Slot, VACANT};
use crate::table::{
    advanced, claimable, free_entry_ok, free_ok, granted, keys_of, lemma_rows_below_slots, live,
    row_ok, rows_ok, slot_ok, table_ok,
};
use vstd::prelude::*;

verus! {

/// What a store holds: the slot table, the dense rows in row order, the free
/// list with its claim cursor, and the high-water mark of indices handed out.
pub struct Table<T> {
    pub slots: Seq<Slot>,
    pub pairs: Seq<(Key, T)>,
    pub free: Seq<Key>,
    pub cursor: int,
    pub last: int,
}

impl<T> Table<T> {
    pub open spec fn empty() -> Table<T> {
        Table { slots: Seq::empty(), pairs: Seq::empty(), free: Seq::empty(), cursor: 0, last: 0 }
    }

    /// Rows, slots, free list and counters are consistent with each other.
    pub open spec fn wf(self) -> bool {
        &&& rows_ok(self.slots, keys_of(self.pairs))
        &&& table_ok(self.slots, self.free, self.cursor, self.last)
    }

    pub open spec fn len(self) -> nat {
        self.pairs.len()
    }

    /// Whether the key names a live value.
    pub open spec fn has(self, key: Key) -> bool {
        live(self.slots, key)
    }

    /// The value a key names, if it is live.
    pub open spec fn get(self, key: Key) -> Option<T> {
        if live(self.slots, key) {
            Some(self.pairs[self.slots[key.index as int].row as int].1)
        } else {
            None
        }
    }

    /// The slot table grown to the high-water mark with untouched slots.
    pub open spec fn grown(self) -> Seq<Slot> {
        if self.slots.len() < self.last {
            self.slots + Seq::new((self.last - self.slots.len()) as nat, |i: int| Slot::zero())
        } else {
            self.slots
        }
    }

    /// The cursor as a bound on shared reservation: no entry of the free
    /// list beyond it is claimed while the store is shared.
    pub open spec fn limit(self) -> int {
        if self.cursor < 0 {
            0
        } else if self.cursor > self.free.len() {
            self.free.len() as int
        } else {
            self.cursor
        }
    }

    /// Of a request for `n` keys, how many the free list serves.
    pub open spec fn recycled(self, n: int) -> int {
        crate::table::recycled(n, self.cursor)
    }

    /// Whether the index space has room for the fresh keys that a request
    /// for `n` keys needs.
    pub open spec fn can_reserve(self, n: int) -> bool {
        0 <= n && self.last + n - self.recycled(n) <= u32::MAX
    }

    /// Key `i` of a request for `n` keys: a request that the free list
    /// serves whole takes its last `n` claimable entries in order; otherwise
    /// the claimable entries come first and fresh indices follow, counting
    /// up from the high-water mark at generation 0.
    pub open spec fn reserved_key(self, n: int, i: int) -> Key {
        crate::table::reserved_key(n, self.cursor, self.free, self.last, i)
    }

    pub open spec fn reserved_keys(self, n: int) -> Seq<Key> {
        Seq::new(n as nat, |i: int| self.reserved_key(n, i))
    }

    /// The store after `n` keys were handed out.
    pub open spec fn reserved(self, n: int) -> Table<T> {
        Table { cursor: self.cursor - n, last: self.last + n - self.recycled(n), ..self }
    }

    /// Whether an insertion at this key is accepted: the key was handed out,
    /// is not at the retired generation, and its slot, once the table is
    /// grown, is vacant at the key's generation.
    pub open spec fn admits(self, key: Key) -> bool {
        &&& key.index < self.grown().len()
        &&& self.grown()[key.index as int].takes(key.generation, self.pairs.len() as u32)
        &&& self.pairs.len() < VACANT
    }

    /// The store after an insertion at a key was tried: the slot table is
    /// grown in any case; an accepted pair becomes the last row.
    pub open spec fn placed(self, key: Key, value: T) -> Table<T> {
        if self.admits(key) {
            Table {
                slots: self.grown().update(
                    key.index as int,
                    Slot { generation: key.generation, row: self.pairs.len() as u32 },
                ),
                pairs: self.pairs.push((key, value)),
                ..self
            }
        } else {
            Table { slots: self.grown(), ..self }
        }
    }

    /// The store after each pair of a list was tried at its key, in order.
    pub open spec fn placed_all(self, pairs: Seq<(Key, T)>) -> Table<T>
        decreases pairs.len(),
    {
        if pairs.len() == 0 {
            Table { slots: self.grown(), ..self }
        } else {
            self.placed_all(pairs.drop_last()).placed(pairs.last().0, pairs.last().1)
        }
    }

    /// What trying each pair of a list answers: `Ok` for a pair that became
    /// a row, and the value back for one that did not.
    pub open spec fn placed_results(self, pairs: Seq<(Key, T)>) -> Seq<Result<(), T>>
        decreases pairs.len(),
    {
        if pairs.len() == 0 {
            Seq::empty()
        } else {
            self.placed_results(pairs.drop_last()).push(
                if self.placed_all(pairs.drop_last()).admits(pairs.last().0) {
                    Ok(())
                } else {
                    Err(pairs.last().1)
                },
            )
        }
    }

    /// The key that the next insertion of a value gets.
    pub open spec fn next_key(self) -> Key {
        self.reserved_key(1, 0)
    }

    /// The store after a value was inserted under a newly reserved key.
    pub open spec fn inserted(self, value: T) -> Table<T> {
        self.reserved(1).placed(self.next_key(), value)
    }

    /// The store with the stale tail of the free list cut off at the cursor.
    pub open spec fn compacted(self) -> Table<T> {
        let keep = if self.cursor < 0 {
            0
        } else if self.cursor > self.free.len() {
            self.free.len() as int
        } else {
            self.cursor
        };
        Table { free: self.free.take(keep), cursor: keep, ..self }
    }

    /// The store after the removal of a key was tried. The free list is
    /// compacted in any case. A live key loses its row: the last row moves
    /// into the gap, the key's slot goes to the next generation, and the key
    /// at that generation joins the free list unless it is the retired one.
    pub open spec fn removed(self, key: Key) -> Table<T> {
        let base = self.compacted();
        if live(self.slots, key) {
            let row = self.slots[key.index as int].row as int;
            let end = self.pairs.len() - 1;
            let moved = self.pairs[end].0;
            let next = Key { generation: (key.generation + 1) as u32, index: key.index };
            let vacated = self.slots.update(
                key.index as int,
                Slot { generation: next.generation, row: VACANT },
            );
            let free = if next.generation < u32::MAX {
                base.free.push(next)
            } else {
                base.free
            };
            Table {
                slots: if row < end {
                    vacated.update(
                        moved.index as int,
                        Slot { generation: moved.generation, row: row as u32 },
                    )
                } else {
                    vacated
                },
                pairs: self.pairs.update(row, self.pairs[end]).drop_last(),
                free,
                cursor: free.len() as int,
                last: self.last,
            }
        } else {
            base
        }
    }

    /// The store with its rows' values replaced by what a write buffer holds
    /// for them: row `r` takes the buffer's value at `r` where there is one.
    pub open spec fn merged(self, buffer: Seq<Option<T>>) -> Table<T> {
        Table {
            pairs: Seq::new(
                self.pairs.len(),
                |r: int|
                    if r < buffer.len() && buffer[r] is Some {
                        (self.pairs[r].0, buffer[r]->Some_0)
                    } else {
                        self.pairs[r]
                    },
            ),
            ..self
        }
    }

    /// Merging a write buffer keeps the store consistent: no key moves.
    pub proof fn lemma_merged(self, buffer: Seq<Option<T>>)
        requires
            self.wf(),
        ensures
            self.merged(buffer).wf(),
            keys_of(self.merged(buffer).pairs) == keys_of(self.pairs),
            forall|key: Key| self.merged(buffer).has(key) == self.has(key),
    {
        assert(keys_of(self.merged(buffer).pairs) =~= keys_of(self.pairs));
    }

    /// The store with its counters brought up to what shared reservation
    /// left in the shared ones: the high-water mark never drops, the cursor
    /// never rises, and it stays within what the mark allows.
    pub open spec fn synced(self, cursor: int, last: int) -> Table<T> {
        let mark = if self.last <= last <= u32::MAX {
            last
        } else {
            self.last
        };
        let low = if cursor < self.cursor {
            cursor
        } else {
            self.cursor
        };
        Table { cursor: if low < -mark { -mark } else { low }, last: mark, ..self }
    }

    /// Bringing the counters up keeps the store consistent and changes what
    /// no key names.
    pub proof fn lemma_synced(self, cursor: int, last: int)
        requires
            self.wf(),
        ensures
            self.synced(cursor, last).wf(),
            self.synced(cursor, last).cursor <= self.cursor,
            self.synced(cursor, last).last >= self.last,
            forall|key: Key| self.synced(cursor, last).get(key) == self.get(key),
    {
        let after = self.synced(cursor, last);
        assert forall|j: int| 0 <= j < after.cursor implies #[trigger] free_entry_ok(after.slots, after.free, j) by {
            assert(free_entry_ok(self.slots, self.free, j));
        }
    }

    /// The store once it has read the shared counters back before a request
    /// for `n` keys. It takes them over as `synced` says. Only where that
    /// would leave no room for the request, which means that the index
    /// space is used up, it keeps its own.
    pub open spec fn caught_up(self, cursor: int, last: int, n: int) -> Table<T> {
        if self.synced(cursor, last).can_reserve(n) {
            self.synced(cursor, last)
        } else {
            self
        }
    }

    /// Every key that an exclusive request hands out once the shared
    /// counters were read back is a claimable entry of the free list as it
    /// stood before, or a fresh key at or above the high-water mark of
    /// before.
    pub proof fn lemma_reserved_granted(self, cursor: int, last: int, n: int, i: int)
        requires
            self.wf(),
            self.can_reserve(n),
            0 <= i < n,
        ensures
            granted(
                self.free,
                self.cursor,
                self.last,
                self.caught_up(cursor, last, n).reserved_key(n, i),
            ),
    {
        self.lemma_caught_up(cursor, last, n);
        let now = self.caught_up(cursor, last, n);
        let key = now.reserved_key(n, i);
        if now.cursor >= n {
            assert(self.free[now.cursor - n + i] == key);
        } else if i < now.recycled(n) {
            assert(self.free[i] == key);
        }
    }

    /// No single step takes a slot back to an earlier generation: not
    /// trying or offering a pair, not removing a key, not giving a key back.
    pub proof fn lemma_advanced(self, key: Key, value: T)
        requires
            self.wf(),
        ensures
            advanced(self.slots, self.grown()),
            advanced(self.slots, self.placed(key, value).slots),
            advanced(self.slots, self.offered(key, value).slots),
            advanced(self.slots, self.removed(key).slots),
            advanced(self.slots, self.released(key).slots),
    {
        let rows = keys_of(self.pairs);
        if live(self.slots, key) {
            self.lemma_row_key(key);
            assert(row_ok(self.slots, rows, self.pairs.len() - 1));
            assert(row_ok(self.slots, rows, self.slots[key.index as int].row as int));
        }
    }

    /// No list of steps takes a slot back to an earlier generation.
    pub proof fn lemma_advanced_all(self, pairs: Seq<(Key, T)>, keys: Seq<Key>)
        requires
            self.wf(),
        ensures
            advanced(self.slots, self.tried_all(pairs).slots),
            advanced(self.slots, self.removed_all(keys).slots),
        decreases pairs.len() + keys.len(),
    {
        if pairs.len() > 0 {
            let rest = pairs.drop_last();
            self.lemma_advanced_all(rest, Seq::empty());
            self.lemma_tried_all(rest);
            self.tried_all(rest).lemma_advanced(pairs.last().0, pairs.last().1);
        }
        if keys.len() > 0 {
            let rest = keys.drop_last();
            self.lemma_advanced_all(Seq::empty(), rest);
            self.lemma_removed_all(rest);
            let now = self.removed_all(rest);
            if live(now.slots, keys.last()) {
                now.lemma_row_key(keys.last());
                assert(row_ok(now.slots, keys_of(now.pairs), now.pairs.len() - 1));
                assert(row_ok(now.slots, keys_of(now.pairs), now.slots[keys.last().index as int].row as int));
            }
        }
    }

    /// Trying a list of pairs takes no slot back to an earlier generation.
    pub proof fn lemma_advanced_placed(self, pairs: Seq<(Key, T)>)
        ensures
            advanced(self.slots, self.placed_all(pairs).slots),
        decreases pairs.len(),
    {
        if pairs.len() > 0 {
            self.lemma_advanced_placed(pairs.drop_last());
        }
    }

    /// Giving a list of keys back takes no slot back to an earlier
    /// generation.
    pub proof fn lemma_advanced_released(self, keys: Seq<Key>)
        ensures
            advanced(self.slots, self.released_all(keys).slots),
        decreases keys.len(),
    {
        if keys.len() > 0 {
            self.lemma_advanced_released(keys.drop_last());
        }
    }

    /// Closing a scope takes no slot back to an earlier generation.
    pub proof fn lemma_advanced_settled(
        self,
        cursor: int,
        last: int,
        inserts: Seq<(Key, T)>,
        removes: Seq<Key>,
    )
        requires
            self.wf(),
        ensures
            advanced(self.slots, self.settled(cursor, last, inserts, removes).slots),
    {
        let synced = self.synced(cursor, last);
        self.lemma_synced(cursor, last);
        synced.lemma_accepted(inserts);
        synced.lemma_placed_all(synced.accepted(inserts));
        synced.lemma_advanced_placed(synced.accepted(inserts));
        synced.placed_all(synced.accepted(inserts)).lemma_advanced_all(Seq::empty(), removes);
    }

    /// Growing the slot table to the high-water mark keeps rows and free
    /// list consistent with the slots, compacted or not.
    pub proof fn lemma_grown(self)
        requires
            self.wf(),
        ensures
            self.slots.len() <= self.grown().len(),
            rows_ok(self.grown(), keys_of(self.pairs)),
            free_ok(self.grown(), self.free, self.cursor),
            free_ok(self.grown(), self.compacted().free, self.compacted().cursor),
    {
        let rows = keys_of(self.pairs);
        let grown = self.grown();
        assert forall|i: int| 0 <= i < grown.len() implies #[trigger] slot_ok(grown, rows, i) by {
            if i < self.slots.len() {
                assert(slot_ok(self.slots, rows, i));
            }
        }
        assert forall|r: int| 0 <= r < rows.len() implies #[trigger] row_ok(grown, rows, r) by {
            assert(row_ok(self.slots, rows, r));
        }
        assert forall|j: int| 0 <= j < self.cursor implies #[trigger] free_entry_ok(grown, self.free, j) by {
            assert(free_entry_ok(self.slots, self.free, j));
        }
        let base = self.compacted();
        assert forall|j: int| 0 <= j < base.cursor implies #[trigger] free_entry_ok(grown, base.free, j) by {
            assert(free_entry_ok(self.slots, self.free, j));
        }
        assert forall|i: int, j: int| 0 <= i < j < base.cursor implies (#[trigger] base.free[i]).index != (
        #[trigger] base.free[j]).index by {
            assert(self.free[i].index != self.free[j].index);
        }
    }

    /// Reading the shared counters back keeps the store consistent, keeps
    /// the room that a request had, and changes no row, no slot and no
    /// entry of the free list.
    pub proof fn lemma_caught_up(self, cursor: int, last: int, n: int)
        requires
            self.wf(),
        ensures
            self.caught_up(cursor, last, n).wf(),
            self.can_reserve(n) ==> self.caught_up(cursor, last, n).can_reserve(n),
            self.caught_up(cursor, last, n).slots == self.slots,
            self.caught_up(cursor, last, n).pairs == self.pairs,
            self.caught_up(cursor, last, n).free == self.free,
            self.caught_up(cursor, last, n).cursor <= self.cursor,
            self.caught_up(cursor, last, n).last >= self.last,
            self.caught_up(cursor, last, 0) == self.synced(cursor, last),
            forall|key: Key| self.caught_up(cursor, last, n).get(key) == self.get(key),
            forall|key: Key|
                claimable(self.free, self.caught_up(cursor, last, n).cursor, key) ==> claimable(
                    self.free,
                    self.cursor,
                    key,
                ),
    {
        self.lemma_synced(cursor, last);
        let after = self.caught_up(cursor, last, n);
        assert forall|key: Key| claimable(self.free, after.cursor, key) implies claimable(
            self.free,
            self.cursor,
            key,
        ) by {
            let j = choose|j: int| 0 <= j < after.cursor && j < self.free.len() && self.free[j] == key;
            assert(self.free[j] == key);
        }
    }

    /// The store after each pair of a list was offered, in order.
    pub open spec fn tried_all(self, pairs: Seq<(Key, T)>) -> Table<T>
        decreases pairs.len(),
    {
        if pairs.len() == 0 {
            self
        } else {
            self.tried_all(pairs.drop_last()).offered(pairs.last().0, pairs.last().1)
        }
    }

    /// What offering each pair of a list answers, in order.
    pub open spec fn tried_results(self, pairs: Seq<(Key, T)>) -> Seq<Result<(), T>>
        decreases pairs.len(),
    {
        if pairs.len() == 0 {
            Seq::empty()
        } else {
            self.tried_results(pairs.drop_last()).push(
                self.tried_all(pairs.drop_last()).offer_result(pairs.last().0, pairs.last().1),
            )
        }
    }

    /// Offering a list of pairs keeps the store consistent and leaves the
    /// free list and the counters as they were.
    pub proof fn lemma_tried_all(self, pairs: Seq<(Key, T)>)
        requires
            self.wf(),
        ensures
            self.tried_all(pairs).wf(),
            self.tried_all(pairs).free == self.free,
            self.tried_all(pairs).cursor == self.cursor,
            self.tried_all(pairs).last == self.last,
        decreases pairs.len(),
    {
        if pairs.len() > 0 {
            let rest = pairs.drop_last();
            self.lemma_tried_all(rest);
            let now = self.tried_all(rest);
            if !claimable(now.free, now.cursor, pairs.last().0) {
                now.lemma_placed(pairs.last().0, pairs.last().1);
            }
        }
    }

    /// Of a list of pairs, those whose key does not wait in the free list.
    pub open spec fn accepted(self, pairs: Seq<(Key, T)>) -> Seq<(Key, T)>
        decreases pairs.len(),
    {
        if pairs.len() == 0 {
            Seq::empty()
        } else if claimable(self.free, self.cursor, pairs.last().0) {
            self.accepted(pairs.drop_last())
        } else {
            self.accepted(pairs.drop_last()).push(pairs.last())
        }
    }

    pub proof fn lemma_accepted(self, pairs: Seq<(Key, T)>)
        ensures
            forall|i: int|
                0 <= i < self.accepted(pairs).len() ==> !claimable(
                    self.free,
                    self.cursor,
                    (#[trigger] self.accepted(pairs)[i]).0,
                ),
        decreases pairs.len(),
    {
        if pairs.len() > 0 {
            self.lemma_accepted(pairs.drop_last());
            let rest = self.accepted(pairs.drop_last());
            assert forall|i: int| 0 <= i < self.accepted(pairs).len() implies !claimable(
                self.free,
                self.cursor,
                (#[trigger] self.accepted(pairs)[i]).0,
            ) by {
                if i < rest.len() {
                    assert(self.accepted(pairs)[i] == rest[i]);
                }
            }
        }
    }

    /// The store after a scope was closed: the counters are brought up to
    /// the shared ones, the queued pairs are tried in the order in which
    /// they were queued, leaving out any whose key still waits in the free
    /// list, and then the queued keys are removed.
    pub open spec fn settled(
        self,
        cursor: int,
        last: int,
        inserts: Seq<(Key, T)>,
        removes: Seq<Key>,
    ) -> Table<T> {
        let synced = self.synced(cursor, last);
        synced.placed_all(synced.accepted(inserts)).removed_all(removes)
    }

    /// Closing a scope keeps the store consistent, whatever the buffers and
    /// the shared counters held.
    pub proof fn lemma_settled(
        self,
        cursor: int,
        last: int,
        inserts: Seq<(Key, T)>,
        removes: Seq<Key>,
    )
        requires
            self.wf(),
        ensures
            self.settled(cursor, last, inserts, removes).wf(),
    {
        let synced = self.synced(cursor, last);
        self.lemma_synced(cursor, last);
        synced.lemma_accepted(inserts);
        synced.lemma_placed_all(synced.accepted(inserts));
        synced.placed_all(synced.accepted(inserts)).lemma_removed_all(removes);
    }

    /// The store after a pair was offered: a key that still waits in the
    /// free list is turned away with the store unchanged; any other key is
    /// tried as `placed` says.
    pub open spec fn offered(self, key: Key, value: T) -> Table<T> {
        if claimable(self.free, self.cursor, key) {
            self
        } else {
            self.placed(key, value)
        }
    }

    /// What offering a pair answers: `Ok` when the pair became a row, the
    /// value back when it did not.
    pub open spec fn offer_result(self, key: Key, value: T) -> Result<(), T> {
        if !claimable(self.free, self.cursor, key) && self.admits(key) {
            Ok(())
        } else {
            Err(value)
        }
    }

    /// The store after each pair of a list was offered, first to last.
    pub open spec fn offered_all(self, pairs: Seq<(Key, T)>) -> Table<T>
        decreases pairs.len(),
    {
        if pairs.len() == 0 {
            self
        } else {
            self.offered(pairs[0].0, pairs[0].1).offered_all(pairs.drop_first())
        }
    }

    /// The store after the removal of each key of a list was tried, first
    /// to last.
    pub open spec fn dropped_all(self, keys: Seq<Key>) -> Table<T>
        decreases keys.len(),
    {
        if keys.len() == 0 {
            self
        } else {
            self.removed(keys[0]).dropped_all(keys.drop_first())
        }
    }

    /// Whether a key can be given back: it was handed out, is not at the
    /// retired generation, and its slot, once the table is grown, is vacant
    /// at the key's generation.
    pub open spec fn returnable(self, key: Key) -> bool {
        &&& key.index < self.grown().len()
        &&& key.generation < u32::MAX
        &&& self.grown()[key.index as int].generation == key.generation
        &&& self.grown()[key.index as int].row == VACANT
    }

    /// The store after a reserved key was given back unused. The free list
    /// is compacted and the slot table grown in any case. A returnable key's
    /// slot moves to the next generation, and the key at that generation
    /// joins the free list unless the generation is the retired one.
    pub open spec fn released(self, key: Key) -> Table<T> {
        let base = self.compacted();
        if self.returnable(key) {
            let next = Key { generation: (key.generation + 1) as u32, index: key.index };
            let free = if next.generation < u32::MAX {
                base.free.push(next)
            } else {
                base.free
            };
            Table {
                slots: self.grown().update(
                    key.index as int,
                    Slot { generation: next.generation, row: VACANT },
                ),
                free,
                cursor: free.len() as int,
                ..self
            }
        } else {
            Table { slots: self.grown(), ..base }
        }
    }

    /// The store after each key of a list was given back, in order.
    pub open spec fn released_all(self, keys: Seq<Key>) -> Table<T>
        decreases keys.len(),
    {
        if keys.len() == 0 {
            Table { slots: self.grown(), ..self.compacted() }
        } else {
            self.released_all(keys.drop_last()).released(keys.last())
        }
    }

    /// Giving a key back keeps the store consistent, provided the key does
    /// not wait in the free list already, and changes what no key names.
    pub proof fn lemma_released(self, key: Key)
        requires
            self.wf(),
            !claimable(self.free, self.cursor, key),
        ensures
            self.released(key).wf(),
            self.released(key).cursor == self.released(key).free.len(),
            self.released(key).grown() == self.released(key).slots,
            self.released(key).pairs == self.pairs,
            self.released(key).last == self.last,
            forall|other: Key| self.released(key).get(other) == self.get(other),
            forall|other: Key|
                claimable(self.released(key).free, self.released(key).cursor, other)
                    ==> claimable(self.free, self.cursor, other) || (other.index == key.index
                    && other.generation == key.generation + 1),
    {
        self.lemma_compacted();
        let base = self.compacted();
        let after = self.released(key);
        let rows = keys_of(self.pairs);
        let grown = self.grown();
        self.lemma_grown();
        assert forall|r: int| 0 <= r < rows.len() implies #[trigger] row_ok(after.slots, rows, r) by {
            assert(row_ok(grown, rows, r));
        }
        assert forall|i: int| 0 <= i < after.slots.len() implies #[trigger] slot_ok(after.slots, rows, i) by {
            assert(slot_ok(grown, rows, i));
        }
        assert forall|j: int| 0 <= j < after.cursor implies #[trigger] free_entry_ok(after.slots, after.free, j) by {
            if j < base.free.len() {
                assert(free_entry_ok(grown, base.free, j));
                if self.returnable(key) && base.free[j].index == key.index {
                    assert(self.free[j] == key);
                    assert(claimable(self.free, self.cursor, key));
                }
            }
        }
        assert forall|i: int, j: int| 0 <= i < j < after.cursor implies (#[trigger] after.free[i]).index != (#[trigger] after.free[j]).index by {
            if j < base.free.len() {
                assert(self.free[i].index != self.free[j].index);
            } else {
                assert(free_entry_ok(grown, base.free, i));
                if base.free[i].index == key.index {
                    assert(self.free[i] == key);
                    assert(claimable(self.free, self.cursor, key));
                }
            }
        }
        assert(after.grown() =~= after.slots);
        assert forall|other: Key| after.get(other) == self.get(other) by {
            if live(self.slots, other) {
                assert(slot_ok(self.slots, rows, other.index as int));
            }
        }
        assert forall|other: Key| claimable(after.free, after.cursor, other) implies claimable(
            self.free,
            self.cursor,
            other,
        ) || (other.index == key.index && other.generation == key.generation + 1) by {
            let j = choose|j: int| 0 <= j < after.cursor && j < after.free.len() && after.free[j] == other;
            if j < base.free.len() {
                assert(self.free[j] == other);
            }
        }
    }

    /// Giving a list of keys back keeps the store consistent and changes
    /// what no key names, provided none of them waits in the free list and
    /// no index comes twice.
    pub proof fn lemma_released_all(self, keys: Seq<Key>)
        requires
            self.wf(),
            forall|i: int| 0 <= i < keys.len() ==> !claimable(self.free, self.cursor, #[trigger] keys[i]),
            forall|i: int, j: int|
                0 <= i < j < keys.len() ==> (#[trigger] keys[i]).index != (#[trigger] keys[j]).index,
        ensures
            self.released_all(keys).wf(),
            self.released_all(keys).cursor == self.released_all(keys).free.len(),
            self.released_all(keys).grown() == self.released_all(keys).slots,
            self.released_all(keys).pairs == self.pairs,
            self.released_all(keys).last == self.last,
            forall|other: Key| self.released_all(keys).get(other) == self.get(other),
            forall|other: Key|
                claimable(self.released_all(keys).free, self.released_all(keys).cursor, other)
                    ==> claimable(self.free, self.cursor, other) || exists|i: int|
                    0 <= i < keys.len() && other.index == (#[trigger] keys[i]).index,
        decreases keys.len(),
    {
        if keys.len() == 0 {
            self.lemma_compacted();
            let base = self.compacted();
            let after = self.released_all(keys);
            let rows = keys_of(self.pairs);
            self.lemma_grown();
            assert(after.grown() =~= after.slots);
            assert forall|other: Key| claimable(after.free, after.cursor, other) implies claimable(
                self.free,
                self.cursor,
                other,
            ) by {
                let j = choose|j: int| 0 <= j < after.cursor && j < after.free.len() && after.free[j] == other;
                assert(self.free[j] == other);
            }
        } else {
            let rest = keys.drop_last();
            let key = keys.last();
            self.lemma_released_all(rest);
            let prev = self.released_all(rest);
            assert(!claimable(prev.free, prev.cursor, key)) by {
                if claimable(prev.free, prev.cursor, key) {
                    assert(!claimable(self.free, self.cursor, keys[keys.len() - 1]));
                    let i = choose|i: int| 0 <= i < rest.len() && key.index == (#[trigger] rest[i]).index;
                    assert(keys[i].index != keys[keys.len() - 1].index);
                }
            }
            prev.lemma_released(key);
            let after = self.released_all(keys);
            assert forall|other: Key| claimable(after.free, after.cursor, other) implies claimable(
                self.free,
                self.cursor,
                other,
            ) || exists|i: int| 0 <= i < keys.len() && other.index == (#[trigger] keys[i]).index by {
                if claimable(prev.free, prev.cursor, other) {
                    if !claimable(self.free, self.cursor, other) {
                        let i = choose|i: int| 0 <= i < rest.len() && other.index == (#[trigger] rest[i]).index;
                        assert(keys[i] == rest[i]);
                    }
                } else {
                    assert(other.index == keys[keys.len() - 1].index);
                }
            }
        }
    }

    /// Keys and values paired place by place.
    pub open spec fn paired(keys: Seq<Key>, values: Seq<T>) -> Seq<(Key, T)> {
        Seq::new(values.len(), |i: int| (keys[i], values[i]))
    }

    /// The store after a list of values was inserted under keys reserved in
    /// one request.
    pub open spec fn inserted_all(self, values: Seq<T>) -> Table<T> {
        self.reserved(values.len() as int).placed_all(
            Self::paired(self.reserved_keys(values.len() as int), values),
        )
    }

    /// While the keys of one request are placed one after the other, the
    /// store stays consistent, the keys placed so far name their values, the
    /// keys still to come stay admitted, and other keys name what they did.
    pub proof fn lemma_inserted_prefix(self, values: Seq<T>, m: int)
        requires
            self.wf(),
            self.can_reserve(values.len() as int),
            0 <= m <= values.len(),
        ensures
            ({
                let n = values.len() as int;
                let keys = self.reserved_keys(n);
                let now = self.reserved(n).placed_all(Self::paired(keys, values).take(m));
                &&& now.wf()
                &&& now.free == self.free
                &&& now.cursor == self.cursor - n
                &&& now.pairs == self.pairs + Self::paired(keys, values).take(m)
                &&& forall|i: int| 0 <= i < m ==> now.get(#[trigger] keys[i]) == Some(values[i])
                &&& forall|i: int| m <= i < n ==> now.admits(#[trigger] keys[i])
                &&& forall|other: Key|
                    !keys.contains(other) ==> now.get(other) == self.get(other)
                &&& Self::placed_results(self.reserved(n), Self::paired(keys, values).take(m))
                    == Seq::new(m as nat, |i: int| Ok::<(), T>(()))
            }),
        decreases m,
    {
        let n = values.len() as int;
        let keys = self.reserved_keys(n);
        let start = self.reserved(n);
        let all = Self::paired(keys, values);
        let now = start.placed_all(all.take(m));
        self.lemma_reserved_wf(n);
        if m == 0 {
            assert(all.take(0) =~= Seq::<(Key, T)>::empty());
            assert(now == (Table { slots: start.grown(), ..start }));
            assert(now.wf()) by {
                let rows = keys_of(start.pairs);
                start.lemma_grown();
            }
            assert(now.pairs =~= self.pairs + all.take(0));
            assert forall|i: int| 0 <= i < n implies now.admits(#[trigger] keys[i]) by {
                self.lemma_reserved_key(n, i);
                assert(now.grown() =~= start.grown());
            }
            assert(Self::placed_results(start, all.take(0)) =~= Seq::new(0nat, |i: int| Ok::<(), T>(())));
        } else {
            self.lemma_inserted_prefix(values, m - 1);
            let done = all.take(m - 1);
            let prev = start.placed_all(done);
            let key = keys[m - 1];
            let value = values[m - 1];
            assert(all.take(m).drop_last() =~= done);
            assert(all.take(m).last() == (key, value));
            assert(now == prev.placed(key, value));
            assert(!claimable(prev.free, prev.cursor, key)) by {
                self.lemma_reserved_key(n, m - 1);
            }
            prev.lemma_placed(key, value);
            start.lemma_placed_all_grown(done);
            assert(prev.admits(key));
            assert(now.pairs =~= self.pairs + all.take(m));
            assert forall|i: int| 0 <= i < m implies now.get(#[trigger] keys[i]) == Some(values[i]) by {
                if i < m - 1 {
                    self.lemma_reserved_key(n, m - 1);
                    assert(keys[i].index != key.index);
                }
            }
            assert forall|i: int| m <= i < n implies now.admits(#[trigger] keys[i]) by {
                self.lemma_reserved_key(n, m - 1);
                assert(keys[i].index != key.index);
                assert(prev.admits(keys[i]));
                assert(now.grown() =~= now.slots);
                lemma_rows_below_slots(now.slots, keys_of(now.pairs), keys[i].index as int);
            }
            assert forall|other: Key| !keys.contains(other) implies now.get(other) == self.get(other) by {
                assert(other != key);
            }
            assert(Self::placed_results(start, all.take(m)) =~= Seq::new(m as nat, |i: int| Ok::<(), T>(())));
        }
    }

    /// Inserting a value names it by a key that was not live, keeps the
    /// store consistent, and changes what no other key names.
    pub proof fn lemma_inserted(self, value: T)
        requires
            self.wf(),
            self.can_reserve(1),
        ensures
            self.inserted(value).wf(),
            !self.has(self.next_key()),
            self.inserted(value).get(self.next_key()) == Some(value),
            self.inserted(value).len() == self.len() + 1,
            self.inserted(value).pairs == self.pairs.push((self.next_key(), value)),
            forall|other: Key|
                other != self.next_key() ==> self.inserted(value).get(other) == self.get(other),
    {
        self.lemma_reserved_key(1, 0);
        self.lemma_reserved_wf(1);
        self.reserved(1).lemma_placed(self.next_key(), value);
    }

    /// The store with other rows in place of its own.
    pub open spec fn with_rows(self, pairs: Seq<(Key, T)>) -> Table<T> {
        Table { pairs, ..self }
    }

    /// Rows with the same keys in the same places keep the store
    /// consistent, whatever their values.
    pub proof fn lemma_with_rows(self, pairs: Seq<(Key, T)>)
        requires
            self.wf(),
            pairs.len() == self.pairs.len(),
            forall|r: int| 0 <= r < pairs.len() ==> (#[trigger] pairs[r]).0 == self.pairs[r].0,
        ensures
            self.with_rows(pairs).wf(),
            forall|key: Key| self.with_rows(pairs).has(key) == self.has(key),
    {
        assert(keys_of(pairs) =~= keys_of(self.pairs));
    }

    /// The store with the value of a live key replaced.
    pub open spec fn assigned(self, key: Key, value: T) -> Table<T> {
        if live(self.slots, key) {
            Table {
                pairs: self.pairs.update(self.slots[key.index as int].row as int, (key, value)),
                ..self
            }
        } else {
            self
        }
    }

    /// Replacing a value keeps the store consistent, moves no row, and
    /// changes what no other key names.
    pub proof fn lemma_assigned(self, key: Key, value: T)
        requires
            self.wf(),
        ensures
            self.assigned(key, value).wf(),
            keys_of(self.assigned(key, value).pairs) == keys_of(self.pairs),
            self.has(key) ==> self.assigned(key, value).get(key) == Some(value),
            forall|other: Key| other != key ==> self.assigned(key, value).get(other) == self.get(other),
    {
        let rows = keys_of(self.pairs);
        if live(self.slots, key) {
            let row = self.slots[key.index as int].row as int;
            assert(slot_ok(self.slots, rows, key.index as int));
            assert(row_ok(self.slots, rows, row));
            assert(keys_of(self.assigned(key, value).pairs) =~= rows);
            assert forall|other: Key| other != key implies self.assigned(key, value).get(other) == self.get(other) by {
                if live(self.slots, other) {
                    assert(slot_ok(self.slots, rows, other.index as int));
                    assert(row_ok(self.slots, rows, self.slots[other.index as int].row as int));
                }
            }
        }
    }

    /// A live key is the key of its row.
    pub proof fn lemma_row_key(self, key: Key)
        requires
            self.wf(),
            self.has(key),
        ensures
            0 <= self.slots[key.index as int].row < self.pairs.len(),
            self.pairs[self.slots[key.index as int].row as int].0 == key,
    {
        let rows = keys_of(self.pairs);
        assert(slot_ok(self.slots, rows, key.index as int));
        assert(row_ok(self.slots, rows, self.slots[key.index as int].row as int));
    }

    /// Trying one pair is trying a list of one.
    pub proof fn lemma_placed_one(self, key: Key, value: T)
        ensures
            self.placed_all(seq![(key, value)]) == self.placed(key, value),
            self.placed_results(seq![(key, value)]) == seq![
                if self.admits(key) {
                    Ok::<(), T>(())
                } else {
                    Err::<(), T>(value)
                },
            ],
    {
        let one = seq![(key, value)];
        assert(one.drop_last() =~= Seq::<(Key, T)>::empty());
        let grown = Table { slots: self.grown(), ..self };
        assert(self.placed_all(one.drop_last()) == grown);
        assert(grown.grown() =~= self.grown());
        assert(self.placed_all(one) == grown.placed(key, value));
        assert(self.placed_results(one.drop_last()) =~= Seq::<Result<(), T>>::empty());
        assert(self.placed_results(one) =~= seq![
            if self.admits(key) {
                Ok::<(), T>(())
            } else {
                Err::<(), T>(value)
            },
        ]);
    }

    /// Removing one key is removing a list of one.
    pub proof fn lemma_removed_one(self, key: Key)
        requires
            self.wf(),
        ensures
            self.removed_all(seq![key]) == self.removed(key),
            self.removed_values(seq![key]) == seq![self.get(key)],
    {
        let one = seq![key];
        assert(one.drop_last() =~= Seq::<Key>::empty());
        self.lemma_compacted();
        let base = self.compacted();
        assert(base.compacted() == base);
        assert(self.removed_values(one.drop_last()) =~= Seq::<Option<T>>::empty());
        assert(self.removed_values(one) =~= seq![self.get(key)]);
    }

    /// The store after the removal of each key of a list was tried, in order.
    pub open spec fn removed_all(self, keys: Seq<Key>) -> Table<T>
        decreases keys.len(),
    {
        if keys.len() == 0 {
            self.compacted()
        } else {
            self.removed_all(keys.drop_last()).removed(keys.last())
        }
    }

    /// What removing each key of a list answers: the value that the key
    /// named when its turn came, if it was live then.
    pub open spec fn removed_values(self, keys: Seq<Key>) -> Seq<Option<T>>
        decreases keys.len(),
    {
        if keys.len() == 0 {
            Seq::empty()
        } else {
            self.removed_values(keys.drop_last()).push(
                self.removed_all(keys.drop_last()).get(keys.last()),
            )
        }
    }

    /// Removing a list of keys keeps the store consistent and leaves the
    /// free list compacted.
    pub proof fn lemma_removed_all(self, keys: Seq<Key>)
        requires
            self.wf(),
        ensures
            self.removed_all(keys).wf(),
            self.removed_all(keys).cursor == self.removed_all(keys).free.len(),
            self.removed_all(keys).last == self.last,
        decreases keys.len(),
    {
        if keys.len() == 0 {
            self.lemma_compacted();
        } else {
            self.lemma_removed_all(keys.drop_last());
            self.removed_all(keys.drop_last()).lemma_removed(keys.last());
        }
    }

    /// Trying a list of pairs keeps the store consistent, provided none of
    /// the keys waits in the free list.
    pub proof fn lemma_placed_all(self, pairs: Seq<(Key, T)>)
        requires
            self.wf(),
            forall|i: int|
                0 <= i < pairs.len() ==> !claimable(self.free, self.cursor, (#[trigger] pairs[i]).0),
        ensures
            self.placed_all(pairs).wf(),
        decreases pairs.len(),
    {
        if pairs.len() == 0 {
            let after = self.placed_all(pairs);
            let rows = keys_of(self.pairs);
            self.lemma_grown();
        } else {
            let rest = pairs.drop_last();
            assert forall|i: int| 0 <= i < rest.len() implies !claimable(self.free, self.cursor, (#[trigger] rest[i]).0) by {
                assert(rest[i] == pairs[i]);
            }
            self.lemma_placed_all(rest);
            self.lemma_placed_all_grown(rest);
            assert(!claimable(self.free, self.cursor, pairs[pairs.len() - 1].0));
            self.placed_all(rest).lemma_placed(pairs.last().0, pairs.last().1);
        }
    }

    /// Removing a list of keys answers once for every key.
    pub proof fn lemma_removed_values_len(self, keys: Seq<Key>)
        ensures
            self.removed_values(keys).len() == keys.len(),
        decreases keys.len(),
    {
        if keys.len() > 0 {
            self.lemma_removed_values_len(keys.drop_last());
        }
    }

    /// Removing a list of keys changes what no key outside the list names.
    pub proof fn lemma_removed_all_keeps(self, keys: Seq<Key>, other: Key)
        requires
            self.wf(),
            !keys.contains(other),
        ensures
            self.removed_all(keys).get(other) == self.get(other),
        decreases keys.len(),
    {
        if keys.len() == 0 {
            self.lemma_compacted();
        } else {
            let rest = keys.drop_last();
            assert(!rest.contains(other)) by {
                if rest.contains(other) {
                    let i = choose|i: int| 0 <= i < rest.len() && rest[i] == other;
                    assert(keys[i] == other);
                }
            }
            assert(keys[keys.len() - 1] != other);
            self.lemma_removed_all_keeps(rest, other);
            self.lemma_removed_all(rest);
            self.removed_all(rest).lemma_removed(keys.last());
        }
    }

    /// Removing a list of keys leaves none of them live.
    pub proof fn lemma_removed_all_gone(self, keys: Seq<Key>, i: int)
        requires
            self.wf(),
            0 <= i < keys.len(),
        ensures
            self.removed_all(keys).get(keys[i]) is None,
        decreases keys.len(),
    {
        let rest = keys.drop_last();
        self.lemma_removed_all(rest);
        self.removed_all(rest).lemma_removed(keys.last());
        if i < keys.len() - 1 {
            self.lemma_removed_all_gone(rest, i);
            assert(rest[i] == keys[i]);
        }
    }

    /// Once pairs were tried the slot table is grown, and stays so.
    pub proof fn lemma_placed_all_grown(self, pairs: Seq<(Key, T)>)
        ensures
            self.placed_all(pairs).slots.len() == self.grown().len(),
            self.placed_all(pairs).grown() == self.placed_all(pairs).slots,
            self.placed_all(pairs).last == self.last,
            self.placed_all(pairs).free == self.free,
            self.placed_all(pairs).cursor == self.cursor,
        decreases pairs.len(),
    {
        if pairs.len() > 0 {
            self.lemma_placed_all_grown(pairs.drop_last());
        }
    }

    /// A key that a request would hand out is ready for insertion: it is not
    /// live, and after the request it is admitted and no longer claimable.
    pub proof fn lemma_reserved_key(self, n: int, i: int)
        requires
            self.wf(),
            self.can_reserve(n),
            0 <= i < n,
        ensures
            !self.has(self.reserved_key(n, i)),
            self.reserved(n).admits(self.reserved_key(n, i)),
            !claimable(self.free, self.reserved(n).cursor, self.reserved_key(n, i)),
            forall|j: int| 0 <= j < n && j != i ==> self.reserved_key(n, j).index != self.reserved_key(n, i).index,
    {
        let key = self.reserved_key(n, i);
        let after = self.reserved(n);
        let rec = self.recycled(n);
        if self.cursor >= n {
            let at = self.cursor - n + i;
            assert(free_entry_ok(self.slots, self.free, at));
            lemma_rows_below_slots(self.slots, keys_of(self.pairs), key.index as int);
        } else if i < rec {
            assert(free_entry_ok(self.slots, self.free, i));
            lemma_rows_below_slots(self.slots, keys_of(self.pairs), key.index as int);
        } else {
            assert(key.index == self.last + i - rec);
            assert(key.index >= self.slots.len());
            assert(after.grown()[key.index as int] == Slot::zero());
            if self.slots.len() > 0 {
                if self.pairs.len() > 0 {
                    assert(row_ok(self.slots, keys_of(self.pairs), 0));
                }
            }
            self.lemma_len_below_last();
        }
        assert(!claimable(self.free, after.cursor, key)) by {
            if claimable(self.free, after.cursor, key) {
                let j = choose|j: int| 0 <= j < after.cursor && j < self.free.len() && self.free[j] == key;
                assert(self.cursor >= n);
                assert(self.free[j].index != self.free[self.cursor - n + i].index);
            }
        }
        assert forall|j: int| 0 <= j < n && j != i implies self.reserved_key(n, j).index != key.index by {
            let other = self.reserved_key(n, j);
            if self.cursor >= n {
                let a = self.cursor - n + i;
                let b = self.cursor - n + j;
                if a < b {
                    assert(self.free[a].index != self.free[b].index);
                } else {
                    assert(self.free[b].index != self.free[a].index);
                }
            } else if i < rec && j < rec {
                if i < j {
                    assert(self.free[i].index != self.free[j].index);
                } else {
                    assert(self.free[j].index != self.free[i].index);
                }
            } else if i < rec {
                assert(free_entry_ok(self.slots, self.free, i));
            } else if j < rec {
                assert(free_entry_ok(self.slots, self.free, j));
            }
        }
    }

    /// A consistent store has at most as many rows as indices were handed
    /// out, and fewer than the vacant mark when an index is left.
    pub proof fn lemma_len_below_last(self)
        requires
            self.wf(),
        ensures
            self.pairs.len() <= self.slots.len(),
            self.slots.len() < self.last ==> self.pairs.len() < VACANT,
    {
        let rows = keys_of(self.pairs);
        let items = Seq::new(rows.len(), |r: int| rows[r].index as int);
        assert forall|a: int, b: int| 0 <= a < items.len() && 0 <= b < items.len() && a != b implies items[a] != items[b] by {
            assert(row_ok(self.slots, rows, a));
            assert(row_ok(self.slots, rows, b));
        }
        assert forall|i: int| 0 <= i < items.len() implies 0 <= #[trigger] items[i] < self.slots.len() by {
            assert(row_ok(self.slots, rows, i));
        }
        crate::table::lemma_distinct_below(items, self.slots.len() as int);
    }

    /// Handing out keys keeps the store consistent and changes no value.
    pub proof fn lemma_reserved_wf(self, n: int)
        requires
            self.wf(),
            self.can_reserve(n),
        ensures
            self.reserved(n).wf(),
            forall|key: Key| self.reserved(n).get(key) == self.get(key),
    {
        let after = self.reserved(n);
        assert forall|j: int| 0 <= j < after.cursor implies #[trigger] free_entry_ok(after.slots, after.free, j) by {
            assert(free_entry_ok(self.slots, self.free, j));
        }
    }

    /// Trying an insertion keeps the store consistent, provided the key is
    /// not one that still waits in the free list. An admitted key then names
    /// the value; every other key names what it named before.
    pub proof fn lemma_placed(self, key: Key, value: T)
        requires
            self.wf(),
            !claimable(self.free, self.cursor, key),
        ensures
            self.placed(key, value).wf(),
            self.admits(key) ==> self.placed(key, value).get(key) == Some(value),
            self.admits(key) ==> !self.has(key),
            !self.admits(key) ==> self.placed(key, value).get(key) == self.get(key),
            forall|other: Key| other != key ==> self.placed(key, value).get(other) == self.get(other),
    {
        let after = self.placed(key, value);
        let rows = keys_of(self.pairs);
        let grown = self.grown();
        self.lemma_grown();
        if self.admits(key) {
            let rows2 = keys_of(after.pairs);
            let n = self.pairs.len() as int;
            assert(rows2.len() == n + 1);
            assert forall|r: int| 0 <= r < rows2.len() implies #[trigger] row_ok(after.slots, rows2, r) by {
                if r < n {
                    assert(row_ok(grown, rows, r));
                    assert(rows2[r] == rows[r]);
                }
            }
            assert forall|i: int| 0 <= i < after.slots.len() implies #[trigger] slot_ok(after.slots, rows2, i) by {
                if i != key.index {
                    assert(slot_ok(grown, rows, i));
                    if grown[i].row != VACANT {
                        assert(rows2[grown[i].row as int] == rows[grown[i].row as int]);
                    }
                }
            }
            assert forall|j: int| 0 <= j < self.cursor implies #[trigger] free_entry_ok(after.slots, self.free, j) by {
                assert(free_entry_ok(grown, self.free, j));
                if self.free[j].index == key.index {
                    assert(self.free[j] == key);
                    assert(claimable(self.free, self.cursor, key));
                }
            }
            assert forall|other: Key| other != key implies after.get(other) == self.get(other) by {
                if other.index != key.index {
                    if live(self.slots, other) {
                        assert(slot_ok(self.slots, rows, other.index as int));
                    }
                }
            }
        } else {
            assert forall|other: Key| after.get(other) == self.get(other) by {}
        }
    }

    /// Cutting the stale tail off the free list changes nothing else and
    /// keeps the store consistent.
    pub proof fn lemma_compacted(self)
        requires
            self.wf(),
        ensures
            self.compacted().wf(),
            self.compacted().cursor == self.compacted().free.len(),
            self.compacted().compacted() == self.compacted(),
            forall|key: Key| self.compacted().get(key) == self.get(key),
    {
        let base = self.compacted();
        assert forall|j: int| 0 <= j < base.cursor implies #[trigger] free_entry_ok(base.slots, base.free, j) by {
            assert(free_entry_ok(self.slots, self.free, j));
        }
        assert(base.free.take(base.cursor) =~= base.free);
    }

    /// Removing a key keeps the store consistent. The key names nothing
    /// afterwards, and every other key names what it named before, whichever
    /// row moved.
    pub proof fn lemma_removed(self, key: Key)
        requires
            self.wf(),
        ensures
            self.removed(key).wf(),
            self.removed(key).cursor == self.removed(key).free.len(),
            self.removed(key).get(key) is None,
            self.has(key) ==> self.removed(key).len() + 1 == self.len(),
            !self.has(key) ==> self.removed(key).pairs == self.pairs,
            forall|other: Key| other != key ==> self.removed(key).get(other) == self.get(other),
    {
        self.lemma_compacted();
        let base = self.compacted();
        let after = self.removed(key);
        let rows = keys_of(self.pairs);
        if live(self.slots, key) {
            let row = self.slots[key.index as int].row as int;
            let end = self.pairs.len() - 1;
            let moved = self.pairs[end].0;
            let rows2 = keys_of(after.pairs);
            assert(slot_ok(self.slots, rows, key.index as int));
            assert(row_ok(self.slots, rows, row));
            assert(row_ok(self.slots, rows, end));
            assert(rows[row] == key);
            assert(rows[end] == moved);
            assert(rows2.len() == end);
            assert forall|r: int| 0 <= r < rows2.len() implies #[trigger] row_ok(after.slots, rows2, r) by {
                assert(row_ok(self.slots, rows, r));
                if r != row {
                    assert(rows2[r] == rows[r]);
                } else {
                    assert(rows2[r] == moved);
                }
            }
            assert forall|i: int| 0 <= i < after.slots.len() implies #[trigger] slot_ok(after.slots, rows2, i) by {
                assert(slot_ok(self.slots, rows, i));
                if i != key.index && i != moved.index && self.slots[i].row != VACANT {
                    let at = self.slots[i].row as int;
                    assert(row_ok(self.slots, rows, at));
                    assert(rows2[at] == rows[at]);
                }
            }
            assert forall|j: int| 0 <= j < after.cursor implies #[trigger] free_entry_ok(after.slots, after.free, j) by {
                if j < base.free.len() {
                    assert(free_entry_ok(self.slots, self.free, j));
                }
            }
            assert forall|i: int, j: int| 0 <= i < j < after.cursor implies (#[trigger] after.free[i]).index != (#[trigger] after.free[j]).index by {
                if j < base.free.len() {
                    assert(self.free[i].index != self.free[j].index);
                } else {
                    assert(free_entry_ok(self.slots, self.free, i));
                }
            }
            assert forall|other: Key| other != key implies after.get(other) == self.get(other) by {
                if live(self.slots, other) {
                    assert(slot_ok(self.slots, rows, other.index as int));
                    let at = self.slots[other.index as int].row as int;
                    assert(row_ok(self.slots, rows, at));
                }
            }
        }
    }
}

} // verus!
