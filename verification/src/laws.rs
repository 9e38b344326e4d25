//! What holds of every consistent store, stated over its mathematical value.

use crate::key::Key;
use crate::model::Table;
use crate::table::{
    advanced, claimable, clamped, free_entry_ok, granted, keys_of, live, outcome, recycled, row_ok, slot_ok,
};
use vstd::prelude::*;

verus! {

/// Round trip: right after a value is inserted, the key it was given names
/// that value.
pub proof fn law_round_trip<T>(store: Table<T>, value: T)
    requires
        store.wf(),
        store.can_reserve(1),
    ensures
        store.inserted(value).wf(),
        store.inserted(value).get(store.next_key()) == Some(value),
{
    store.lemma_inserted(value);
}

/// Generation monotonicity: insert a value, remove it, insert again. If the
/// second insertion lands on the index of the first, its key is exactly one
/// generation later; and it does land there whenever that generation is not
/// the retired one. The first key names nothing any more, the second names
/// its value.
pub proof fn law_generation_monotonic<T>(store: Table<T>, first: T, second: T)
    requires
        store.wf(),
        store.can_reserve(1),
        store.inserted(first).removed(store.next_key()).can_reserve(1),
    ensures
        ({
            let old_key = store.next_key();
            let emptied = store.inserted(first).removed(old_key);
            let new_key = emptied.next_key();
            let refilled = emptied.inserted(second);
            &&& new_key.index == old_key.index ==> new_key.generation == old_key.generation + 1
            &&& old_key.generation + 1 < u32::MAX ==> new_key.index == old_key.index
            &&& new_key != old_key
            &&& refilled.wf()
            &&& refilled.get(old_key) is None
            &&& refilled.get(new_key) == Some(second)
        }),
{
    let old_key = store.next_key();
    let filled = store.inserted(first);
    store.lemma_inserted(first);
    filled.lemma_removed(old_key);
    let emptied = filled.removed(old_key);
    emptied.lemma_inserted(second);
    let new_key = emptied.next_key();
    assert(filled.has(old_key));
    assert(emptied.slots[old_key.index as int].generation == old_key.generation + 1);
    if new_key.index == old_key.index {
        emptied.lemma_reserved_key(1, 0);
        if emptied.cursor >= 1 {
            assert(free_entry_ok(emptied.slots, emptied.free, emptied.cursor - 1));
        } else {
            assert(new_key.index == emptied.last);
        }
    }
    if old_key.generation + 1 < u32::MAX {
        assert(emptied.free.last().index == old_key.index);
    }
}

/// Swap-remove slot integrity: when a row that is not the last is removed,
/// the row formerly at the end takes its place, and the key of that row,
/// unchanged, still names the same value. So does every other live key.
pub proof fn law_swap_remove<T>(store: Table<T>, key: Key)
    requires
        store.wf(),
        store.has(key),
        store.slots[key.index as int].row < store.len() - 1,
    ensures
        ({
            let row = store.slots[key.index as int].row as int;
            let end = store.pairs.last();
            &&& store.removed(key).wf()
            &&& store.removed(key).pairs[row] == end
            &&& store.removed(key).get(end.0) == Some(end.1)
            &&& store.removed(key).get(key) is None
            &&& forall|other: Key| other != key ==> store.removed(key).get(other) == store.get(other)
        }),
{
    store.lemma_removed(key);
    let rows = keys_of(store.pairs);
    let end = store.pairs.len() - 1;
    assert(row_ok(store.slots, rows, end));
    assert(slot_ok(store.slots, rows, key.index as int));
    assert(row_ok(store.slots, rows, store.slots[key.index as int].row as int));
    assert(live(store.slots, store.pairs[end].0));
}

/// Uniqueness of reserved keys: the keys of one request are pairwise
/// distinct, none of them is live, and none of them is handed out again by
/// the request that follows.
pub proof fn law_reserved_distinct<T>(store: Table<T>, n: int, m: int)
    requires
        store.wf(),
        store.can_reserve(n),
        store.reserved(n).can_reserve(m),
    ensures
        forall|i: int, j: int|
            0 <= i < j < n ==> store.reserved_key(n, i) != store.reserved_key(n, j),
        forall|i: int| 0 <= i < n ==> !store.has(store.reserved_key(n, i)),
        forall|i: int, j: int|
            0 <= i < n && 0 <= j < m ==> store.reserved_key(n, i) != store.reserved(n).reserved_key(
                m,
                j,
            ),
{
    let after = store.reserved(n);
    store.lemma_reserved_wf(n);
    assert forall|i: int, j: int| 0 <= i < j < n implies store.reserved_key(n, i)
        != store.reserved_key(n, j) by {
        store.lemma_reserved_key(n, i);
    }
    assert forall|i: int| 0 <= i < n implies !store.has(store.reserved_key(n, i)) by {
        store.lemma_reserved_key(n, i);
    }
    assert forall|i: int, j: int| 0 <= i < n && 0 <= j < m implies store.reserved_key(n, i)
        != after.reserved_key(m, j) by {
        store.lemma_reserved_key(n, i);
        after.lemma_reserved_key(m, j);
        let a = store.reserved_key(n, i);
        let b = after.reserved_key(m, j);
        if a == b {
            if after.cursor >= m {
                assert(claimable(store.free, after.cursor, b));
            } else if j < after.recycled(m) {
                assert(claimable(store.free, after.cursor, b));
            } else {
                assert(b.index >= after.last);
                if store.cursor >= n {
                    assert(free_entry_ok(store.slots, store.free, store.cursor - n + i));
                } else if i < store.recycled(n) {
                    assert(free_entry_ok(store.slots, store.free, i));
                }
            }
        }
    }
}

/// Deferred invisibility: a key that was handed out while a scope was open,
/// recycled from the part of the free list that the scope claimed or fresh
/// above the old high-water mark, names nothing as long as the scope is
/// open, when the store is as it was. Once the scope is closed with the
/// key's pair in the queue, the key names the queued value, unless its
/// removal was queued too; what the scope wrote to other rows does not
/// matter.
pub proof fn law_deferred_insert<T>(
    store: Table<T>,
    buffer: Seq<Option<T>>,
    cursor: int,
    last: int,
    key: Key,
    value: T,
    removes: Seq<Key>,
)
    requires
        store.wf(),
        (exists|j: int|
            0 <= j && store.synced(cursor, last).cursor <= j < store.cursor && #[trigger] store.free[j]
                == key) || (key.generation == 0 && store.last <= key.index < store.synced(
            cursor,
            last,
        ).last),
        !removes.contains(key),
    ensures
        store.get(key) is None,
        store.merged(buffer).settled(cursor, last, seq![(key, value)], removes).wf(),
        store.merged(buffer).settled(cursor, last, seq![(key, value)], removes).get(key) == Some(
            value,
        ),
{
    store.lemma_merged(buffer);
    let merged = store.merged(buffer);
    assert(merged.synced(cursor, last).cursor == store.synced(cursor, last).cursor);
    assert(merged.synced(cursor, last).last == store.synced(cursor, last).last);
    lemma_queued_pair_lands(merged, cursor, last, key, value, removes);
    assert(store.has(key) == merged.has(key));
}

proof fn lemma_queued_pair_lands<T>(
    store: Table<T>,
    cursor: int,
    last: int,
    key: Key,
    value: T,
    removes: Seq<Key>,
)
    requires
        store.wf(),
        (exists|j: int|
            0 <= j && store.synced(cursor, last).cursor <= j < store.cursor && #[trigger] store.free[j]
                == key) || (key.generation == 0 && store.last <= key.index < store.synced(
            cursor,
            last,
        ).last),
        !removes.contains(key),
    ensures
        !store.has(key),
        store.settled(cursor, last, seq![(key, value)], removes).wf(),
        store.settled(cursor, last, seq![(key, value)], removes).get(key) == Some(value),
{
    let synced = store.synced(cursor, last);
    store.lemma_synced(cursor, last);
    store.lemma_settled(cursor, last, seq![(key, value)], removes);
    let one = seq![(key, value)];
    assert(one.drop_last() =~= Seq::<(Key, T)>::empty());
    let recycled = exists|j: int|
        0 <= j && synced.cursor <= j < store.cursor && #[trigger] store.free[j] == key;
    if recycled {
        let j = choose|j: int| 0 <= j && synced.cursor <= j < store.cursor && #[trigger] store.free[j] == key;
        assert(free_entry_ok(store.slots, store.free, j));
        crate::table::lemma_rows_below_slots(store.slots, keys_of(store.pairs), key.index as int);
        assert(!claimable(synced.free, synced.cursor, key)) by {
            if claimable(synced.free, synced.cursor, key) {
                let i = choose|i: int| 0 <= i < synced.cursor && i < synced.free.len() && synced.free[i] == key;
                assert(store.free[i].index != store.free[j].index);
            }
        }
    } else {
        assert(!claimable(synced.free, synced.cursor, key)) by {
            if claimable(synced.free, synced.cursor, key) {
                let i = choose|i: int| 0 <= i < synced.cursor && i < synced.free.len() && synced.free[i] == key;
                assert(free_entry_ok(store.slots, store.free, i));
            }
        }
        synced.lemma_len_below_last();
    }
    assert(synced.accepted(one.drop_last()) =~= Seq::<(Key, T)>::empty());
    assert(synced.accepted(one) =~= one);
    synced.lemma_placed_one(key, value);
    synced.lemma_placed(key, value);
    assert(synced.admits(key));
    synced.placed(key, value).lemma_removed_all_keeps(removes, key);
}

/// Removal at scope close: a key whose removal was queued names nothing
/// once the scope is closed, whatever else was queued or written.
pub proof fn law_deferred_remove<T>(
    store: Table<T>,
    buffer: Seq<Option<T>>,
    cursor: int,
    last: int,
    inserts: Seq<(Key, T)>,
    removes: Seq<Key>,
    i: int,
)
    requires
        store.wf(),
        0 <= i < removes.len(),
    ensures
        store.merged(buffer).settled(cursor, last, inserts, removes).get(removes[i]) is None,
{
    store.lemma_merged(buffer);
    let store = store.merged(buffer);
    let synced = store.synced(cursor, last);
    store.lemma_synced(cursor, last);
    synced.lemma_accepted(inserts);
    synced.lemma_placed_all(synced.accepted(inserts));
    synced.placed_all(synced.accepted(inserts)).lemma_removed_all_gone(removes, i);
}

/// A key that shared reservation hands out, a claimable entry of the free
/// list or a fresh key at or above the high-water mark, names nothing in the
/// store as it stood when the scope opened.
pub proof fn law_granted_is_unused<T>(store: Table<T>, key: Key)
    requires
        store.wf(),
        granted(store.free, store.cursor, store.last, key),
    ensures
        !store.has(key),
        store.get(key) is None,
{
    if claimable(store.free, store.cursor, key) {
        let j = choose|j: int| 0 <= j < store.cursor && j < store.free.len() && store.free[j] == key;
        assert(free_entry_ok(store.slots, store.free, j));
    }
}

/// The keys of one shared request that was done are pairwise distinct,
/// whatever the shared counters held.
pub proof fn law_outcome_distinct<T>(
    store: Table<T>,
    old: Seq<Key>,
    new: Seq<Key>,
    before: int,
    first: int,
)
    requires
        store.wf(),
        outcome(old, new, store.free, store.limit(), store.last, before, first, true),
    ensures
        forall|i: int, j: int| 0 <= i < j < new.len() ==> new[i] != new[j],
{
    let n = old.len() as int;
    let at = clamped(clamped(before, store.limit()), store.free.len() as int);
    let filled = recycled(n, at);
    assert forall|i: int, j: int| 0 <= i < j < new.len() implies new[i] != new[j] by {
        assert(new[i] == crate::table::reserved_key(n, at, store.free, first, i));
        assert(new[j] == crate::table::reserved_key(n, at, store.free, first, j));
        if at >= n {
            assert(store.free[at - n + i].index != store.free[at - n + j].index);
        } else if j < filled {
            assert(store.free[i].index != store.free[j].index);
        } else if i < filled {
            assert(free_entry_ok(store.slots, store.free, i));
        }
    }
}

/// A key is spent when the slot of its index has moved on to a later
/// generation.
pub open spec fn spent<T>(store: Table<T>, key: Key) -> bool {
    key.index < store.slots.len() && key.generation < store.slots[key.index as int].generation
}

/// Retired for good: a spent key names nothing in any later state of the
/// store. Every function that changes a store states that no slot has gone
/// back (`advanced`), and that carries over any sequence of calls, so a key
/// that was removed once never names a value again.
pub proof fn law_spent_for_good<T>(then: Table<T>, now: Table<T>, later: Table<T>, key: Key)
    requires
        spent(then, key),
        advanced(then.slots, now.slots),
        advanced(now.slots, later.slots),
    ensures
        advanced(then.slots, later.slots),
        spent(now, key),
        spent(later, key),
        !now.has(key),
        !later.has(key),
        now.get(key) is None,
        later.get(key) is None,
{
    assert forall|i: int| 0 <= i < then.slots.len() implies (#[trigger] then.slots[i]).generation
        <= later.slots[i].generation by {
        assert(then.slots[i].generation <= now.slots[i].generation);
        assert(now.slots[i].generation <= later.slots[i].generation);
    }
    assert(then.slots[key.index as int].generation <= now.slots[key.index as int].generation);
}

/// A removed key is spent.
pub proof fn law_removed_is_spent<T>(store: Table<T>, key: Key)
    requires
        store.wf(),
        store.has(key),
    ensures
        spent(store.removed(key), key),
        !store.removed(key).has(key),
{
    store.lemma_row_key(key);
    let rows = keys_of(store.pairs);
    assert(row_ok(store.slots, rows, store.pairs.len() - 1));
    assert(row_ok(store.slots, rows, store.slots[key.index as int].row as int));
}

/// Once spent, always spent: a spent key names nothing, and no step of the
/// store makes it name anything again. Reserving, inserting, removing,
/// giving keys back, writing values and closing a scope all leave every
/// slot at its generation or move it to a later one.
pub proof fn law_spent_stays_spent<T>(
    store: Table<T>,
    key: Key,
    other: Key,
    value: T,
    n: int,
    buffer: Seq<Option<T>>,
    cursor: int,
    last: int,
)
    requires
        store.wf(),
        spent(store, key),
    ensures
        !store.has(key),
        spent(store.reserved(n), key),
        spent(store.placed(other, value), key),
        spent(store.removed(other), key),
        spent(store.released(other), key),
        spent(store.assigned(other, value), key),
        spent(store.merged(buffer), key),
        spent(store.synced(cursor, last), key),
{
    let rows = keys_of(store.pairs);
    if store.has(other) {
        store.lemma_row_key(other);
        assert(row_ok(store.slots, rows, store.pairs.len() - 1));
        assert(row_ok(store.slots, rows, store.slots[other.index as int].row as int));
    }
}

/// A spent key stays spent through a list of insertions at keys.
pub proof fn law_spent_through_inserts<T>(store: Table<T>, key: Key, pairs: Seq<(Key, T)>)
    requires
        store.wf(),
        spent(store, key),
        forall|i: int|
            0 <= i < pairs.len() ==> !claimable(store.free, store.cursor, (#[trigger] pairs[i]).0),
    ensures
        spent(store.placed_all(pairs), key),
    decreases pairs.len(),
{
    if pairs.len() > 0 {
        let rest = pairs.drop_last();
        assert forall|i: int| 0 <= i < rest.len() implies !claimable(
            store.free,
            store.cursor,
            (#[trigger] rest[i]).0,
        ) by {
            assert(rest[i] == pairs[i]);
        }
        law_spent_through_inserts(store, key, rest);
        store.lemma_placed_all(rest);
        law_spent_stays_spent(
            store.placed_all(rest),
            key,
            pairs.last().0,
            pairs.last().1,
            0,
            Seq::empty(),
            0,
            0,
        );
    }
}

/// A spent key stays spent through a list of removals.
pub proof fn law_spent_through_removes<T>(store: Table<T>, key: Key, keys: Seq<Key>, filler: T)
    requires
        store.wf(),
        spent(store, key),
    ensures
        spent(store.removed_all(keys), key),
    decreases keys.len(),
{
    if keys.len() > 0 {
        let rest = keys.drop_last();
        law_spent_through_removes(store, key, rest, filler);
        store.lemma_removed_all(rest);
        law_spent_stays_spent(
            store.removed_all(rest),
            key,
            keys.last(),
            filler,
            0,
            Seq::empty(),
            0,
            0,
        );
    }
}

} // verus!
