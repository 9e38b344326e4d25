//! The slot table read as mathematics: which keys are live, what makes rows
//! and free list consistent with the slots, and the steps that keep it so.

use crate::key::{Key, Slot, VACANT};
use crate::model::Table;
use std::sync::atomic::{AtomicI64, AtomicU32};
use vstd::prelude::*;

verus! {

/// A key is live when its slot exists, is at the key's generation and holds a
/// row.
pub open spec fn live(slots: Seq<Slot>, key: Key) -> bool {
    &&& key.index < slots.len()
    &&& slots[key.index as int].generation == key.generation
    &&& slots[key.index as int].row != VACANT
}

/// The dense row of a live key.
pub open spec fn row_of(slots: Seq<Slot>, key: Key) -> Option<int> {
    if live(slots, key) {
        Some(slots[key.index as int].row as int)
    } else {
        None
    }
}

/// The keys of the dense rows, in row order.
pub open spec fn keys_of<T>(pairs: Seq<(Key, T)>) -> Seq<Key> {
    Seq::new(pairs.len(), |r: int| pairs[r].0)
}

/// Row `r` is recorded in the slot of its key.
pub open spec fn row_ok(slots: Seq<Slot>, rows: Seq<Key>, r: int) -> bool {
    &&& rows[r].index < slots.len()
    &&& rows[r].generation < u32::MAX
    &&& slots[rows[r].index as int].generation == rows[r].generation
    &&& slots[rows[r].index as int].row == r
    &&& r < VACANT
}

/// An occupied slot `i` points at a row whose key has index `i`.
pub open spec fn slot_ok(slots: Seq<Slot>, rows: Seq<Key>, i: int) -> bool {
    slots[i].row != VACANT ==> slots[i].row < rows.len() && rows[slots[i].row as int].index
        == i
}

/// Rows and slots name each other: every row is recorded in its key's slot
/// and every occupied slot points at its own row.
pub open spec fn rows_ok(slots: Seq<Slot>, rows: Seq<Key>) -> bool {
    &&& slots.len() <= u32::MAX
    &&& forall|r: int| 0 <= r < rows.len() ==> #[trigger] row_ok(slots, rows, r)
    &&& forall|i: int| 0 <= i < slots.len() ==> #[trigger] slot_ok(slots, rows, i)
}

/// Entry `j` of the free list names a vacant slot at the entry's generation,
/// which is not the retired one.
pub open spec fn free_entry_ok(slots: Seq<Slot>, free: Seq<Key>, j: int) -> bool {
    &&& free[j].index < slots.len()
    &&& free[j].generation < u32::MAX
    &&& slots[free[j].index as int].generation == free[j].generation
    &&& slots[free[j].index as int].row == VACANT
}

/// The claimable part of the free list, its first `cursor` entries, names
/// vacant slots at their current generation, each index once.
pub open spec fn free_ok(slots: Seq<Slot>, free: Seq<Key>, cursor: int) -> bool {
    &&& cursor <= free.len()
    &&& forall|j: int| 0 <= j < cursor ==> #[trigger] free_entry_ok(slots, free, j)
    &&& forall|i: int, j: int|
        0 <= i < j < cursor ==> (#[trigger] free[i]).index != (#[trigger] free[j]).index
}

/// The slot table, the free list and the two counters agree: slots exist
/// only below the high-water mark `last`, and the cursor is never further
/// below zero than fresh indices were handed out.
pub open spec fn table_ok(slots: Seq<Slot>, free: Seq<Key>, cursor: int, last: int) -> bool {
    &&& slots.len() <= last <= u32::MAX
    &&& -last <= cursor
    &&& free_ok(slots, free, cursor)
}

/// Whether a key waits in the claimable part of the free list.
pub open spec fn claimable(free: Seq<Key>, cursor: int, key: Key) -> bool {
    exists|j: int| 0 <= j < cursor && j < free.len() && #[trigger] free[j] == key
}

/// Of a request for `n` keys, how many the claimable free list serves.
pub open spec fn recycled(n: int, cursor: int) -> int {
    if cursor <= 0 {
        0
    } else if cursor < n {
        cursor
    } else {
        n
    }
}

/// Key `i` of a request for `n` keys.
pub open spec fn reserved_key(n: int, cursor: int, free: Seq<Key>, last: int, i: int) -> Key {
    if cursor >= n {
        free[cursor - n + i]
    } else if i < recycled(n, cursor) {
        free[i]
    } else {
        Key { generation: 0, index: (last + i - recycled(n, cursor)) as u32 }
    }
}

/// Distinct whole numbers below a bound are at most as many as the bound.
pub proof fn lemma_distinct_below(items: Seq<int>, bound: int)
    requires
        0 <= bound,
        items.no_duplicates(),
        forall|i: int| 0 <= i < items.len() ==> 0 <= #[trigger] items[i] < bound,
    ensures
        items.len() <= bound,
{
    items.unique_seq_to_set();
    vstd::set_lib::lemma_int_range(0, bound);
    assert(items.to_set().subset_of(vstd::set_lib::set_int_range(0, bound))) by {
        assert forall|x: int| items.to_set().contains(x) implies vstd::set_lib::set_int_range(
            0,
            bound,
        ).contains(x) by {
            let i = choose|i: int| 0 <= i < items.len() && items[i] == x;
            assert(0 <= items[i] < bound);
        }
    }
    vstd::set_lib::lemma_len_subset(items.to_set(), vstd::set_lib::set_int_range(0, bound));
}

/// With consistent rows and one vacant slot, there are fewer rows than
/// slots, so the next row number is not the vacant mark.
pub proof fn lemma_rows_below_slots(slots: Seq<Slot>, rows: Seq<Key>, vacant: int)
    requires
        rows_ok(slots, rows),
        0 <= vacant < slots.len(),
        slots[vacant].row == VACANT,
    ensures
        rows.len() < slots.len(),
        rows.len() < VACANT,
{
    let items = Seq::new(rows.len() + 1, |r: int| if r < rows.len() { rows[r].index as int } else { vacant });
    assert forall|a: int, b: int| 0 <= a < items.len() && 0 <= b < items.len() && a != b implies items[a] != items[b] by {
        if a < rows.len() {
            assert(row_ok(slots, rows, a));
        }
        if b < rows.len() {
            assert(row_ok(slots, rows, b));
        }
    }
    assert forall|i: int| 0 <= i < items.len() implies 0 <= #[trigger] items[i] < slots.len() by {
        if i < rows.len() {
            assert(row_ok(slots, rows, i));
        }
    }
    lemma_distinct_below(items, slots.len() as int);
}

/// A consistent claimable free list is no longer than the slot table.
pub proof fn lemma_free_below_slots(slots: Seq<Slot>, free: Seq<Key>, cursor: int)
    requires
        free_ok(slots, free, cursor),
        0 <= cursor,
    ensures
        cursor <= slots.len(),
{
    let items = Seq::new(cursor as nat, |j: int| free[j].index as int);
    assert forall|a: int, b: int| 0 <= a < items.len() && 0 <= b < items.len() && a != b implies items[a] != items[b] by {
        if a < b {
            assert(free[a].index != free[b].index);
        } else {
            assert(free[b].index != free[a].index);
        }
    }
    assert forall|i: int| 0 <= i < items.len() implies 0 <= #[trigger] items[i] < slots.len() by {
        assert(free_entry_ok(slots, free, i));
    }
    lemma_distinct_below(items, slots.len() as int);
}

/// No slot has gone back: every slot that was there is still there, at its
/// generation or a later one.
pub open spec fn advanced(before: Seq<Slot>, after: Seq<Slot>) -> bool {
    &&& before.len() <= after.len()
    &&& forall|i: int| 0 <= i < before.len() ==> (#[trigger] before[i]).generation <= after[i].generation
}

/// The claimable part of the free list stays consistent when the cursor
/// does not rise and every slot that was vacant is as it was.
pub proof fn lemma_free_ok_kept(
    before: Seq<Slot>,
    after: Seq<Slot>,
    free: Seq<Key>,
    cursor: int,
    fewer: int,
)
    requires
        free_ok(before, free, cursor),
        fewer <= cursor,
        before.len() <= after.len(),
        forall|i: int| 0 <= i < before.len() && before[i].row == VACANT ==> after[i] == before[i],
    ensures
        free_ok(after, free, fewer),
{
    assert forall|j: int| 0 <= j < fewer implies #[trigger] free_entry_ok(after, free, j) by {
        assert(free_entry_ok(before, free, j));
    }
}

/// Looks a key up in the slot table: the dense row of a live key, `None`
/// for a key whose slot is missing, at another generation, or vacant.
pub fn index(key: Key, slots: &Vec<Slot>) -> (row: Option<usize>)
    ensures
        row matches Some(r) ==> row_of(slots@, key) == Some(r as int),
        row is None ==> row_of(slots@, key) is None,
{
    if (key.index as usize) < slots.len() {
        let slot = &slots[key.index as usize];
        if slot.generation == key.generation && slot.row != VACANT {
            return Some(slot.row as usize);
        }
    }
    None
}

/// Grows the slot table to the high-water mark with slots that have never
/// held a value. A table already that long is left as it is.
pub fn ensure(last: u32, slots: &mut Vec<Slot>)
    ensures
        final(slots)@.len() == (if old(slots)@.len() < last { last as int } else { old(slots)@.len() as int }),
        forall|i: int| 0 <= i < old(slots)@.len() ==> final(slots)@[i] == old(slots)@[i],
        forall|i: int| old(slots)@.len() <= i < final(slots)@.len() ==> final(slots)@[i] == Slot::zero(),
{
    while slots.len() < last as usize
        invariant
            old(slots)@.len() <= slots@.len(),
            slots@.len() <= last || slots@.len() == old(slots)@.len(),
            forall|i: int| 0 <= i < old(slots)@.len() ==> slots@[i] == old(slots)@[i],
            forall|i: int| old(slots)@.len() <= i < slots@.len() ==> slots@[i] == Slot::zero(),
        decreases last - slots@.len(),
    {
        slots.push(Slot::zero());
    }
}

/// Adds to a counter and returns what it held before.
pub fn add(target: &mut u32, value: u32) -> (source: u32)
    requires
        *old(target) + value <= u32::MAX,
    ensures
        source == *old(target),
        *final(target) == *old(target) + value,
{
    let source = *target;
    *target = source + value;
    source
}

/// Subtracts from a counter and returns what it held before.
pub fn sub(target: &mut i64, value: i64) -> (source: i64)
    requires
        i64::MIN <= *old(target) - value <= i64::MAX,
    ensures
        source == *old(target),
        *final(target) == *old(target) - value,
{
    let source = *target;
    *target = source - value;
    source
}

/// The cursor as far as the free list can serve it: a claim beyond the
/// list's end is cut to the list's length.
pub open spec fn clamped(cursor: int, len: int) -> int {
    if cursor > len {
        len
    } else {
        cursor
    }
}

/// Fills the front of `keys` from the free list, given what the cursor held
/// before the request was subtracted from it. A request that the claimable
/// entries serve whole takes the last of them; otherwise all of them go to
/// the front of `keys` and the rest is left as it was. Returns how many
/// places were filled.
pub fn recycle(keys: &mut Vec<Key>, before: i64, free: &Vec<Key>) -> (filled: usize)
    ensures
        final(keys)@.len() == old(keys)@.len(),
        filled == recycled(old(keys)@.len() as int, clamped(before as int, free@.len() as int)),
        forall|i: int|
            0 <= i < filled ==> #[trigger] final(keys)@[i] == reserved_key(
                old(keys)@.len() as int,
                clamped(before as int, free@.len() as int),
                free@,
                0,
                i,
            ),
        forall|i: int| filled <= i < old(keys)@.len() ==> #[trigger] final(keys)@[i] == old(keys)@[i],
{
    let n = keys.len();
    if before <= 0 {
        return 0;
    }
    let end: usize = if before as u64 > free.len() as u64 {
        free.len()
    } else {
        before as usize
    };
    let ghost count = n as int;
    let ghost cursor = end as int;
    let (from, upto): (usize, usize) = if end >= n {
        (end - n, n)
    } else {
        (0, end)
    };
    let mut i: usize = 0;
    while i < upto
        invariant
            i <= upto <= n,
            n == count,
            keys@.len() == n,
            end == cursor,
            cursor == clamped(before as int, free@.len() as int),
            from + upto <= free@.len(),
            upto == recycled(count, cursor),
            from == (if cursor >= count { cursor - count } else { 0 }),
            forall|j: int|
                0 <= j < i ==> #[trigger] keys@[j] == reserved_key(count, cursor, free@, 0, j),
            forall|j: int| i <= j < n ==> #[trigger] keys@[j] == old(keys)@[j],
        decreases upto - i,
    {
        keys.set(i, free[from + i]);
        i += 1;
    }
    upto
}

/// Fills `keys` from place `filled` on with fresh keys at generation 0,
/// counting up from `first`. Where the index space does not hold them all it
/// fills nothing and returns `false`.
pub fn mint(keys: &mut Vec<Key>, filled: usize, first: u32) -> (done: bool)
    requires
        filled <= old(keys)@.len(),
    ensures
        final(keys)@.len() == old(keys)@.len(),
        done == (first + old(keys)@.len() - filled <= u32::MAX),
        forall|i: int| 0 <= i < filled ==> #[trigger] final(keys)@[i] == old(keys)@[i],
        done ==> forall|i: int|
            filled <= i < old(keys)@.len() ==> #[trigger] final(keys)@[i] == (Key {
                generation: 0,
                index: (first + i - filled) as u32,
            }),
        !done ==> final(keys)@ == old(keys)@,
{
    let n = keys.len();
    if n - filled > (u32::MAX - first) as usize {
        return false;
    }
    let mut i: usize = filled;
    while i < n
        invariant
            filled <= i <= n,
            keys@.len() == n,
            n == old(keys)@.len(),
            first + n - filled <= u32::MAX,
            forall|j: int| 0 <= j < filled ==> #[trigger] keys@[j] == old(keys)@[j],
            forall|j: int|
                filled <= j < i ==> #[trigger] keys@[j] == (Key {
                    generation: 0,
                    index: (first + j - filled) as u32,
                }),
        decreases n - i,
    {
        keys.set(i, Key::new(0, first + (i - filled) as u32));
        i += 1;
    }
    true
}

/// Hands out one key for every place of `keys`, with exclusive access to
/// the counters. Recycled keys come from the claimable end of the free list;
/// what it cannot serve is minted at fresh indices, generation 0, counting
/// up from the high-water mark. The cursor drops by the size of the request
/// whether or not the free list could serve it.
pub fn reserve_mut(keys: &mut Vec<Key>, cursor: &mut i64, free: &Vec<Key>, last: &mut u32)
    requires
        *old(cursor) <= free@.len(),
        *old(cursor) <= u32::MAX,
        -(*old(last)) <= *old(cursor),
        *old(last) + old(keys)@.len() - recycled(old(keys)@.len() as int, *old(cursor) as int)
            <= u32::MAX,
    ensures
        final(keys)@.len() == old(keys)@.len(),
        forall|i: int|
            0 <= i < old(keys)@.len() ==> #[trigger] final(keys)@[i] == reserved_key(
                old(keys)@.len() as int,
                *old(cursor) as int,
                free@,
                *old(last) as int,
                i,
            ),
        *final(cursor) == *old(cursor) - old(keys)@.len(),
        *final(last) == *old(last) + old(keys)@.len() - recycled(
            old(keys)@.len() as int,
            *old(cursor) as int,
        ),
{
    let n = keys.len();
    if n == 0 {
        return ;
    }
    let before = self::sub(cursor, n as i64);
    let filled = recycle(keys, before, free);
    if filled < n {
        let first = self::add(last, (n - filled) as u32);
        let done = mint(keys, filled, first);
        assert(done);
    }
}

/// What a shared request for `n` keys may have been answered with: the keys
/// that some earlier value of the cursor and of the high-water mark give.
pub open spec fn answers(keys: Seq<Key>, free: Seq<Key>) -> bool {
    exists|before: int, first: int| #[trigger] answered_by(keys, free, before, first)
}

/// The keys are what a shared request gets when the cursor held `before`
/// and the high-water mark held `first`, and the index space has room.
pub open spec fn answered_by(keys: Seq<Key>, free: Seq<Key>, before: int, first: int) -> bool {
    &&& 0 <= first
    &&& first + keys.len() - recycled(keys.len() as int, clamped(before, free.len() as int))
        <= u32::MAX
    &&& forall|i: int|
        0 <= i < keys.len() ==> #[trigger] keys[i] == reserved_key(
            keys.len() as int,
            clamped(before, free.len() as int),
            free,
            first,
            i,
        )
}

/// The amount that a request for `n` keys takes from the shared cursor: one
/// for every key.
pub fn claimed_amount(n: usize) -> (amount: i64)
    requires
        n <= i64::MAX,
    ensures
        amount == n,
{
    n as i64
}

/// The amount by which a request raises the shared high-water mark: one for
/// every place that the free list did not fill.
pub fn minted_amount(n: usize, filled: usize) -> (amount: u32)
    requires
        filled <= n,
        n - filled <= u32::MAX,
    ensures
        amount == n - filled,
{
    (n - filled) as u32
}

/// Whether the index space has room for the fresh keys that a request for
/// `n` keys needs, given the cursor and the high-water mark.
pub fn has_room(cursor: i64, last: u32, n: usize) -> (room: bool)
    ensures
        room == (last + n - recycled(n as int, cursor as int) <= u32::MAX),
{
    let claimable: u64 = if cursor <= 0 {
        0
    } else {
        cursor as u64
    };
    let fresh: u64 = if (n as u64) <= claimable {
        0
    } else {
        n as u64 - claimable
    };
    fresh <= (u32::MAX - last) as u64
}

/// Keys and values paired place by place, in their order.
pub fn pair_up<T>(keys: &Vec<Key>, values: Vec<T>) -> (pairs: Vec<(Key, T)>)
    requires
        keys@.len() >= values@.len(),
    ensures
        pairs@ == Table::<T>::paired(keys@, values@),
{
    let ghost all = values@;
    let total = values.len();
    let mut pairs: Vec<(Key, T)> = Vec::with_capacity(total);
    let mut i: usize = 0;
    for value in it: values
        invariant
            it.seq() == all,
            i == it.index(),
            keys@.len() >= all.len(),
            total == all.len(),
            pairs@ == Table::<T>::paired(keys@, all).take(i as int),
    {
        assert(i < all.len());
        pairs.push((keys[i], value));
        proof {
            assert(pairs@ =~= Table::<T>::paired(keys@, all).take(i + 1));
        }
        i += 1;
    }
    proof {
        assert(Table::<T>::paired(keys@, all).take(all.len() as int) =~= Table::<T>::paired(
            keys@,
            all,
        ));
    }
    pairs
}

/// What a shared request does to `keys`, given what the shared cursor held
/// before the request was subtracted from it (`before`) and what the shared
/// high-water mark held before it was raised (`first`).
///
/// The cursor counts only as far as `limit` and the free list reach. The
/// claimable entries that this leaves to the caller fill the front of
/// `keys`; a request that they serve whole takes the last of them. What
/// they do not serve is minted at generation 0, counting up from `first`,
/// provided that `first` is not below `floor` and the index space holds
/// them all; then the request is done. Otherwise it is not, and the places
/// that the free list did not fill are left as they were.
pub open spec fn outcome(
    old: Seq<Key>,
    new: Seq<Key>,
    free: Seq<Key>,
    limit: int,
    floor: int,
    before: int,
    first: int,
    done: bool,
) -> bool {
    let n = old.len() as int;
    let at = clamped(clamped(before, limit), free.len() as int);
    let filled = recycled(n, at);
    &&& new.len() == n
    &&& 0 <= first <= u32::MAX
    &&& done == (filled == n || (floor <= first && first + n - filled <= u32::MAX))
    &&& forall|i: int|
        0 <= i < n ==> #[trigger] new[i] == (if i < filled || done {
            reserved_key(n, at, free, first, i)
        } else {
            old[i]
        })
}

/// What a shared request does to `keys` for some values of the two shared
/// counters: which values they held is up to every thread that shares
/// them.
pub open spec fn outcomes(
    old: Seq<Key>,
    new: Seq<Key>,
    free: Seq<Key>,
    limit: int,
    floor: int,
    done: bool,
) -> bool {
    exists|before: int, first: int| #[trigger]
        outcome(old, new, free, limit, floor, before, first, done)
}

/// What a key that shared reservation hands out looks like: a claimable
/// entry of the free list, or a fresh key at generation 0 whose index is
/// not below the high-water mark.
pub open spec fn granted(free: Seq<Key>, cursor: int, last: int, key: Key) -> bool {
    claimable(free, cursor, key) || (key.generation == 0 && key.index >= last)
}

/// Every key of a request that was done is a granted key, when the cursor
/// counted no further than the table's own and the mark not below its own.
pub proof fn lemma_outcome_granted(
    old: Seq<Key>,
    new: Seq<Key>,
    free: Seq<Key>,
    limit: int,
    cursor: int,
    last: int,
    before: int,
    first: int,
)
    requires
        0 <= last,
        limit <= cursor || limit <= 0,
        outcome(old, new, free, limit, last, before, first, true),
    ensures
        forall|i: int| 0 <= i < new.len() ==> granted(free, cursor, last, #[trigger] new[i]),
        answers(new, free),
{
    let n = old.len() as int;
    let at = clamped(clamped(before, limit), free.len() as int);
    let filled = recycled(n, at);
    assert forall|i: int| 0 <= i < new.len() implies granted(free, cursor, last, #[trigger] new[i]) by {
        assert(new[i] == reserved_key(n, at, free, first, i));
        if at >= n {
            assert(free[at - n + i] == new[i]);
        } else if i < filled {
            assert(free[i] == new[i]);
        }
    }
    lemma_outcome_answers(old, new, free, limit, last, before, first);
}

/// The keys of a request that was done are an answer to the request.
pub proof fn lemma_outcome_answers(
    old: Seq<Key>,
    new: Seq<Key>,
    free: Seq<Key>,
    limit: int,
    floor: int,
    before: int,
    first: int,
)
    requires
        outcome(old, new, free, limit, floor, before, first, true),
    ensures
        answers(new, free),
{
    let n = old.len() as int;
    let at = clamped(clamped(before, limit), free.len() as int);
    let filled = recycled(n, at);
    let mark = if filled == n { 0 } else { first };
    assert forall|i: int| 0 <= i < new.len() implies #[trigger] new[i] == reserved_key(
        new.len() as int,
        clamped(clamped(before, limit), free.len() as int),
        free,
        mark,
        i,
    ) by {
        assert(new[i] == reserved_key(n, at, free, first, i));
    }
    assert(answered_by(new, free, clamped(before, limit), mark));
}

/// Hands out one key for every place of `keys` while other threads do the
/// same: the request is subtracted from the shared cursor, the claimable
/// entries that this leaves to the caller are taken from the free list, and
/// the rest is minted above the shared high-water mark. Returns `false`,
/// with no fresh key written, when the index space is used up. A request
/// for no key is always done.
pub fn reserve(keys: &mut Vec<Key>, cursor: &AtomicI64, free: &Vec<Key>, last: &AtomicU32) -> (done:
    bool)
    requires
        old(keys)@.len() <= i64::MAX,
    ensures
        final(keys)@.len() == old(keys)@.len(),
        outcomes(old(keys)@, final(keys)@, free@, free@.len() as int, 0, done),
        old(keys)@.len() == 0 ==> done,
        done ==> answers(final(keys)@, free@),
{
    reserve_within(keys, cursor, free, free.len(), last, 0)
}

/// Shared reservation as `reserve` does it, for a caller that knows bounds
/// on the shared counters: the cursor counts no further than `limit`, and
/// a shared mark below `floor` is refused like a used-up index space.
pub fn reserve_within(
    keys: &mut Vec<Key>,
    cursor: &AtomicI64,
    free: &Vec<Key>,
    limit: usize,
    last: &AtomicU32,
    floor: u32,
) -> (done: bool)
    requires
        old(keys)@.len() <= i64::MAX,
    ensures
        final(keys)@.len() == old(keys)@.len(),
        outcomes(old(keys)@, final(keys)@, free@, limit as int, floor as int, done),
        old(keys)@.len() == 0 ==> done,
        done ==> answers(final(keys)@, free@),
{
    let n = keys.len();
    if n == 0 {
        proof {
            assert(outcome(old(keys)@, keys@, free@, limit as int, floor as int, 0, 0, true));
            lemma_outcome_answers(old(keys)@, keys@, free@, limit as int, floor as int, 0, 0);
        }
        return true;
    }
    let before = crate::atomics::claim(cursor, claimed_amount(n));
    let bounded: i64 = if before > 0 && (limit as u64) < (before as u64) {
        limit as i64
    } else {
        before
    };
    let filled = recycle(keys, bounded, free);
    let ghost at = clamped(clamped(before as int, limit as int), free@.len() as int);
    proof {
        assert(bounded == clamped(before as int, limit as int));
    }
    if filled < n {
        if n - filled > u32::MAX as usize {
            proof {
                assert(outcome(
                    old(keys)@,
                    keys@,
                    free@,
                    limit as int,
                    floor as int,
                    before as int,
                    0,
                    false,
                ));
            }
            return false;
        }
        let first = crate::atomics::raise(last, minted_amount(n, filled));
        let done = first >= floor && mint(keys, filled, first);
        proof {
            assert forall|i: int| 0 <= i < n implies #[trigger] keys@[i] == (if i < filled || done {
                reserved_key(n as int, at, free@, first as int, i)
            } else {
                old(keys)@[i]
            }) by {}
            assert(outcome(
                old(keys)@,
                keys@,
                free@,
                limit as int,
                floor as int,
                before as int,
                first as int,
                done,
            ));
            if done {
                lemma_outcome_answers(
                    old(keys)@,
                    keys@,
                    free@,
                    limit as int,
                    floor as int,
                    before as int,
                    first as int,
                );
            }
        }
        done
    } else {
        proof {
            assert forall|i: int| 0 <= i < n implies #[trigger] keys@[i] == reserved_key(
                n as int,
                at,
                free@,
                0,
                i,
            ) by {}
            assert(outcome(
                old(keys)@,
                keys@,
                free@,
                limit as int,
                floor as int,
                before as int,
                0,
                true,
            ));
            lemma_outcome_answers(
                old(keys)@,
                keys@,
                free@,
                limit as int,
                floor as int,
                before as int,
                0,
            );
        }
        true
    }
}

/// Whether a key waits in the claimable part of the free list.
pub fn is_claimable(free: &Vec<Key>, cursor: i64, key: Key) -> (found: bool)
    ensures
        found == claimable(free@, cursor as int, key),
{
    let bound: u64 = if cursor < 0 {
        0
    } else {
        cursor as u64
    };
    let mut j: usize = 0;
    while j < free.len() && (j as u64) < bound
        invariant
            j <= free@.len(),
            j <= bound,
            bound == (if cursor < 0 { 0 } else { cursor as int }),
            forall|k: int| 0 <= k < j ==> free@[k] != key,
        decreases free@.len() - j,
    {
        if free[j] == key {
            return true;
        }
        j += 1;
    }
    false
}

/// Tries each pair at its key, in order. The slot table is first grown to
/// the high-water mark. A pair whose key's slot is vacant at the key's
/// generation becomes the last row; any other pair's value comes back as
/// `Err`.
pub(crate) fn insert<T>(
    inserts: Vec<(Key, T)>,
    pairs: &mut Vec<(Key, T)>,
    last: u32,
    slots: &mut Vec<Slot>,
    Ghost(before): Ghost<Table<T>>,
) -> (results: Vec<Result<(), T>>)
    requires
        before.slots == old(slots)@,
        before.pairs == old(pairs)@,
        before.last == last,
    ensures
        final(slots)@ == before.placed_all(inserts@).slots,
        final(pairs)@ == before.placed_all(inserts@).pairs,
        results@ == before.placed_results(inserts@),
{
    self::ensure(last, slots);
    let ghost all = inserts@;
    let mut results: Vec<Result<(), T>> = Vec::new();
    proof {
        assert(all.take(0) =~= Seq::<(Key, T)>::empty());
        assert(slots@ =~= before.grown());
    }
    for pair in it: inserts
        invariant
            it.seq() == all,
            slots@ == before.placed_all(all.take(it.index() as int)).slots,
            pairs@ == before.placed_all(all.take(it.index() as int)).pairs,
            results@ == before.placed_results(all.take(it.index() as int)),
            slots@.len() == before.grown().len(),
    {
        let ghost done = all.take(it.index() as int);
        let ghost now = before.placed_all(done);
        proof {
            let next = all.take(it.index() + 1);
            assert(next.drop_last() =~= done);
            assert(next.last() == pair);
            before.lemma_placed_all_grown(done);
        }
        let (key, value) = pair;
        let row: u32 = if pairs.len() < VACANT as usize {
            pairs.len() as u32
        } else {
            VACANT
        };
        let mut taken = false;
        if (key.index as usize) < slots.len() {
            let mut slot = slots[key.index as usize];
            if slot.initialize(key.generation, row) {
                slots.set(key.index as usize, slot);
                taken = true;
            }
        }
        proof {
            assert(now.grown() == now.slots);
            assert(taken == now.admits(key));
        }
        if taken {
            pairs.push((key, value));
            results.push(Ok(()));
        } else {
            results.push(Err(value));
        }
    }
    proof {
        assert(all.take(all.len() as int) =~= all);
    }
    results
}

/// Tries the removal of each key, in order. The stale tail of the free list
/// is cut off first. A live key's row is filled by the last row, whose slot
/// is pointed at its new place; the key's slot moves to the next generation,
/// and the key at that generation joins the free list unless the generation
/// is the retired one. At the end the cursor claims the whole free list.
pub(crate) fn remove<T>(
    removes: &Vec<Key>,
    pairs: &mut Vec<(Key, T)>,
    slots: &mut Vec<Slot>,
    free: &mut Vec<Key>,
    cursor: &mut i64,
    Ghost(before): Ghost<Table<T>>,
) -> (values: Vec<Option<T>>)
    requires
        before.wf(),
        before.slots == old(slots)@,
        before.pairs == old(pairs)@,
        before.free == old(free)@,
        before.cursor == *old(cursor),
    ensures
        final(slots)@ == before.removed_all(removes@).slots,
        final(pairs)@ == before.removed_all(removes@).pairs,
        final(free)@ == before.removed_all(removes@).free,
        *final(cursor) == before.removed_all(removes@).cursor,
        values@ == before.removed_values(removes@),
{
    proof {
        lemma_free_below_slots(before.slots, before.free, before.compacted().cursor);
        before.lemma_compacted();
    }
    let keep: usize = if *cursor < 0 {
        0
    } else {
        *cursor as usize
    };
    free.truncate(keep);
    let ghost all = removes@;
    let mut values: Vec<Option<T>> = Vec::new();
    let mut i: usize = 0;
    proof {
        assert(all.take(0) =~= Seq::<Key>::empty());
    }
    while i < removes.len()
        invariant
            i <= removes@.len(),
            all == removes@,
            before.wf(),
            slots@ == before.removed_all(all.take(i as int)).slots,
            pairs@ == before.removed_all(all.take(i as int)).pairs,
            free@ == before.removed_all(all.take(i as int)).free,
            values@ == before.removed_values(all.take(i as int)),
        decreases removes@.len() - i,
    {
        let key = removes[i];
        let ghost done = all.take(i as int);
        let ghost now = before.removed_all(done);
        proof {
            let next = all.take(i + 1);
            assert(next.drop_last() =~= done);
            assert(next.last() == key);
            before.lemma_removed_all(done);
            now.lemma_compacted();
            assert(now.free.take(now.cursor) =~= now.free);
            assert(now.compacted() == now);
            now.lemma_removed(key);
        }
        let mut value: Option<T> = None;
        if (key.index as usize) < slots.len() {
            let mut slot = slots[key.index as usize];
            match slot.release(key.generation) {
                Some(row) => {
                    proof {
                        assert(slot_ok(now.slots, keys_of(now.pairs), key.index as int));
                        assert(row_ok(now.slots, keys_of(now.pairs), now.pairs.len() - 1));
                        assert(row_ok(now.slots, keys_of(now.pairs), row as int));
                    }
                    slots.set(key.index as usize, slot);
                    let pair = pairs.swap_remove(row as usize);
                    if (row as usize) < pairs.len() {
                        let moved = pairs[row as usize].0;
                        let mut other = slots[moved.index as usize];
                        other.update(row);
                        slots.set(moved.index as usize, other);
                    }
                    match key.increment() {
                        Some(next) => {
                            if next.generation < u32::MAX {
                                free.push(next);
                            }
                        },
                        None => {},
                    }
                    value = Some(pair.1);
                },
                None => {},
            }
        }
        values.push(value);
        i += 1;
    }
    proof {
        assert(all.take(all.len() as int) =~= all);
        before.lemma_removed_all(all);
        let end = before.removed_all(all);
        lemma_free_below_slots(end.slots, end.free, end.cursor);
    }
    *cursor = free.len() as i64;
    values
}

/// Gives each key back, in order. The stale tail of the free list is cut
/// off and the slot table grown first. A key whose slot is vacant at the
/// key's generation has the slot moved to the next generation and joins the
/// free list at that generation, unless it is the retired one; any other key
/// is passed over. At the end the cursor claims the whole free list.
pub(crate) fn release<T>(
    keys: &Vec<Key>,
    last: u32,
    slots: &mut Vec<Slot>,
    free: &mut Vec<Key>,
    cursor: &mut i64,
    Ghost(before): Ghost<Table<T>>,
)
    requires
        before.wf(),
        before.slots == old(slots)@,
        before.free == old(free)@,
        before.cursor == *old(cursor),
        before.last == last,
        forall|i: int| 0 <= i < keys@.len() ==> !claimable(before.free, before.cursor, #[trigger] keys@[i]),
        forall|i: int, j: int|
            0 <= i < j < keys@.len() ==> (#[trigger] keys@[i]).index != (#[trigger] keys@[j]).index,
    ensures
        final(slots)@ == before.released_all(keys@).slots,
        final(free)@ == before.released_all(keys@).free,
        *final(cursor) == before.released_all(keys@).cursor,
{
    let ghost all = keys@;
    proof {
        lemma_free_below_slots(before.slots, before.free, before.compacted().cursor);
        before.lemma_compacted();
    }
    let keep: usize = if *cursor < 0 {
        0
    } else {
        *cursor as usize
    };
    free.truncate(keep);
    self::ensure(last, slots);
    let mut i: usize = 0;
    proof {
        assert(all.take(0) =~= Seq::<Key>::empty());
        assert(slots@ =~= before.grown());
    }
    while i < keys.len()
        invariant
            i <= keys@.len(),
            all == keys@,
            before.wf(),
            forall|i: int| 0 <= i < all.len() ==> !claimable(before.free, before.cursor, #[trigger] all[i]),
            forall|i: int, j: int|
                0 <= i < j < all.len() ==> (#[trigger] all[i]).index != (#[trigger] all[j]).index,
            slots@ == before.released_all(all.take(i as int)).slots,
            free@ == before.released_all(all.take(i as int)).free,
        decreases keys@.len() - i,
    {
        let key = keys[i];
        let ghost done = all.take(i as int);
        let ghost now = before.released_all(done);
        proof {
            let next = all.take(i + 1);
            assert(next.drop_last() =~= done);
            assert(next.last() == key);
            assert forall|k: int| 0 <= k < done.len() implies !claimable(
                before.free,
                before.cursor,
                #[trigger] done[k],
            ) by {
                assert(done[k] == all[k]);
            }
            assert forall|a: int, b: int| 0 <= a < b < done.len() implies (#[trigger] done[a]).index != (
            #[trigger] done[b]).index by {
                assert(done[a] == all[a] && done[b] == all[b]);
            }
            before.lemma_released_all(done);
            now.lemma_compacted();
            assert(now.free.take(now.cursor) =~= now.free);
            assert(now.compacted() == now);
        }
        if (key.index as usize) < slots.len() && key.generation < u32::MAX {
            let slot = slots[key.index as usize];
            if slot.generation == key.generation && slot.row == VACANT {
                let next = Key::new(key.generation + 1, key.index);
                slots.set(key.index as usize, Slot::new(next.generation, VACANT));
                if next.generation < u32::MAX {
                    free.push(next);
                }
            }
        }
        i += 1;
    }
    proof {
        assert(all.take(all.len() as int) =~= all);
        before.lemma_released_all(all);
        let end = before.released_all(all);
        lemma_free_below_slots(end.slots, end.free, end.cursor);
    }
    *cursor = free.len() as i64;
}

/// Every row as its key and a reference for writing its value, in row
/// order. What is written through a reference is what the row holds
/// afterwards; keys and the number of rows stay.
pub fn keyed_mut<T>(pairs: &mut Vec<(Key, T)>) -> (rows: Vec<(Key, &mut T)>)
    ensures
        rows@.len() == old(pairs)@.len(),
        final(pairs)@.len() == old(pairs)@.len(),
        forall|r: int|
            0 <= r < rows@.len() ==> (#[trigger] rows@[r]).0 == old(pairs)@[r].0 && *rows@[r].1 == old(
                pairs,
            )@[r].1,
        forall|r: int|
            0 <= r < rows@.len() ==> #[trigger] final(pairs)@[r] == (old(pairs)@[r].0, *final(rows@[r].1)),
{
    let each = crate::shared::each_mut(pairs);
    let ghost all = each@;
    let mut rows: Vec<(Key, &mut T)> = Vec::new();
    for pair in it: each
        invariant
            it.seq() == all,
            rows@.len() == it.index(),
            forall|r: int|
                0 <= r < rows@.len() ==> (#[trigger] rows@[r]).0 == (*all[r]).0 && *rows@[r].1 == (*all[r]).1,
            forall|r: int|
                0 <= r < rows@.len() ==> *final(#[trigger] all[r]) == ((*all[r]).0, *final(rows@[r].1)),
    {
        rows.push((pair.0, &mut pair.1));
    }
    rows
}

} // verus!
