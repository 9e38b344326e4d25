use armoire::key::blank;
use armoire::write::touch;
use armoire::table::{
    add, claimed_amount, ensure, has_room, index, is_claimable, mint, minted_amount, pair_up,
    recycle, reserve, reserve_mut, reserve_within, sub,
};
use armoire::{Armoire, Key, Slot};
use std::sync::atomic::{AtomicI64, AtomicU32, Ordering};

#[test]
fn add_and_sub_return_the_old_value() {
    let mut mark = 5u32;
    assert_eq!(add(&mut mark, 3), 5);
    assert_eq!(mark, 8);
    let mut cursor = 2i64;
    assert_eq!(sub(&mut cursor, 3), 2);
    assert_eq!(cursor, -1);
}

#[test]
fn index_finds_live_keys_only() {
    let slots = vec![Slot::new(2, 7), Slot::new(0, u32::MAX)];
    assert_eq!(index(Key::new(2, 0), &slots), Some(7));
    assert_eq!(index(Key::new(1, 0), &slots), None);
    assert_eq!(index(Key::new(0, 1), &slots), None);
    assert_eq!(index(Key::new(0, 2), &slots), None);
}

#[test]
fn ensure_grows_with_untouched_slots() {
    let mut slots = vec![Slot::new(2, 7)];
    ensure(3, &mut slots);
    assert_eq!(slots, vec![Slot::new(2, 7), Slot::zero(), Slot::zero()]);
    ensure(1, &mut slots);
    assert_eq!(slots.len(), 3);
    assert_eq!(Slot::zero(), Slot::new(0, u32::MAX));
}

#[test]
fn recycle_takes_the_end_of_the_claimable_part() {
    let free = vec![Key::new(1, 10), Key::new(1, 11), Key::new(1, 12), Key::new(1, 13)];
    let mut keys = blank(2);
    assert_eq!(recycle(&mut keys, 3, &free), 2);
    assert_eq!(keys, vec![Key::new(1, 11), Key::new(1, 12)]);
    let mut keys = blank(3);
    assert_eq!(recycle(&mut keys, 2, &free), 2);
    assert_eq!(keys, vec![Key::new(1, 10), Key::new(1, 11), Key::null()]);
    let mut keys = blank(2);
    assert_eq!(recycle(&mut keys, 0, &free), 0);
    assert_eq!(recycle(&mut keys, -4, &free), 0);
    assert_eq!(keys, vec![Key::null(), Key::null()]);
}

#[test]
fn recycle_cuts_a_cursor_beyond_the_list() {
    let free = vec![Key::new(1, 10), Key::new(1, 11)];
    let mut keys = blank(1);
    assert_eq!(recycle(&mut keys, 9, &free), 1);
    assert_eq!(keys, vec![Key::new(1, 11)]);
    let mut keys = blank(3);
    assert_eq!(recycle(&mut keys, i64::MAX, &free), 2);
    assert_eq!(keys, vec![Key::new(1, 10), Key::new(1, 11), Key::null()]);
}

#[test]
fn mint_counts_up_from_the_mark() {
    let mut keys = blank(3);
    assert!(mint(&mut keys, 1, 40));
    assert_eq!(keys, vec![Key::null(), Key::new(0, 40), Key::new(0, 41)]);
    let mut keys = blank(2);
    assert!(mint(&mut keys, 0, u32::MAX - 2));
    assert_eq!(keys, vec![Key::new(0, u32::MAX - 2), Key::new(0, u32::MAX - 1)]);
}

#[test]
fn mint_refuses_when_the_index_space_is_used_up() {
    let mut keys = blank(2);
    assert!(!mint(&mut keys, 0, u32::MAX - 1));
    assert_eq!(keys, vec![Key::null(), Key::null()]);
    assert!(mint(&mut keys, 2, u32::MAX));
    let mut one = blank(1);
    assert!(!mint(&mut one, 0, u32::MAX));
}

#[test]
fn reserve_mut_moves_both_counters() {
    let free = vec![Key::new(3, 1), Key::new(2, 0)];
    let (mut cursor, mut last) = (2i64, 5u32);
    let mut keys = blank(3);
    reserve_mut(&mut keys, &mut cursor, &free, &mut last);
    assert_eq!(keys, vec![Key::new(3, 1), Key::new(2, 0), Key::new(0, 5)]);
    assert_eq!((cursor, last), (-1, 6));
    let mut keys = blank(2);
    reserve_mut(&mut keys, &mut cursor, &free, &mut last);
    assert_eq!(keys, vec![Key::new(0, 6), Key::new(0, 7)]);
    assert_eq!((cursor, last), (-3, 8));
    let mut none = blank(0);
    reserve_mut(&mut none, &mut cursor, &free, &mut last);
    assert_eq!((cursor, last), (-3, 8));
}

#[test]
fn shared_reserve_moves_the_shared_counters() {
    let free = vec![Key::new(3, 1), Key::new(2, 0)];
    let (cursor, last) = (AtomicI64::new(2), AtomicU32::new(5));
    let mut keys = blank(1);
    assert!(reserve(&mut keys, &cursor, &free, &last));
    assert_eq!(keys, vec![Key::new(2, 0)]);
    let mut keys = blank(3);
    assert!(reserve(&mut keys, &cursor, &free, &last));
    assert_eq!(keys, vec![Key::new(3, 1), Key::new(0, 5), Key::new(0, 6)]);
    assert_eq!(cursor.load(Ordering::SeqCst), -2);
    assert_eq!(last.load(Ordering::SeqCst), 7);
    let mut none = blank(0);
    assert!(reserve(&mut none, &cursor, &free, &last));
    assert_eq!(cursor.load(Ordering::SeqCst), -2);
}

#[test]
fn shared_reserve_fails_when_the_index_space_is_used_up() {
    let free: Vec<Key> = Vec::new();
    let (cursor, last) = (AtomicI64::new(0), AtomicU32::new(u32::MAX - 1));
    let mut keys = blank(2);
    assert!(!reserve(&mut keys, &cursor, &free, &last));
    assert_eq!(keys, vec![Key::null(), Key::null()]);
}

#[test]
fn is_claimable_looks_below_the_cursor_only() {
    let free = vec![Key::new(3, 1), Key::new(2, 0)];
    assert!(is_claimable(&free, 2, Key::new(2, 0)));
    assert!(!is_claimable(&free, 1, Key::new(2, 0)));
    assert!(is_claimable(&free, 1, Key::new(3, 1)));
    assert!(!is_claimable(&free, 0, Key::new(3, 1)));
    assert!(!is_claimable(&free, -1, Key::new(3, 1)));
    assert!(is_claimable(&free, 9, Key::new(2, 0)));
    assert!(!is_claimable(&free, 9, Key::new(2, 1)));
}

#[test]
fn touch_copies_into_an_empty_entry_only() {
    let mut entry = None;
    touch(&5, &mut entry);
    assert_eq!(entry, Some(5));
    touch(&6, &mut entry);
    assert_eq!(entry, Some(5));
}

#[test]
fn blank_keys_and_named_keys() {
    assert_eq!(blank(2), vec![Key::new(u32::MAX, u32::MAX); 2]);
    assert_eq!(Key::null(), Key::new(u32::MAX, u32::MAX));
    assert_eq!(Key::zero(), Key::new(0, 0));
    assert!(blank(0).is_empty());
}

#[test]
fn store_answers_for_its_state() {
    let mut store = Armoire::<u8>::default();
    assert!(store.is_empty());
    assert!(store.can_reserve(1));
    assert!(store.can_reserve(u32::MAX as usize));
    assert!(!store.can_reserve(u32::MAX as usize + 1));
    let key = store.insert(1);
    assert!(!store.can_reserve(u32::MAX as usize));
    store.remove(key);
    assert!(store.can_reserve(u32::MAX as usize));
}

#[test]
fn amounts_and_pairs_are_what_the_request_says() {
    assert_eq!(claimed_amount(0), 0);
    assert_eq!(claimed_amount(7), 7);
    assert_eq!(minted_amount(7, 3), 4);
    assert_eq!(minted_amount(7, 7), 0);
    assert!(has_room(0, u32::MAX - 2, 2));
    assert!(!has_room(0, u32::MAX - 2, 3));
    assert!(has_room(1, u32::MAX - 2, 3));
    assert!(has_room(-5, 0, 9));
    let keys = vec![Key::new(0, 5), Key::new(1, 2), Key::new(0, 9)];
    assert_eq!(pair_up(&keys, vec!['a', 'b']), vec![(Key::new(0, 5), 'a'), (Key::new(1, 2), 'b')]);
    assert!(pair_up(&keys, Vec::<u8>::new()).is_empty());
}

#[test]
fn handles_can_be_copied() {
    let mut store = Armoire::new();
    let key = store.insert(4);
    let (_write, read, defer) = store.defer();
    let (read_too, defer_too) = (read, defer.clone());
    assert_eq!(read.get(key), Some(&4));
    assert_eq!(read_too.clone().get(key), Some(&4));
    let a = defer.insert(5).unwrap();
    let b = defer_too.insert(6).unwrap();
    assert_ne!(a, b);
    store.resolve();
    assert_eq!(store.get(a), Some(&5));
    assert_eq!(store.get(b), Some(&6));
}

#[test]
fn shared_reserve_for_no_key_is_done() {
    let free: Vec<Key> = Vec::new();
    let (cursor, last) = (AtomicI64::new(0), AtomicU32::new(u32::MAX));
    let mut none = blank(0);
    assert!(reserve(&mut none, &cursor, &free, &last));
    assert!(reserve_within(&mut none, &cursor, &free, 0, &last, 7));
    let mut one = blank(1);
    assert!(!reserve(&mut one, &cursor, &free, &last));
}

#[test]
fn shared_reserve_leaves_unfilled_places_when_it_fails() {
    let free = vec![Key::new(3, 1), Key::new(2, 0)];
    let (cursor, last) = (AtomicI64::new(1), AtomicU32::new(u32::MAX));
    let mut keys = vec![Key::new(9, 9); 3];
    assert!(!reserve(&mut keys, &cursor, &free, &last));
    assert_eq!(keys, vec![Key::new(3, 1), Key::new(9, 9), Key::new(9, 9)]);
}

#[test]
fn reserve_within_counts_the_cursor_up_to_the_limit() {
    let free = vec![Key::new(3, 1), Key::new(2, 0), Key::new(5, 4)];
    let (cursor, last) = (AtomicI64::new(3), AtomicU32::new(10));
    let mut keys = blank(3);
    assert!(reserve_within(&mut keys, &cursor, &free, 2, &last, 10));
    assert_eq!(keys, vec![Key::new(3, 1), Key::new(2, 0), Key::new(0, 10)]);
    assert_eq!(cursor.load(Ordering::SeqCst), 0);
    assert_eq!(last.load(Ordering::SeqCst), 11);
    let (cursor, last) = (AtomicI64::new(3), AtomicU32::new(10));
    let mut keys = blank(1);
    assert!(reserve_within(&mut keys, &cursor, &free, 2, &last, 10));
    assert_eq!(keys, vec![Key::new(2, 0)]);
    let (cursor, last) = (AtomicI64::new(3), AtomicU32::new(10));
    let mut keys = blank(1);
    assert!(reserve_within(&mut keys, &cursor, &free, 9, &last, 10));
    assert_eq!(keys, vec![Key::new(5, 4)]);
}

#[test]
fn reserve_within_refuses_a_mark_below_the_floor() {
    let free: Vec<Key> = Vec::new();
    let (cursor, last) = (AtomicI64::new(0), AtomicU32::new(4));
    let mut keys = blank(2);
    assert!(!reserve_within(&mut keys, &cursor, &free, 0, &last, 5));
    assert_eq!(keys, vec![Key::null(), Key::null()]);
    let (cursor, last) = (AtomicI64::new(0), AtomicU32::new(5));
    assert!(reserve_within(&mut keys, &cursor, &free, 0, &last, 5));
    assert_eq!(keys, vec![Key::new(0, 5), Key::new(0, 6)]);
}
