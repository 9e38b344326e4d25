use armoire::{Armoire, Inserts, Key, Removes, Slot};

#[test]
fn new_store_is_empty() {
    let store = Armoire::<u8>::new();
    assert_eq!(store.len(), 0);
    assert!(store.is_empty());
    assert!(!store.has(Key::new(0, 0)));
    assert_eq!(store.get(Key::new(0, 0)), None);
    assert!(store.iter().is_empty());
}

#[test]
fn round_trip_for_several_types() {
    let mut text = Armoire::new();
    let key = text.insert(String::from("value"));
    assert_eq!(text.get(key), Some(&String::from("value")));
    let mut pairs = Armoire::new();
    let key = pairs.insert((1u8, -2i64));
    assert_eq!(pairs.get(key), Some(&(1u8, -2i64)));
    let mut units = Armoire::new();
    let key = units.insert(());
    assert_eq!(units.get(key), Some(&()));
    assert!(units.has(key));
    assert!(!units.is_empty());
}

#[test]
fn fresh_keys_count_up_at_generation_zero() {
    let mut store = Armoire::new();
    for i in 0..100u32 {
        let key = store.insert(i);
        assert_eq!(key, Key::new(0, i));
    }
    assert_eq!(store.len(), 100);
    for i in 0..100u32 {
        assert_eq!(store.get(Key::new(0, i)), Some(&i));
    }
}

#[test]
fn generation_grows_by_one_on_reuse() {
    let mut store = Armoire::new();
    let first = store.insert('a');
    assert_eq!(store.remove(first), Some('a'));
    let second = store.insert('b');
    assert_eq!(second.index(), first.index());
    assert_eq!(second.generation(), first.generation() + 1);
    assert_eq!(store.get(first), None);
    assert!(!store.has(first));
    assert_eq!(store.get(second), Some(&'b'));
    assert_eq!(store.remove(second), Some('b'));
    let third = store.insert('c');
    assert_eq!(third, Key::new(2, 0));
    assert_eq!(store.get(second), None);
}

#[test]
fn swap_remove_keeps_the_moved_row_under_its_key() {
    let mut store = Armoire::new();
    let keys = store.insert_n(vec![10, 20, 30, 40]);
    assert_eq!(keys.len(), 4);
    assert_eq!(store.remove(keys[1]), Some(20));
    assert_eq!(store.get(keys[3]), Some(&40));
    assert_eq!(store.get(keys[0]), Some(&10));
    assert_eq!(store.get(keys[2]), Some(&30));
    let rows: Vec<(Key, i32)> = store.iter().into_iter().map(|(key, value)| (key, *value)).collect();
    assert_eq!(rows, vec![(keys[0], 10), (keys[3], 40), (keys[2], 30)]);
    assert_eq!(store.remove(keys[2]), Some(30));
    let rows: Vec<(Key, i32)> = store.iter().into_iter().map(|(key, value)| (key, *value)).collect();
    assert_eq!(rows, vec![(keys[0], 10), (keys[3], 40)]);
}

#[test]
fn remove_of_a_stale_key_is_none() {
    let mut store = Armoire::new();
    let key = store.insert(1);
    assert_eq!(store.remove(key), Some(1));
    assert_eq!(store.remove(key), None);
    assert_eq!(store.remove(Key::new(0, 77)), None);
    assert_eq!(store.remove(Key::new(5, 0)), None);
    assert_eq!(store.len(), 0);
}

#[test]
fn remove_n_answers_in_order() {
    let mut store = Armoire::new();
    let keys = store.insert_n(vec!['a', 'b', 'c']);
    let values = store.remove_n(vec![keys[2], keys[2], keys[0], Key::new(9, 9)]);
    assert_eq!(values, vec![Some('c'), None, Some('a'), None]);
    assert_eq!(store.len(), 1);
    assert_eq!(store.get(keys[1]), Some(&'b'));
}

#[test]
fn recycled_keys_come_most_recently_freed_first() {
    let mut store = Armoire::new();
    let keys = store.insert_n(vec![0, 1, 2, 3]);
    store.remove(keys[0]);
    store.remove(keys[2]);
    assert_eq!(store.insert(9), Key::new(1, 2));
    assert_eq!(store.insert(9), Key::new(1, 0));
    assert_eq!(store.insert(9), Key::new(0, 4));
}

#[test]
fn a_request_larger_than_the_free_list_takes_it_from_the_front() {
    let mut store = Armoire::new();
    let keys = store.insert_n(vec![0, 1, 2]);
    store.remove(keys[1]);
    store.remove(keys[0]);
    let got = store.reserve_n_mut(4);
    assert_eq!(got, vec![Key::new(1, 1), Key::new(1, 0), Key::new(0, 3), Key::new(0, 4)]);
    let got = store.reserve_n_mut(2);
    assert_eq!(got, vec![Key::new(0, 5), Key::new(0, 6)]);
}

#[test]
fn a_request_within_the_free_list_takes_its_end() {
    let mut store = Armoire::new();
    let keys = store.insert_n(vec![0, 1, 2]);
    let _ = store.remove_n(vec![keys[0], keys[1], keys[2]]);
    let got = store.reserve_n_mut(2);
    assert_eq!(got, vec![Key::new(1, 1), Key::new(1, 2)]);
    let got = store.reserve_n_mut(1);
    assert_eq!(got, vec![Key::new(1, 0)]);
}

#[test]
fn reserve_mut_fills_every_place() {
    let mut store = Armoire::<u8>::new();
    let mut keys = vec![Key::new(7, 7); 3];
    store.reserve_mut(&mut keys);
    assert_eq!(keys, vec![Key::new(0, 0), Key::new(0, 1), Key::new(0, 2)]);
    let mut none: Vec<Key> = Vec::new();
    store.reserve_mut(&mut none);
    assert!(none.is_empty());
}

#[test]
fn try_insert_at_a_reserved_key() {
    let mut store = Armoire::new();
    let keys = store.reserve_n_mut(2);
    assert_eq!(store.len(), 0);
    assert_eq!(store.get(keys[0]), None);
    assert_eq!(store.try_insert(keys[1], "late"), Ok(()));
    assert_eq!(store.get(keys[1]), Some(&"late"));
    assert_eq!(store.get(keys[0]), None);
    assert_eq!(store.try_insert(keys[0], "early"), Ok(()));
    assert_eq!(store.get(keys[0]), Some(&"early"));
    assert_eq!(store.len(), 2);
}

#[test]
fn try_insert_gives_the_value_back() {
    let mut store = Armoire::new();
    let key = store.insert(1);
    assert_eq!(store.try_insert(key, 2), Err(2));
    assert_eq!(store.try_insert(Key::new(1, key.index()), 3), Err(3));
    assert_eq!(store.try_insert(Key::new(0, 50), 4), Err(4));
    assert_eq!(store.try_insert(Key::new(u32::MAX, u32::MAX), 5), Err(5));
    assert_eq!(store.get(key), Some(&1));
    assert_eq!(store.len(), 1);
    store.remove(key);
    assert_eq!(store.try_insert(key, 6), Err(6));
}

#[test]
fn try_insert_n_answers_in_order() {
    let mut store = Armoire::new();
    let keys = store.reserve_n_mut(2);
    let results =
        store.try_insert_n(vec![(keys[0], 'x'), (keys[0], 'y'), (Key::new(3, 3), 'z'), (keys[1], 'w')]);
    assert_eq!(results, vec![Ok(()), Err('y'), Err('z'), Ok(())]);
    assert_eq!(store.get(keys[0]), Some(&'x'));
    assert_eq!(store.get(keys[1]), Some(&'w'));
}

#[test]
fn release_returns_a_key_one_generation_later() {
    let mut store = Armoire::<u8>::new();
    let keys = store.reserve_n_mut(2);
    store.release(vec![keys[0]]);
    assert_eq!(store.try_insert(keys[0], 1), Err(1));
    let again = store.insert(2);
    assert_eq!(again, Key::new(1, 0));
    assert_eq!(store.get(again), Some(&2));
    assert_eq!(store.try_insert(keys[1], 3), Ok(()));
    assert!(!store.is_claimable(keys[1]));
}

#[test]
fn claimable_keys_are_those_waiting_in_the_free_list() {
    let mut store = Armoire::new();
    let key = store.insert(0);
    assert!(!store.is_claimable(key));
    store.remove(key);
    let next = Key::new(1, 0);
    assert!(store.is_claimable(next));
    assert!(!store.is_claimable(key));
    assert_eq!(store.insert(1), next);
    assert!(!store.is_claimable(next));
}

#[test]
fn get_mut_writes_in_place() {
    let mut store = Armoire::new();
    let a = store.insert(1);
    let b = store.insert(2);
    *store.get_mut(a).unwrap() += 10;
    assert_eq!(store.get(a), Some(&11));
    assert_eq!(store.get(b), Some(&2));
    store.remove(a);
    assert!(store.get_mut(a).is_none());
}

#[test]
fn iter_mut_reaches_every_row() {
    let mut store = Armoire::new();
    let keys = store.insert_n(vec![1, 2, 3]);
    for (key, value) in store.iter_mut() {
        *value *= 10;
        assert!(keys.contains(&key));
    }
    assert_eq!(store.get(keys[0]), Some(&10));
    assert_eq!(store.get(keys[1]), Some(&20));
    assert_eq!(store.get(keys[2]), Some(&30));
}

#[test]
fn merge_takes_written_rows_only() {
    let mut store = Armoire::new();
    let keys = store.insert_n(vec![1, 2, 3]);
    store.merge(vec![None, Some(20), None, Some(40)]);
    assert_eq!(store.get(keys[0]), Some(&1));
    assert_eq!(store.get(keys[1]), Some(&20));
    assert_eq!(store.get(keys[2]), Some(&3));
    assert_eq!(store.len(), 3);
    store.merge(vec![Some(10)]);
    assert_eq!(store.get(keys[0]), Some(&10));
    assert_eq!(store.get(keys[2]), Some(&3));
}

#[test]
fn settle_applies_inserts_then_removes() {
    let mut store = Armoire::new();
    let live = store.insert('a');
    let gone = store.insert('b');
    store.remove(gone);
    let recycled = Key::new(1, 1);
    let fresh = Key::new(0, 2);
    store.settle(0, 3, vec![(recycled, 'r'), (fresh, 'f'), (live, 'x')], vec![live, fresh]);
    assert_eq!(store.get(recycled), Some(&'r'));
    assert_eq!(store.get(fresh), None);
    assert_eq!(store.get(live), None);
    assert_eq!(store.len(), 1);
    assert_eq!(store.insert('n'), Key::new(1, 2));
    assert_eq!(store.insert('m'), Key::new(1, 0));
    assert_eq!(store.insert('k'), Key::new(0, 3));
}

#[test]
fn settle_drops_a_pair_whose_key_was_not_handed_out() {
    let mut store = Armoire::new();
    let key = store.insert(1);
    store.remove(key);
    let waiting = Key::new(1, 0);
    store.settle(1, 1, vec![(waiting, 2)], vec![]);
    assert_eq!(store.get(waiting), None);
    assert_eq!(store.insert(3), waiting);
    assert_eq!(store.get(waiting), Some(&3));
}

#[test]
fn inserts_apply_one_at_a_time() {
    let mut store = Armoire::new();
    let keys = store.reserve_n_mut(2);
    let mut inserts = Inserts::new(store, vec![(keys[0], 1), (keys[0], 2), (keys[1], 3)]);
    assert_eq!(inserts.len(), 3);
    assert_eq!(inserts.next(), Some(Ok(())));
    assert_eq!(inserts.next(), Some(Err(2)));
    assert_eq!(inserts.len(), 1);
    let store = inserts.finish();
    assert_eq!(store.get(keys[0]), Some(&1));
    assert_eq!(store.get(keys[1]), Some(&3));
    let mut done = Inserts::new(store, Vec::new());
    assert_eq!(done.next(), None);
}

#[test]
fn removes_apply_one_at_a_time() {
    let mut store = Armoire::new();
    let keys = store.insert_n(vec!['a', 'b', 'c']);
    let mut removes = Removes::new(store, vec![keys[1], keys[1], keys[0]]);
    assert_eq!(removes.next(), Some(Ok((keys[1], 'b'))));
    assert_eq!(removes.next(), Some(Err(keys[1])));
    assert_eq!(removes.len(), 1);
    let store = removes.finish();
    assert_eq!(store.len(), 1);
    assert_eq!(store.get(keys[2]), Some(&'c'));
    assert_eq!(store.get(keys[0]), None);
}

#[test]
fn slot_initialize_takes_a_vacant_slot_of_its_generation() {
    let mut slot = Slot::new(3, u32::MAX);
    assert!(!slot.initialize(2, 7));
    assert_eq!(slot, Slot::new(3, u32::MAX));
    assert!(slot.initialize(3, 7));
    assert_eq!(slot, Slot::new(3, 7));
    assert!(!slot.initialize(3, 8));
    assert_eq!(slot.row(), 7);
    assert!(slot.is(3));
    assert!(!slot.is(4));
    let mut retired = Slot::new(u32::MAX, u32::MAX);
    assert!(!retired.initialize(u32::MAX, 0));
    let mut vacant = Slot::new(0, u32::MAX);
    assert!(!vacant.initialize(0, u32::MAX));
}

#[test]
fn slot_release_moves_to_the_next_generation() {
    let mut slot = Slot::new(3, 7);
    assert_eq!(slot.release(2), None);
    assert_eq!(slot.release(3), Some(7));
    assert_eq!(slot, Slot::new(4, u32::MAX));
    assert_eq!(slot.release(4), None);
    let mut last = Slot::new(u32::MAX - 1, 0);
    assert_eq!(last.release(u32::MAX - 1), Some(0));
    assert_eq!(last, Slot::new(u32::MAX, u32::MAX));
}

#[test]
fn slot_update_refuses_a_retired_slot() {
    let mut slot = Slot::new(1, 2);
    assert!(slot.update(5));
    assert_eq!(slot, Slot::new(1, 5));
    let mut retired = Slot::new(u32::MAX, u32::MAX);
    assert!(!retired.update(5));
    assert_eq!(retired, Slot::new(u32::MAX, u32::MAX));
    let mut vacant = Slot::new(0, u32::MAX);
    assert!(vacant.update(1));
}

#[test]
fn key_increment_stops_at_the_last_generation() {
    assert_eq!(Key::new(0, 4).increment(), Some(Key::new(1, 4)));
    assert_eq!(Key::new(u32::MAX - 1, 4).increment(), Some(Key::new(u32::MAX, 4)));
    assert_eq!(Key::new(u32::MAX, 4).increment(), None);
    assert_eq!(Key::new(2, 9).generation(), 2);
    assert_eq!(Key::new(2, 9).index(), 9);
}
