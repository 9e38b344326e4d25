use armoire::{Access, Armoire, Defer, Key, Keys, Read, Write};
use rayon::iter::{IntoParallelIterator, ParallelIterator};
use std::sync::atomic::{AtomicUsize, Ordering};
use std::sync::Arc;

fn run<T, U>(
    store: &mut Armoire<T>,
    logic: impl for<'w, 'r, 'd> FnOnce(&mut Write<'w, T>, Read<'r, T>, Defer<'d, T>) -> U,
) -> U {
    store.scope(|mut write, read, defer| {
        let value = logic(&mut write, read, defer);
        (value, write.into_writes())
    })
}

struct Counted {
    clones: Arc<AtomicUsize>,
    value: u32,
}

impl Clone for Counted {
    fn clone(&self) -> Self {
        self.clones.fetch_add(1, Ordering::SeqCst);
        Counted { clones: self.clones.clone(), value: self.value }
    }
}

#[test]
fn deferred_insert_is_invisible_until_the_scope_closes() {
    let mut store = Armoire::new();
    let old = store.insert(1);
    let key = run(&mut store, |_write, read, defer| {
        let key = defer.insert(2).unwrap();
        assert_eq!(read.get(key), None);
        assert_eq!(read.get(old), Some(&1));
        assert_eq!(read.len(), 1);
        key
    });
    assert_eq!(store.get(key), Some(&2));
    assert_eq!(store.get(old), Some(&1));
    assert_eq!(store.len(), 2);
    assert_eq!(key, Key::new(0, 1));
}

#[test]
fn deferred_remove_waits_for_the_scope_to_close() {
    let mut store = Armoire::new();
    let keys = store.insert_n(vec!['a', 'b', 'c']);
    let doomed = keys[1];
    run(&mut store, |_write, read, defer| {
        defer.remove(vec![doomed, doomed]);
        assert_eq!(read.get(doomed), Some(&'b'));
    });
    assert_eq!(store.get(doomed), None);
    assert_eq!(store.len(), 2);
    assert_eq!(store.get(keys[0]), Some(&'a'));
    assert_eq!(store.get(keys[2]), Some(&'c'));
    assert_eq!(store.insert('d'), Key::new(1, 1));
}

#[test]
fn inserts_resolve_before_removes() {
    let mut store = Armoire::new();
    let key = run(&mut store, |_write, _read, defer| {
        let key = defer.insert(5).unwrap();
        defer.remove(vec![key]);
        key
    });
    assert_eq!(store.get(key), None);
    assert_eq!(store.len(), 0);
    assert_eq!(store.insert(6), Key::new(1, 0));
}

#[test]
fn deferred_inserts_keep_their_order() {
    let mut store = Armoire::new();
    let keys = run(&mut store, |_write, _read, defer| defer.insert_n(vec![10, 20, 30]).ok().unwrap());
    let rows: Vec<(Key, i32)> = store.iter().into_iter().map(|(key, value)| (key, *value)).collect();
    assert_eq!(rows, vec![(keys[0], 10), (keys[1], 20), (keys[2], 30)]);
}

#[test]
fn deferred_insert_recycles_freed_keys() {
    let mut store = Armoire::new();
    let keys = store.insert_n(vec![0, 1, 2]);
    store.remove(keys[0]);
    store.remove(keys[1]);
    let got = run(&mut store, |_write, _read, defer| {
        let a = defer.insert(7).unwrap();
        let rest = defer.insert_n(vec![8, 9]).ok().unwrap();
        vec![a, rest[0], rest[1]]
    });
    assert_eq!(got, vec![Key::new(1, 1), Key::new(1, 0), Key::new(0, 3)]);
    assert_eq!(store.get(got[0]), Some(&7));
    assert_eq!(store.get(got[1]), Some(&8));
    assert_eq!(store.get(got[2]), Some(&9));
    assert_eq!(store.len(), 4);
    assert_eq!(store.insert(10), Key::new(0, 4));
}

#[test]
fn deferred_try_insert_drops_a_collision() {
    let mut store = Armoire::new();
    let live = store.insert(1);
    let reserved = store.reserve_n_mut(1)[0];
    run(&mut store, |_write, _read, defer| {
        defer.try_insert(vec![(live, 2), (reserved, 3)]);
    });
    assert_eq!(store.get(live), Some(&1));
    assert_eq!(store.get(reserved), Some(&3));
    assert_eq!(store.len(), 2);
}

#[test]
fn workers_reserve_pairwise_distinct_keys() {
    let mut store = Armoire::<u8>::new();
    let (_write, _read, defer) = store.defer();
    let each: Vec<Vec<Key>> =
        (0..16).into_par_iter().map(|_| defer.reserve_n(64).unwrap()).collect();
    let mut all: Vec<Key> = each.into_iter().flatten().collect();
    assert_eq!(all.len(), 16 * 64);
    all.sort();
    all.dedup();
    assert_eq!(all.len(), 16 * 64);
    assert!(all.iter().all(|key| key.generation() == 0 && key.index() < 16 * 64));
    store.resolve();
    assert_eq!(store.insert(0), Key::new(0, 16 * 64));
}

#[test]
fn workers_share_recycled_and_fresh_keys() {
    let mut store = Armoire::new();
    let keys = store.insert_n((0..100u32).collect());
    let _ = store.remove_n(keys.clone());
    let (_write, _read, defer) = store.defer();
    let each: Vec<Vec<Key>> =
        (0..8).into_par_iter().map(|_| defer.reserve_n(25).unwrap()).collect();
    let mut all: Vec<Key> = each.into_iter().flatten().collect();
    all.sort();
    all.dedup();
    assert_eq!(all.len(), 200);
    assert_eq!(all.iter().filter(|key| key.generation() == 1).count(), 100);
    assert_eq!(all.iter().filter(|key| key.generation() == 0).count(), 100);
    assert!(all.iter().all(|key| key.generation() == 1 || key.index() >= 100));
}

#[test]
fn workers_defer_inserts_in_parallel() {
    let mut store = Armoire::new();
    let keys: Vec<(Key, u32)> = run(&mut store, |_write, _read, defer| {
        (0..500u32).into_par_iter().map(|i| (defer.insert(i).unwrap(), i)).collect()
    });
    assert_eq!(store.len(), 500);
    for (key, value) in keys {
        assert_eq!(store.get(key), Some(&value));
    }
}

#[test]
fn shared_reserve_on_a_new_store_hands_out_keys() {
    let mut store = Armoire::<u8>::new();
    let mut keys = vec![Key::null(); 2];
    assert!(store.reserve(&mut keys));
    assert_eq!(keys, vec![Key::new(0, 0), Key::new(0, 1)]);
    assert_eq!(store.reserve_n(2), Some(vec![Key::new(0, 2), Key::new(0, 3)]));
    assert_eq!(store.len(), 0);
    assert_eq!(store.get(Key::new(0, 2)), None);
    assert_eq!(store.try_insert(Key::new(0, 2), 5), Ok(()));
    assert_eq!(store.get(Key::new(0, 2)), Some(&5));
    assert_eq!(store.len(), 1);
    assert_eq!(store.insert(6), Key::new(0, 4));
    assert_eq!(store.try_insert(Key::new(0, 0), 7), Ok(()));
    assert_eq!(store.try_insert(Key::new(0, 9), 8), Err(8));
    assert_eq!(store.reserve_n(1), Some(vec![Key::new(0, 5)]));
}

#[test]
fn reserve_then_try_insert_on_a_new_store() {
    let mut store = Armoire::<i32>::new();
    let keys = store.reserve_n(1).unwrap();
    assert_eq!(store.try_insert(keys[0], 5), Ok(()));
    assert_eq!(store.get(keys[0]), Some(&5));
    assert_eq!(store.len(), 1);
}

#[test]
fn a_key_claimed_in_a_scope_is_not_handed_out_again() {
    let mut store = Armoire::<i32>::new();
    store.insert(10);
    let gone = store.insert(20);
    store.remove(gone);
    let claimed = run(&mut store, |_write, _read, defer| defer.insert(99).unwrap());
    assert_eq!(claimed, Key::new(1, 1));
    let next = store.reserve_n(1).unwrap()[0];
    assert_ne!(next, claimed);
    assert_eq!(store.get(next), None);
    assert_eq!(store.get(claimed), Some(&99));
    let more = store.reserve_n_mut(1)[0];
    assert_ne!(more, claimed);
    assert_ne!(more, next);
}

#[test]
fn shared_and_exclusive_reservation_never_hand_out_one_key_twice() {
    let mut store = Armoire::new();
    let keys = store.insert_n(vec![0, 1, 2, 3]);
    let _ = store.remove_n(vec![keys[1], keys[3]]);
    let shared = store.reserve_n(3).unwrap();
    assert_eq!(shared, vec![Key::new(1, 1), Key::new(1, 3), Key::new(0, 4)]);
    let own = store.insert(9);
    assert_eq!(own, Key::new(0, 5));
    store.remove(keys[0]);
    let recycled = store.insert(9);
    assert_eq!(recycled, Key::new(1, 0));
    assert_eq!(store.try_insert(shared[0], 7), Ok(()));
    assert_eq!(store.try_insert(shared[1], 8), Ok(()));
    assert_eq!(store.try_insert(shared[2], 6), Ok(()));
    assert_eq!(store.get(shared[0]), Some(&7));
    assert_eq!(store.get(shared[1]), Some(&8));
    assert_eq!(store.get(shared[2]), Some(&6));
    assert_eq!(store.get(keys[2]), Some(&2));
    assert_eq!(store.len(), 6);
}

#[test]
fn workers_reserve_from_a_shared_store() {
    let store = Armoire::<u8>::new();
    let each: Vec<Vec<Key>> =
        (0..16).into_par_iter().map(|_| store.reserve_n(64).unwrap()).collect();
    let mut all: Vec<Key> = each.into_iter().flatten().collect();
    assert!(all.iter().all(|key| *key != Key::null()));
    all.sort();
    all.dedup();
    assert_eq!(all.len(), 16 * 64);
    let mut store = store;
    assert_eq!(store.insert(0), Key::new(0, 16 * 64));
}

#[test]
fn key_table_reserves_shared_and_exclusive() {
    let mut table = Keys::new();
    assert_eq!(table.reserve_n_mut(2), vec![Key::new(0, 0), Key::new(0, 1)]);
    assert_eq!(table.ensure(), 2);
    assert_eq!(table.row(Key::new(0, 0)), None);
    assert!(table.initialize(Key::new(0, 0), 0));
    assert!(!table.initialize(Key::new(0, 0), 1));
    assert!(!table.initialize(Key::new(0, 5), 1));
    assert_eq!(table.row(Key::new(0, 0)), Some(0));
    assert_eq!(table.row(Key::new(1, 0)), None);
    assert_eq!(table.get(Key::new(4, 1)).map(|slot| slot.row()), Some(u32::MAX));
    assert!(table.get(Key::new(0, 2)).is_none());
    assert!(table.get_mut(Key::new(0, 1)).unwrap().update(3));
    assert_eq!(table.row(Key::new(0, 1)), Some(3));
    assert!(!table.is_claimable(Key::new(0, 0)));
    assert!(table.has(Key::new(0, 0)));
    assert!(!table.has(Key::new(1, 0)));
    assert_eq!(table.release(Key::new(1, 0)), None);
    assert_eq!(table.release(Key::new(0, 0)), Some(0));
    assert_eq!(table.release(Key::new(0, 0)), None);
    assert!(!table.has(Key::new(0, 0)));
    assert_eq!(table.get(Key::new(0, 0)).map(|slot| (slot.generation, slot.row)), Some((1, u32::MAX)));
    assert!(table.initialize(Key::new(1, 0), 7));
    assert_eq!(table.row(Key::new(1, 0)), Some(7));
    table.share();
    let shared = table.reserve_n(3).unwrap();
    assert_eq!(shared, vec![Key::new(0, 2), Key::new(0, 3), Key::new(0, 4)]);
    let mut more = vec![Key::new(0, 0); 2];
    assert!(table.reserve(&mut more));
    assert_eq!(more, vec![Key::new(0, 5), Key::new(0, 6)]);
    table.gather();
    assert_eq!(table.reserve_n_mut(1), vec![Key::new(0, 7)]);
    table.adopt(-9, 20);
    assert_eq!(table.reserve_n_mut(1), vec![Key::new(0, 20)]);
    table.adopt(0, 3);
    assert_eq!(table.reserve_n_mut(1), vec![Key::new(0, 21)]);
}

#[test]
fn write_copies_a_row_once() {
    let clones = Arc::new(AtomicUsize::new(0));
    let mut store = Armoire::new();
    let key = store.insert(Counted { clones: clones.clone(), value: 1 });
    let other = store.insert(Counted { clones: clones.clone(), value: 5 });
    run(&mut store, |write, read, _defer| {
        write.get_mut(key).unwrap().value += 1;
        assert_eq!(clones.load(Ordering::SeqCst), 1);
        assert_eq!(write.get_mut(key).unwrap().value, 2);
        write.get_mut(key).unwrap().value += 1;
        assert_eq!(write.get_mut(key).unwrap().value, 3);
        assert_eq!(clones.load(Ordering::SeqCst), 1);
        assert_eq!(read.get(key).unwrap().value, 1);
        assert!(write.get_mut(Key::new(3, 3)).is_none());
        assert_eq!(clones.load(Ordering::SeqCst), 1);
    });
    assert_eq!(store.get(key).unwrap().value, 3);
    assert_eq!(store.get(other).unwrap().value, 5);
    assert_eq!(clones.load(Ordering::SeqCst), 1);
}

#[test]
fn write_iter_mut_copies_untouched_rows_only() {
    let clones = Arc::new(AtomicUsize::new(0));
    let mut store = Armoire::new();
    let keys = store.insert_n(
        (0..4u32).map(|value| Counted { clones: clones.clone(), value }).collect::<Vec<_>>(),
    );
    run(&mut store, |write, _read, _defer| {
        write.get_mut(keys[2]).unwrap().value = 20;
        assert_eq!(clones.load(Ordering::SeqCst), 1);
        for (key, row) in write.iter_mut() {
            assert!(keys.contains(&key));
            row.value += 1;
        }
        assert_eq!(clones.load(Ordering::SeqCst), 4);
        for (_, row) in write.iter_mut() {
            row.value += 1;
        }
        assert_eq!(clones.load(Ordering::SeqCst), 4);
    });
    let values: Vec<u32> = keys.iter().map(|key| store.get(*key).unwrap().value).collect();
    assert_eq!(values, vec![2, 3, 22, 5]);
}

#[test]
fn write_par_iter_mut_copies_each_row_once() {
    let clones = Arc::new(AtomicUsize::new(0));
    let mut store = Armoire::new();
    let keys = store.insert_n(
        (0..256u32).map(|value| Counted { clones: clones.clone(), value }).collect::<Vec<_>>(),
    );
    run(&mut store, |write, _read, _defer| {
        write.get_mut(keys[7]).unwrap().value = 1000;
        write.par_iter_mut().into_par_iter().for_each(|(_, row)| row.value += 1);
        assert_eq!(clones.load(Ordering::SeqCst), 256);
        write.par_iter_mut().into_par_iter().for_each(|(_, row)| row.value += 1);
        assert_eq!(clones.load(Ordering::SeqCst), 256);
    });
    for (i, key) in keys.iter().enumerate() {
        let expected = if i == 7 { 1002 } else { i as u32 + 2 };
        assert_eq!(store.get(*key).unwrap().value, expected);
    }
}

#[test]
fn untouched_rows_keep_their_values() {
    let mut store = Armoire::new();
    let keys = store.insert_n(vec![1, 2, 3]);
    run(&mut store, |write, _read, _defer| {
        *write.get_mut(keys[1]).unwrap() = 20;
    });
    assert_eq!(store.get(keys[0]), Some(&1));
    assert_eq!(store.get(keys[1]), Some(&20));
    assert_eq!(store.get(keys[2]), Some(&3));
}

#[test]
fn a_written_row_that_is_removed_in_the_same_scope_is_gone() {
    let mut store = Armoire::new();
    let keys = store.insert_n(vec![1, 2, 3]);
    run(&mut store, |write, _read, defer| {
        *write.get_mut(keys[0]).unwrap() = 10;
        *write.get_mut(keys[2]).unwrap() = 30;
        defer.remove(vec![keys[0]]);
    });
    assert_eq!(store.get(keys[0]), None);
    assert_eq!(store.get(keys[1]), Some(&2));
    assert_eq!(store.get(keys[2]), Some(&30));
    assert_eq!(store.len(), 2);
}

#[test]
fn scope_returns_what_the_logic_returns() {
    let mut store = Armoire::new();
    store.insert(3);
    let sum: i32 = run(&mut store, |_write, read, _defer| read.iter().into_iter().map(|(_, v)| *v).sum());
    assert_eq!(sum, 3);
}

#[test]
fn fork_sides_write_disjoint_rows() {
    let mut store = Armoire::new();
    let keys = store.insert_n(vec![1, 2, 3, 4]);
    let (mut left, mut right) = store.fork(|_key, value| {
        if *value % 2 == 0 {
            (Access::Write, Access::Read)
        } else if *value == 3 {
            (Access::Omit, Access::Write)
        } else {
            (Access::Read, Access::Omit)
        }
    });
    assert_eq!(left.len(), 4);
    assert_eq!(left.grant(0), Access::Read);
    assert_eq!(left.grant(1), Access::Write);
    assert_eq!(left.grant(2), Access::Omit);
    assert_eq!(right.grant(2), Access::Write);
    assert_eq!(right.grant(9), Access::Omit);
    let seen: Vec<(usize, Key, i32)> =
        left.iter().into_iter().map(|(row, key, value)| (row, key, *value)).collect();
    assert_eq!(seen, vec![(0, keys[0], 1), (1, keys[1], 2), (3, keys[3], 4)]);
    let seen: Vec<usize> = right.iter().into_iter().map(|(row, _, _)| row).collect();
    assert_eq!(seen, vec![1, 2, 3]);
    assert!(left.get_mut(0).is_none());
    assert!(left.get_mut(2).is_none());
    assert!(left.get_mut(4).is_none());
    *left.get_mut(1).unwrap() += 20;
    *left.get_mut(1).unwrap() += 20;
    *left.get_mut(3).unwrap() = 44;
    assert!(right.get_mut(1).is_none());
    *right.get_mut(2).unwrap() = 33;
    let (a, b) = (left.into_writes(), right.into_writes());
    assert_eq!(a, vec![None, Some(42), None, Some(44)]);
    assert_eq!(b, vec![None, None, Some(33), None]);
    store.merge(b);
    store.merge(a);
    let values: Vec<i32> = keys.iter().map(|key| *store.get(*key).unwrap()).collect();
    assert_eq!(values, vec![1, 42, 33, 44]);
}

#[test]
fn fork_sides_work_in_parallel() {
    let mut store = Armoire::new();
    let keys = store.insert_n((0..64u64).collect());
    let (mut left, mut right) = store.fork(|key, _value| {
        if key.index() % 2 == 0 {
            (Access::Write, Access::Read)
        } else {
            (Access::Read, Access::Write)
        }
    });
    let (a, b) = rayon::join(
        move || {
            let rows: Vec<usize> = left.iter().into_iter().map(|(row, _, _)| row).collect();
            for row in rows {
                if let Some(value) = left.get_mut(row) {
                    *value += 100;
                }
            }
            left.into_writes()
        },
        move || {
            let rows: Vec<usize> = right.iter().into_iter().map(|(row, _, _)| row).collect();
            for row in rows {
                if let Some(value) = right.get_mut(row) {
                    *value += 1000;
                }
            }
            right.into_writes()
        },
    );
    store.merge(a);
    store.merge(b);
    for (i, key) in keys.iter().enumerate() {
        let expected = i as u64 + if i % 2 == 0 { 100 } else { 1000 };
        assert_eq!(store.get(*key), Some(&expected));
    }
}

#[test]
fn fork_inside_a_scope_flows_back_through_the_write_view() {
    let mut store = Armoire::new();
    let keys = store.insert_n(vec![1, 2, 3]);
    run(&mut store, |write, read, _defer| {
        assert!(read.has(keys[0]));
        assert!(!read.has(Key::new(1, 0)));
        assert!(!read.is_empty());
        *write.get_mut(keys[0]).unwrap() = 10;
        let (mut left, mut right) = read.fork(|key, _value| {
            if key == keys[1] {
                (Access::Write, Access::Read)
            } else {
                (Access::Read, Access::Write)
            }
        });
        *left.get_mut(1).unwrap() += 20;
        *right.get_mut(2).unwrap() += 30;
        write.absorb(left.into_writes());
        write.absorb(right.into_writes());
        assert_eq!(*write.get_mut(keys[1]).unwrap(), 22);
        assert_eq!(read.get(keys[1]), Some(&2));
    });
    assert_eq!(store.get(keys[0]), Some(&10));
    assert_eq!(store.get(keys[1]), Some(&22));
    assert_eq!(store.get(keys[2]), Some(&33));
}

#[test]
fn absorb_lays_copies_over_the_buffer() {
    let mut store = Armoire::new();
    let keys = store.insert_n(vec![1, 2, 3]);
    run(&mut store, |write, _read, _defer| {
        *write.get_mut(keys[0]).unwrap() = 10;
        *write.get_mut(keys[1]).unwrap() = 20;
        write.absorb(vec![None, Some(200), Some(300), Some(400)]);
    });
    assert_eq!(store.get(keys[0]), Some(&10));
    assert_eq!(store.get(keys[1]), Some(&200));
    assert_eq!(store.get(keys[2]), Some(&300));
    assert_eq!(store.len(), 3);
}

#[test]
fn written_rows_come_back_as_a_buffer() {
    let mut store = Armoire::new();
    let keys = store.insert_n(vec![1, 2, 3]);
    let buffer = {
        let (mut write, _read, defer) = store.defer();
        *write.get_mut(keys[2]).unwrap() = 30;
        defer.remove(vec![keys[0]]);
        write.into_writes()
    };
    assert_eq!(buffer, vec![None, None, Some(30)]);
    assert_eq!(store.get(keys[2]), Some(&3));
    assert_eq!(store.get(keys[0]), Some(&1));
    store.merge(buffer);
    assert_eq!(store.get(keys[2]), Some(&30));
    assert_eq!(store.get(keys[0]), Some(&1));
    store.resolve();
    assert_eq!(store.get(keys[2]), Some(&30));
    assert_eq!(store.get(keys[1]), Some(&2));
    assert_eq!(store.get(keys[0]), None);
    store.resolve();
    assert_eq!(store.len(), 2);
}

#[test]
fn a_scope_that_writes_and_defers_nothing_changes_nothing() {
    let mut store = Armoire::<i32>::new();
    let key = store.insert(1);
    let sum = run(&mut store, |write, _read, _defer| write.get(key).copied().unwrap_or(0) + 41);
    assert_eq!(sum, 42);
    assert_eq!(store.len(), 1);
    assert_eq!(store.get(key), Some(&1));
}

#[test]
fn fork_iter_mut_hands_out_the_rows_granted_for_writing() {
    let clones = Arc::new(AtomicUsize::new(0));
    let mut store = Armoire::new();
    let keys = store.insert_n(
        (0..6u32).map(|value| Counted { clones: clones.clone(), value }).collect::<Vec<_>>(),
    );
    let (mut left, mut right) = store.fork(|key, _value| {
        if key.index() % 2 == 0 {
            (Access::Write, Access::Read)
        } else {
            (Access::Omit, Access::Write)
        }
    });
    left.get_mut(0).unwrap().value = 100;
    assert_eq!(clones.load(Ordering::SeqCst), 1);
    let (a, b) = rayon::join(
        move || {
            let items = left.iter_mut();
            assert_eq!(items.len(), 6);
            assert!(items[1].is_none() && items[3].is_none() && items[5].is_none());
            items.into_par_iter().flatten().for_each(|(_, row)| row.value += 1);
            left.into_writes()
        },
        move || {
            for (key, row) in right.iter_mut().into_iter().flatten() {
                assert_eq!(key.index() % 2, 1);
                row.value += 10;
            }
            for (_, row) in right.iter_mut().into_iter().flatten() {
                row.value += 10;
            }
            right.into_writes()
        },
    );
    assert_eq!(clones.load(Ordering::SeqCst), 6);
    store.merge(a);
    store.merge(b);
    let values: Vec<u32> = keys.iter().map(|key| store.get(*key).unwrap().value).collect();
    assert_eq!(values, vec![101, 21, 3, 23, 5, 25]);
}

#[test]
fn write_view_reads_its_own_writes() {
    let clones = Arc::new(AtomicUsize::new(0));
    let mut store = Armoire::new();
    let key = store.insert(Counted { clones: clones.clone(), value: 1 });
    run(&mut store, |write, read, _defer| {
        assert_eq!(write.len(), 1);
        assert_eq!(write.get(key).unwrap().value, 1);
        assert_eq!(clones.load(Ordering::SeqCst), 0);
        write.get_mut(key).unwrap().value = 8;
        assert_eq!(write.get(key).unwrap().value, 8);
        assert_eq!(read.get(key).unwrap().value, 1);
        assert!(write.get(Key::new(1, 0)).is_none());
        assert_eq!(clones.load(Ordering::SeqCst), 1);
    });
    assert_eq!(store.get(key).unwrap().value, 8);
}

#[test]
fn key_table_serves_shared_requests_after_exclusive_ones() {
    let mut table = Keys::new();
    assert_eq!(table.reserve_n(1), Some(vec![Key::new(0, 0)]));
    assert_eq!(table.reserve_n_mut(2), vec![Key::new(0, 1), Key::new(0, 2)]);
    assert_eq!(table.reserve_n(1), Some(vec![Key::new(0, 3)]));
    assert_eq!(table.reserve_n(0), Some(Vec::new()));
    let mut none: Vec<Key> = Vec::new();
    assert!(table.reserve(&mut none));
    assert_eq!(table.reserve_n_mut(1), vec![Key::new(0, 4)]);
    assert_eq!(table.catch_up(0), (-5, 5));
}

#[test]
fn shared_keys_name_nothing_while_the_scope_is_open() {
    let mut store = Armoire::new();
    let keys = store.insert_n(vec![1, 2, 3]);
    store.remove(keys[1]);
    run(&mut store, |_write, read, defer| {
        let recycled = defer.insert(7).unwrap();
        let fresh = defer.insert(8).unwrap();
        assert_eq!(recycled, Key::new(1, 1));
        assert_eq!(fresh, Key::new(0, 3));
        assert_eq!(read.get(recycled), None);
        assert_eq!(read.get(fresh), None);
        assert_eq!(defer.reserve_n(0), Some(Vec::new()));
        let mut none: Vec<Key> = Vec::new();
        assert!(defer.reserve(&mut none));
    });
    assert_eq!(store.get(Key::new(1, 1)), Some(&7));
    assert_eq!(store.get(Key::new(0, 3)), Some(&8));
}

#[test]
fn an_empty_request_is_always_served() {
    let store = Armoire::<u8>::new();
    let mut none: Vec<Key> = Vec::new();
    assert!(store.reserve(&mut none));
    assert_eq!(store.reserve_n(0), Some(Vec::new()));
}
