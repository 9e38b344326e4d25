use armoire::{Armoire, Key};
use checkito::{Check, FullGenerate};

const COUNT: usize = 1024;

#[test]
fn get_inserted_value_by_key() {
    let mut checker = char::generator().checker();
    checker.generate.count = COUNT;
    let fail = checker.check(|value: char| {
        let mut armoire = Armoire::new();
        let key = armoire.insert(value);
        armoire.get(key) == Some(&value)
    });
    assert!(fail.is_none());
}

#[test]
fn get_mut_inserted_value_by_key() {
    let mut checker = isize::generator().checker();
    checker.generate.count = COUNT;
    let fail = checker.check(|value: isize| {
        let mut value = value;
        let mut armoire = Armoire::new();
        let key = armoire.insert(value);
        armoire.get_mut(key) == Some(&mut value)
    });
    assert!(fail.is_none());
}

#[test]
fn iter_has_inserted_key_value() {
    let mut checker = u32::generator().checker();
    checker.generate.count = COUNT;
    let fail = checker.check(|value: u32| {
        let mut armoire = Armoire::new();
        let key = armoire.insert(value);
        let pairs = armoire.iter().into_iter().collect::<Vec<_>>();
        pairs.len() == 1 && pairs.get(0) == Some(&(key, &value))
    });
    assert!(fail.is_none());
}

#[test]
fn iter_mut_has_inserted_key_value() {
    let mut checker = bool::generator().checker();
    checker.generate.count = COUNT;
    let fail = checker.check(|value: bool| {
        let mut value = value;
        let mut armoire = Armoire::new();
        let key = armoire.insert(value);
        let pairs = armoire.iter_mut().into_iter().collect::<Vec<_>>();
        pairs.len() == 1 && pairs.get(0) == Some(&(key, &mut value))
    });
    assert!(fail.is_none());
}

#[test]
fn end_to_end_reuse_of_a_removed_index() {
    let mut store = Armoire::new();
    let k0 = store.insert(10);
    let k1 = store.insert(20);
    let k2 = store.insert(30);
    assert_eq!(store.len(), 3);
    assert_eq!(store.remove(k1), Some(20));
    assert_eq!(store.get(k1), None);
    let again = store.insert(99);
    assert_eq!(again.index(), k1.index());
    assert_eq!(again.generation(), k1.generation() + 1);
    assert_eq!(store.get(again), Some(&99));
    assert_eq!(store.get(k0), Some(&10));
    assert_eq!(store.get(k2), Some(&30));
    assert_eq!(store.len(), 3);
    assert_eq!(k0, Key::new(0, 0));
}
