//! Removals applied one at a time, on request.

use crate::key::Key;
use crate::model::Table;
use crate::store::Armoire;
use vstd::prelude::*;

verus! {

/// A store together with keys that are still to be removed from it. Each
/// call of `next` removes one; `finish` removes what is left and gives the
/// store back.
#[verifier::reject_recursive_types(T)]
pub struct Removes<T> {
    store: Armoire<T>,
    pending: Vec<Key>,
}

impl<T> Removes<T> {
    /// The store as it stands.
    pub closed spec fn store(&self) -> Table<T> {
        self.store@
    }

    /// The keys still to be removed, next one first.
    pub closed spec fn pending(&self) -> Seq<Key> {
        Seq::new(self.pending@.len(), |i: int| self.pending@[self.pending@.len() - 1 - i])
    }

    pub closed spec fn wf(&self) -> bool {
        self.store.wf()
    }

    /// Takes a store and the keys to remove from it, in this order. The
    /// store reads the shared counters back once, here: while it is held in
    /// here nobody else can reserve from it.
    pub fn new(store: Armoire<T>, keys: Vec<Key>) -> (removes: Self)
        requires
            store.wf(),
        ensures
            removes.wf(),
            exists|cursor: int, last: int| removes.store() == #[trigger] store@.caught_up(cursor, last, 0),
            removes.store().pairs == store@.pairs,
            removes.store().slots == store@.slots,
            removes.pending() == keys@,
    {
        let mut store = store;
        let ghost given = store@;
        let read = store.catch_up(0);
        proof {
            given.lemma_caught_up(read.0 as int, read.1 as int, 0);
            assert(store@ == given.caught_up(read.0 as int, read.1 as int, 0));
        }
        let mut keys = keys;
        let ghost all = keys@;
        let mut pending: Vec<Key> = Vec::new();
        while keys.len() > 0
            invariant
                keys@.len() + pending@.len() == all.len(),
                keys@ == all.take(keys@.len() as int),
                forall|i: int| 0 <= i < pending@.len() ==> pending@[i] == all[all.len() - 1 - i],
            decreases keys@.len(),
        {
            let key = keys.pop().unwrap();
            pending.push(key);
            proof {
                assert(keys@ =~= all.take(keys@.len() as int));
            }
        }
        let removes = Removes { store, pending };
        proof {
            assert(removes.pending() =~= all);
        }
        removes
    }

    /// How many keys are still to be removed.
    pub fn len(&self) -> (len: usize)
        ensures
            len == self.pending().len(),
    {
        self.pending.len()
    }

    /// Removes the next key from the store: `Ok` with the key and the value
    /// it named, or `Err` with the key when it was stale. `None` once no
    /// key is left.
    pub fn next(&mut self) -> (result: Option<Result<(Key, T), Key>>)
        requires
            old(self).wf(),
        ensures
            final(self).wf(),
            old(self).pending().len() == 0 ==> result is None && final(self).store() == old(
                self,
            ).store() && final(self).pending() == old(self).pending(),
            old(self).pending().len() > 0 ==> {
                let key = old(self).pending()[0];
                &&& result == Some(
                    match old(self).store().get(key) {
                        Some(value) => Ok::<(Key, T), Key>((key, value)),
                        None => Err::<(Key, T), Key>(key),
                    },
                )
                &&& final(self).store() == old(self).store().removed(key)
                &&& final(self).pending() == old(self).pending().drop_first()
            },
    {
        match self.pending.pop() {
            Some(key) => {
                proof {
                    assert(self.pending() =~= old(self).pending().drop_first());
                    assert(key == old(self).pending()[0]);
                }
                match self.store.step_remove(key) {
                    Some(value) => Some(Ok((key, value))),
                    None => Some(Err(key)),
                }
            },
            None => None,
        }
    }

    /// Removes every key that is left and gives the store back.
    pub fn finish(self) -> (store: Armoire<T>)
        requires
            self.wf(),
        ensures
            store.wf(),
            store@ == self.store().dropped_all(self.pending()),
    {
        let mut rest = self;
        while rest.len() > 0
            invariant
                rest.wf(),
                rest.store().dropped_all(rest.pending()) == self.store().dropped_all(self.pending()),
            decreases rest.pending().len(),
        {
            let _ = rest.next();
        }
        rest.store.publish();
        rest.store
    }
}

} // verus!
