//! Insertions applied one at a time, on request.

use crate::key::Key;
use crate::model::Table;
use crate::store::Armoire;
use vstd::prelude::*;

verus! {

/// A store together with pairs that are still to be offered to it. Each
/// call of `next` offers one; `finish` offers what is left and gives the
/// store back.
#[verifier::reject_recursive_types(T)]
pub struct Inserts<T> {
    store: Armoire<T>,
    pending: Vec<(Key, T)>,
}

impl<T> Inserts<T> {
    /// The store as it stands.
    pub closed spec fn store(&self) -> Table<T> {
        self.store@
    }

    /// The pairs still to be offered, next one first.
    pub closed spec fn pending(&self) -> Seq<(Key, T)> {
        Seq::new(self.pending@.len(), |i: int| self.pending@[self.pending@.len() - 1 - i])
    }

    pub closed spec fn wf(&self) -> bool {
        self.store.wf()
    }

    /// Takes a store and the pairs to offer to it, in this order. The store
    /// reads the shared counters back once, here: while it is held in here
    /// nobody else can reserve from it.
    pub fn new(store: Armoire<T>, pairs: Vec<(Key, T)>) -> (inserts: Self)
        requires
            store.wf(),
        ensures
            inserts.wf(),
            exists|cursor: int, last: int| inserts.store() == #[trigger] store@.caught_up(cursor, last, 0),
            inserts.store().pairs == store@.pairs,
            inserts.store().slots == store@.slots,
            inserts.pending() == pairs@,
    {
        let mut store = store;
        let ghost given = store@;
        let read = store.catch_up(0);
        proof {
            given.lemma_caught_up(read.0 as int, read.1 as int, 0);
            assert(store@ == given.caught_up(read.0 as int, read.1 as int, 0));
        }
        let mut pairs = pairs;
        let ghost all = pairs@;
        let mut pending: Vec<(Key, T)> = Vec::new();
        while pairs.len() > 0
            invariant
                pairs@.len() + pending@.len() == all.len(),
                pairs@ == all.take(pairs@.len() as int),
                forall|i: int| 0 <= i < pending@.len() ==> pending@[i] == all[all.len() - 1 - i],
            decreases pairs@.len(),
        {
            let pair = pairs.pop().unwrap();
            pending.push(pair);
            proof {
                assert(pairs@ =~= all.take(pairs@.len() as int));
            }
        }
        let inserts = Inserts { store, pending };
        proof {
            assert(inserts.pending() =~= all);
        }
        inserts
    }

    /// How many pairs are still to be offered.
    pub fn len(&self) -> (len: usize)
        ensures
            len == self.pending().len(),
    {
        self.pending.len()
    }

    /// Offers the next pair to the store. A pair whose key still waits in
    /// the free list, or whose slot is occupied or at another generation,
    /// is refused and its value comes back. `None` once no pair is left.
    pub fn next(&mut self) -> (result: Option<Result<(), T>>)
        requires
            old(self).wf(),
        ensures
            final(self).wf(),
            old(self).pending().len() == 0 ==> result is None && final(self).store() == old(
                self,
            ).store() && final(self).pending() == old(self).pending(),
            old(self).pending().len() > 0 ==> {
                let pair = old(self).pending()[0];
                &&& result == Some(old(self).store().offer_result(pair.0, pair.1))
                &&& final(self).store() == old(self).store().offered(pair.0, pair.1)
                &&& final(self).pending() == old(self).pending().drop_first()
            },
    {
        match self.pending.pop() {
            Some(pair) => {
                proof {
                    assert(self.pending() =~= old(self).pending().drop_first());
                    assert(pair == old(self).pending()[0]);
                }
                let (key, value) = pair;
                Some(self.store.step_offer(key, value))
            },
            None => None,
        }
    }

    /// Offers every pair that is left and gives the store back.
    pub fn finish(self) -> (store: Armoire<T>)
        requires
            self.wf(),
        ensures
            store.wf(),
            store@ == self.store().offered_all(self.pending()),
    {
        let mut rest = self;
        while rest.len() > 0
            invariant
                rest.wf(),
                rest.store().offered_all(rest.pending()) == self.store().offered_all(self.pending()),
            decreases rest.pending().len(),
        {
            let _ = rest.next();
        }
        rest.store.publish();
        rest.store
    }
}

} // verus!
