//! The deferring side of a scope: keys are handed out at once, the
//! structural change itself waits in a buffer until the scope closes.

use crate::key::{Key, Keys};
use crate::shared::{queue_extend, set_extend};
use crate::table::{answers, granted, outcomes, pair_up};
use parking_lot::Mutex;
use std::collections::HashSet;
use vstd::prelude::*;

verus! {

/// A handle for requesting insertions and removals while a scope is open.
/// It can be copied to every worker: reservation goes through two shared
/// counters, and the requests go into buffers behind locks.
#[verifier::reject_recursive_types(T)]
pub struct Defer<'a, T> {
    keys: &'a Keys,
    inserts: &'a Mutex<Vec<(Key, T)>>,
    removes: &'a Mutex<HashSet<Key>>,
}

impl<'a, T> Defer<'a, T> {
    /// The free list as it stood when the scope opened.
    pub closed spec fn free(&self) -> Seq<Key> {
        self.keys.free@
    }

    /// How many entries of that free list were claimable then.
    pub closed spec fn cursor(&self) -> int {
        self.keys.cursor()
    }

    /// The high-water mark as it stood when the scope opened.
    pub closed spec fn last(&self) -> int {
        self.keys.last()
    }

    /// The bound that the scope's cursor puts on shared reservation: no
    /// entry of the free list beyond it is claimed.
    pub open spec fn limit(&self) -> int {
        if self.cursor() < 0 {
            0
        } else if self.cursor() > self.free().len() {
            self.free().len() as int
        } else {
            self.cursor()
        }
    }

    /// What every key that this handle gives out looks like: a key of the
    /// free list, or a fresh one at generation 0.
    pub open spec fn hands_out(&self, key: Key) -> bool {
        self.free().contains(key) || key.generation == 0
    }

    /// What every key that this handle gives out is: an entry of the free
    /// list that was claimable when the scope opened, or a fresh key at
    /// generation 0 whose index is not below the high-water mark of then.
    pub open spec fn grants(&self, key: Key) -> bool {
        granted(self.free(), self.cursor(), self.last(), key)
    }

    pub fn new(
        keys: &'a Keys,
        inserts: &'a Mutex<Vec<(Key, T)>>,
        removes: &'a Mutex<HashSet<Key>>,
    ) -> (defer: Self)
        ensures
            defer.free() == keys.free(),
            defer.cursor() == keys.cursor(),
            defer.last() == keys.last(),
    {
        Defer { keys, inserts, removes }
    }

    /// Hands out one key for every place of `keys`, sharing the counters
    /// with every other holder of the scope's handle. Recycled keys are
    /// entries of the free list that were claimable when the scope opened;
    /// fresh keys lie at or above the high-water mark of then. Returns
    /// `false`, with no fresh key written, when the index space is used up.
    /// A request for no key is always done.
    pub fn reserve(&self, keys: &mut Vec<Key>) -> (done: bool)
        requires
            old(keys)@.len() <= i64::MAX,
        ensures
            final(keys)@.len() == old(keys)@.len(),
            outcomes(old(keys)@, final(keys)@, self.free(), self.limit(), self.last(), done),
            old(keys)@.len() == 0 ==> done,
            done ==> answers(final(keys)@, self.free()),
            done ==> forall|i: int| 0 <= i < final(keys)@.len() ==> self.hands_out(#[trigger] final(keys)@[i]),
            done ==> forall|i: int| 0 <= i < final(keys)@.len() ==> self.grants(#[trigger] final(keys)@[i]),
    {
        let done = self.keys.reserve(keys);
        proof {
            if done {
                assert forall|i: int| 0 <= i < keys@.len() implies self.hands_out(#[trigger] keys@[i]) by {
                    assert(granted(self.free(), self.cursor(), self.last(), keys@[i]));
                }
            }
        }
        done
    }

    /// Reserves `n` keys, as `reserve` does; `None` when the index space is
    /// used up. A request for no key always gives `Some`.
    pub fn reserve_n(&self, n: usize) -> (keys: Option<Vec<Key>>)
        requires
            n <= i64::MAX,
        ensures
            n == 0 ==> keys is Some,
            keys matches Some(k) ==> {
                &&& k@.len() == n
                &&& outcomes(
                    Seq::new(n as nat, |i: int| Key::null()),
                    k@,
                    self.free(),
                    self.limit(),
                    self.last(),
                    true,
                )
                &&& answers(k@, self.free())
                &&& forall|i: int| 0 <= i < n ==> self.hands_out(#[trigger] k@[i])
                &&& forall|i: int| 0 <= i < n ==> self.grants(#[trigger] k@[i])
            },
    {
        let mut keys = crate::key::blank(n);
        proof {
            assert(keys@ =~= Seq::new(n as nat, |i: int| Key::null()));
        }
        if self.reserve(&mut keys) {
            Some(keys)
        } else {
            None
        }
    }

    /// Reserves a key at once and queues the value for insertion under it
    /// when the scope closes. The key is what a request for one key is
    /// answered with: a claimable entry of the free list, or a fresh key at
    /// or above the high-water mark; until the scope closes it names
    /// nothing. Gives the value back when the index space is used up.
    pub fn insert(&self, value: T) -> (result: Result<Key, T>)
        ensures
            result matches Ok(key) ==> {
                &&& self.grants(key)
                &&& self.hands_out(key)
                &&& answers(seq![key], self.free())
                &&& outcomes(
                    seq![Key::null()],
                    seq![key],
                    self.free(),
                    self.limit(),
                    self.last(),
                    true,
                )
            },
            result matches Err(back) ==> back == value,
    {
        match self.reserve_n(1) {
            Some(keys) => {
                let key = keys[0];
                proof {
                    assert(keys@ =~= seq![key]);
                    assert(Seq::new(1nat, |i: int| Key::null()) =~= seq![Key::null()]);
                }
                let mut one: Vec<T> = Vec::new();
                one.push(value);
                let pairs = pair_up(&keys, one);
                proof {
                    assert(pairs@ =~= seq![(key, value)]);
                }
                queue_extend(self.inserts, pairs);
                Ok(key)
            },
            None => Err(value),
        }
    }

    /// Reserves one key for each value in one request, as `reserve_n` does,
    /// and queues the pairs, each value under the key of its place, for
    /// insertion in the values' order. Gives the values back when the index
    /// space is used up. A list of no values is always taken.
    pub fn insert_n(&self, values: Vec<T>) -> (result: Result<Vec<Key>, Vec<T>>)
        requires
            values@.len() <= i64::MAX,
        ensures
            values@.len() == 0 ==> result is Ok,
            result matches Ok(keys) ==> {
                &&& keys@.len() == values@.len()
                &&& outcomes(
                    Seq::new(values@.len(), |i: int| Key::null()),
                    keys@,
                    self.free(),
                    self.limit(),
                    self.last(),
                    true,
                )
                &&& answers(keys@, self.free())
                &&& forall|i: int| 0 <= i < keys@.len() ==> self.hands_out(#[trigger] keys@[i])
                &&& forall|i: int| 0 <= i < keys@.len() ==> self.grants(#[trigger] keys@[i])
            },
            result matches Err(back) ==> back == values,
    {
        match self.reserve_n(values.len()) {
            Some(keys) => {
                let pairs = pair_up(&keys, values);
                queue_extend(self.inserts, pairs);
                Ok(keys)
            },
            None => Err(values),
        }
    }

    /// Queues pairs for insertion at keys that were reserved before. When
    /// the scope closes each is tried in turn; one that is refused then is
    /// dropped.
    pub fn try_insert(&self, pairs: Vec<(Key, T)>) {
        queue_extend(self.inserts, pairs)
    }

    /// Queues keys for removal when the scope closes.
    pub fn remove(&self, keys: Vec<Key>) {
        set_extend(self.removes, keys)
    }
}

impl<'a, T> Clone for Defer<'a, T> {
    fn clone(&self) -> (copy: Self)
        ensures
            copy == *self,
    {
        Defer { keys: self.keys, inserts: self.inserts, removes: self.removes }
    }
}

impl<'a, T> Copy for Defer<'a, T> {

}

} // verus!
