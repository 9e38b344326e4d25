//! The read side of a scope: the rows as they stood when it opened.

use crate::fork::{disjoint, Access, Fork};
use crate::key::{Key, Keys, Slot};
use crate::table::{index, live};
use vstd::prelude::*;

verus! {

/// A shared view of the rows and the slot table. Nothing can change through
/// it, so it can be copied and handed to every worker of a scope.
pub struct Read<'a, T> {
    keys: &'a Keys,
    pairs: &'a Vec<(Key, T)>,
}

impl<'a, T> Read<'a, T> {
    pub closed spec fn slots(&self) -> Seq<Slot> {
        self.keys.slots@
    }

    /// The rows in row order.
    pub closed spec fn pairs(&self) -> Seq<(Key, T)> {
        self.pairs@
    }

    /// The value that a key names in this view.
    pub open spec fn value(&self, key: Key) -> Option<T> {
        if live(self.slots(), key) && self.slots()[key.index as int].row < self.pairs().len() {
            Some(self.pairs()[self.slots()[key.index as int].row as int].1)
        } else {
            None
        }
    }

    pub fn new(keys: &'a Keys, pairs: &'a Vec<(Key, T)>) -> (read: Self)
        ensures
            read.slots() == keys.slots(),
            read.pairs() == pairs@,
    {
        Read { keys, pairs }
    }

    pub fn len(&self) -> (len: usize)
        ensures
            len == self.pairs().len(),
    {
        self.pairs.len()
    }

    pub fn is_empty(&self) -> (empty: bool)
        ensures
            empty == (self.pairs().len() == 0),
    {
        self.pairs.len() == 0
    }

    /// Whether the key names a value in this view.
    pub fn has(&self, key: Key) -> (has: bool)
        ensures
            has == self.value(key) is Some,
    {
        match index(key, &self.keys.slots) {
            Some(row) => row < self.pairs.len(),
            None => false,
        }
    }

    /// The value that a key names, or `None` for a stale key.
    pub fn get(&self, key: Key) -> (value: Option<&'a T>)
        ensures
            value matches Some(v) ==> self.value(key) == Some(*v),
            value is None ==> self.value(key) is None,
    {
        match index(key, &self.keys.slots) {
            Some(row) => {
                if row < self.pairs.len() {
                    Some(&self.pairs[row].1)
                } else {
                    None
                }
            },
            None => None,
        }
    }

    /// Splits the rows into two sides that can be walked and written
    /// independently; see `fork::fork`. Inside a scope the copies that the
    /// sides made go back through the write view.
    pub fn fork<F: Fn(Key, &T) -> (Access, Access)>(&self, partition: F) -> (sides: (
        Fork<'a, T>,
        Fork<'a, T>,
    ))
        requires
            forall|r: int|
                0 <= r < self.pairs().len() ==> partition.requires(
                    ((#[trigger] self.pairs()[r]).0, &self.pairs()[r].1),
                ),
            forall|key: Key, value: &T, grants: (Access, Access)|
                partition.ensures((key, value), grants) ==> !(grants.0 is Write && grants.1 is Write),
        ensures
            sides.0.wf(),
            sides.1.wf(),
            sides.0.rows() == self.pairs(),
            sides.1.rows() == self.pairs(),
            forall|r: int| 0 <= r < self.pairs().len() ==> (#[trigger] sides.0.buffer()[r]) is None,
            forall|r: int| 0 <= r < self.pairs().len() ==> (#[trigger] sides.1.buffer()[r]) is None,
            forall|r: int|
                0 <= r < self.pairs().len() ==> partition.ensures(
                    ((#[trigger] self.pairs()[r]).0, &self.pairs()[r].1),
                    (sides.0.grants()[r], sides.1.grants()[r]),
                ),
            disjoint(sides.0.grants(), sides.1.grants()),
    {
        crate::fork::fork(self.pairs, partition)
    }

    /// Every row, in row order, as its key and a reference to its value.
    pub fn iter(&self) -> (rows: Vec<(Key, &'a T)>)
        ensures
            rows@.len() == self.pairs().len(),
            forall|r: int|
                0 <= r < rows@.len() ==> (#[trigger] rows@[r]).0 == self.pairs()[r].0 && *rows@[r].1
                    == self.pairs()[r].1,
    {
        let mut rows: Vec<(Key, &'a T)> = Vec::new();
        let mut r: usize = 0;
        while r < self.pairs.len()
            invariant
                r <= self.pairs@.len(),
                rows@.len() == r,
                forall|k: int|
                    0 <= k < r ==> (#[trigger] rows@[k]).0 == self.pairs@[k].0 && *rows@[k].1
                        == self.pairs@[k].1,
            decreases self.pairs@.len() - r,
        {
            rows.push((self.pairs[r].0, &self.pairs[r].1));
            r += 1;
        }
        rows
    }
}

impl<'a, T> Clone for Read<'a, T> {
    fn clone(&self) -> (copy: Self)
        ensures
            copy == *self,
    {
        Read { keys: self.keys, pairs: self.pairs }
    }
}

impl<'a, T> Copy for Read<'a, T> {

}

} // verus!
