//! The write side of a scope: each row is copied into a buffer the first
//! time it is asked for, and every later write to it goes to that copy.

use crate::key::{Key, Keys, Slot};
use crate::shared::{each_mut, par_touch};
use crate::table::{index, row_of};
use vstd::prelude::*;

verus! {

/// A buffer entry for every row there is, `None` for rows beyond the
/// buffer's end.
pub open spec fn padded<T>(buffer: Seq<Option<T>>, len: int) -> Seq<Option<T>> {
    if buffer.len() < len {
        buffer + Seq::new((len - buffer.len()) as nat, |r: int| None::<T>)
    } else {
        buffer
    }
}

/// Copy on first touch, for one row: an entry that holds no copy yet gets a
/// clone of the stored value; one that holds a copy keeps it.
pub fn touch<T: Clone>(read: &T, entry: &mut Option<T>)
    ensures
        *old(entry) is Some ==> *final(entry) == *old(entry),
        *old(entry) is None ==> *final(entry) is Some && cloned(*read, (*final(entry))->Some_0),
{
    if entry.is_none() {
        *entry = Some(read.clone());
    }
}

/// A buffer with the copies of another laid over it: row `r` takes the other
/// buffer's copy where it has one, and keeps its own where it has none or
/// the other buffer is shorter.
pub open spec fn overlaid<T>(buffer: Seq<Option<T>>, top: Seq<Option<T>>) -> Seq<Option<T>> {
    Seq::new(
        buffer.len(),
        |r: int|
            if r < top.len() && top[r] is Some {
                top[r]
            } else {
                buffer[r]
            },
    )
}

/// Copy-on-first-touch access to the rows. A row is either untouched, with
/// no entry in the buffer and the stored value in force, or touched, with
/// its copy in the buffer in force. The view owns its buffer and hands it
/// out when it is given up.
pub struct Write<'a, T> {
    keys: &'a Keys,
    reads: &'a Vec<(Key, T)>,
    writes: Vec<Option<T>>,
}

impl<'a, T> Write<'a, T> {
    pub closed spec fn slots(&self) -> Seq<Slot> {
        self.keys.slots@
    }

    /// The stored rows, which no write through this view changes.
    pub closed spec fn reads(&self) -> Seq<(Key, T)> {
        self.reads@
    }

    /// The buffer: at each row the copy that was made of it, if any.
    pub closed spec fn buffer(&self) -> Seq<Option<T>> {
        self.writes@
    }

    /// The row that a key names here, if it is live and the row exists.
    pub open spec fn row(&self, key: Key) -> Option<int> {
        match row_of(self.slots(), key) {
            Some(r) => if r < self.reads().len() {
                Some(r)
            } else {
                None
            },
            None => None,
        }
    }

    /// Whether a row was copied into the buffer already.
    pub open spec fn touched(&self, r: int) -> bool {
        0 <= r < self.buffer().len() && self.buffer()[r] is Some
    }

    /// Grows the buffer to one entry per row.
    fn grow(&mut self)
        ensures
            final(self).slots() == old(self).slots(),
            final(self).reads() == old(self).reads(),
            final(self).buffer() == padded(old(self).buffer(), old(self).reads().len() as int),
    {
        while self.writes.len() < self.reads.len()
            invariant
                self.slots() == old(self).slots(),
                self.reads@ == old(self).reads@,
                old(self).writes@.len() <= self.writes@.len(),
                self.writes@.len() <= self.reads@.len() || self.writes@ == old(self).writes@,
                forall|r: int| 0 <= r < old(self).writes@.len() ==> self.writes@[r] == old(self).writes@[r],
                forall|r: int| old(self).writes@.len() <= r < self.writes@.len() ==> self.writes@[r] is None,
            decreases self.reads@.len() - self.writes@.len(),
        {
            self.writes.push(None);
        }
        proof {
            assert(self.writes@ =~= padded(old(self).writes@, old(self).reads@.len() as int));
        }
    }

    /// The copies of all rows, each beside its row's key, once every row
    /// has its copy.
    fn copies(&mut self) -> (rows: Vec<(Key, &mut T)>)
        requires
            old(self).buffer().len() >= old(self).reads().len(),
            forall|r: int| 0 <= r < old(self).reads().len() ==> (#[trigger] old(self).buffer()[r]) is Some,
        ensures
            final(self).slots() == old(self).slots(),
            final(self).reads() == old(self).reads(),
            rows@.len() == old(self).reads().len(),
            final(self).buffer().len() == old(self).buffer().len(),
            forall|r: int|
                0 <= r < rows@.len() ==> (#[trigger] rows@[r]).0 == old(self).reads()[r].0 && Some(
                    *rows@[r].1,
                ) == old(self).buffer()[r],
            forall|r: int|
                0 <= r < rows@.len() ==> #[trigger] final(self).buffer()[r] == Some(*final(rows@[r].1)),
            forall|r: int|
                rows@.len() <= r < old(self).buffer().len() ==> #[trigger] final(self).buffer()[r] == old(
                    self,
                ).buffer()[r],
    {
        let ghost reads = self.reads@;
        let count = self.reads.len();
        let keys_of_rows = self.reads;
        let total = self.writes.len();
        let each = each_mut(&mut self.writes);
        let ghost all = each@;
        assert(all.len() == total);
        let mut rows: Vec<(Key, &mut T)> = Vec::new();
        let mut i: usize = 0;
        for entry in it: each
            invariant
                it.seq() == all,
                i == it.index(),
                count == reads.len(),
                keys_of_rows@ == reads,
                all.len() >= count,
                all.len() <= usize::MAX,
                rows@.len() == (if i < count { i } else { count }),
                forall|r: int| 0 <= r < count ==> (*(#[trigger] all[r])) is Some,
                forall|r: int|
                    0 <= r < rows@.len() ==> (#[trigger] rows@[r]).0 == reads[r].0 && Some(*rows@[r].1)
                        == *all[r],
                forall|r: int|
                    0 <= r < rows@.len() ==> *final(#[trigger] all[r]) == Some(*final(rows@[r].1)),
                forall|r: int| count <= r < i ==> *final(#[trigger] all[r]) == *all[r],
        {
            assert(i < all.len());
            if i < count {
                match entry {
                    Some(value) => {
                        rows.push((keys_of_rows[i].0, value));
                    },
                    None => {},
                }
            }
            i += 1;
        }
        rows
    }

    /// The value in force for a key, as this view sees it.
    pub open spec fn value(&self, key: Key) -> Option<T> {
        match self.row(key) {
            Some(r) => if self.touched(r) {
                self.buffer()[r]
            } else {
                Some(self.reads()[r].1)
            },
            None => None,
        }
    }

    /// The number of rows.
    pub fn len(&self) -> (len: usize)
        ensures
            len == self.reads().len(),
    {
        self.reads.len()
    }

    /// The value in force for a key: the copy if the row was touched, the
    /// stored value if not; `None` for a stale key. It copies nothing.
    pub fn get(&self, key: Key) -> (value: Option<&T>)
        ensures
            value matches Some(v) ==> self.value(key) == Some(*v),
            value is None ==> self.value(key) is None,
    {
        match index(key, &self.keys.slots) {
            Some(row) => {
                if row >= self.reads.len() {
                    None
                } else if row < self.writes.len() && self.writes[row].is_some() {
                    self.writes[row].as_ref()
                } else {
                    Some(&self.reads[row].1)
                }
            },
            None => None,
        }
    }

    /// Takes over the copies that one side of a fork made: every row that
    /// the side wrote counts as touched here, with the side's copy in force.
    /// Copies for rows that do not exist are dropped.
    pub fn absorb(&mut self, copies: Vec<Option<T>>)
        ensures
            final(self).slots() == old(self).slots(),
            final(self).reads() == old(self).reads(),
            final(self).buffer() == overlaid(
                padded(old(self).buffer(), old(self).reads().len() as int),
                copies@,
            ),
    {
        self.grow();
        let ghost base = self.writes@;
        let ghost all = copies@;
        let mut copies = copies;
        while copies.len() > 0
            invariant
                self.slots() == old(self).slots(),
                self.reads@ == old(self).reads@,
                copies@.len() <= all.len(),
                copies@ == all.take(copies@.len() as int),
                self.writes@.len() == base.len(),
                forall|r: int|
                    0 <= r < base.len() ==> #[trigger] self.writes@[r] == (if r >= copies@.len() {
                        overlaid(base, all)[r]
                    } else {
                        base[r]
                    }),
            decreases copies@.len(),
        {
            let entry = copies.pop();
            let row = copies.len();
            proof {
                assert(copies@ =~= all.take(row as int));
            }
            match entry {
                Some(Some(value)) => {
                    if row < self.writes.len() {
                        self.writes.set(row, Some(value));
                    }
                },
                _ => {},
            }
        }
        proof {
            assert(self.writes@ =~= overlaid(base, all));
        }
    }

    /// A write view of the rows with no row touched yet.
    pub fn new(keys: &'a Keys, reads: &'a Vec<(Key, T)>) -> (write: Self)
        ensures
            write.slots() == keys.slots(),
            write.reads() == reads@,
            write.buffer() == Seq::<Option<T>>::empty(),
    {
        let write = Write { keys, reads, writes: Vec::new() };
        proof {
            assert(write.writes@ =~= Seq::<Option<T>>::empty());
        }
        write
    }

    /// Gives up the view and hands out the buffer, ready to be merged into
    /// the store: at each row the copy that was made of it, if any.
    pub fn into_writes(self) -> (buffer: Vec<Option<T>>)
        ensures
            buffer@ == self.buffer(),
    {
        self.writes
    }
}

impl<'a, T: Clone> Write<'a, T> {
    /// The value that a key names, for writing; `None` for a stale key. The
    /// first request for a row grows the buffer to the number of rows and
    /// clones the stored value into it; every later request for the row
    /// returns that same copy, with whatever was written to it, and clones
    /// nothing.
    pub fn get_mut(&mut self, key: Key) -> (value: Option<&mut T>)
        ensures
            final(self).slots() == old(self).slots(),
            final(self).reads() == old(self).reads(),
            old(self).row(key) is None ==> value is None && final(self).buffer() == old(
                self,
            ).buffer(),
            old(self).row(key) matches Some(r) ==> {
                &&& value is Some
                &&& old(self).touched(r) ==> Some(*value.unwrap()) == old(self).buffer()[r]
                &&& !old(self).touched(r) ==> cloned(old(self).reads()[r].1, *value.unwrap())
                &&& final(self).buffer() == padded(
                    old(self).buffer(),
                    old(self).reads().len() as int,
                ).update(r, Some(*final(value.unwrap())))
            },
    {
        let row = match index(key, &self.keys.slots) {
            Some(row) => row,
            None => {
                return None;
            },
        };
        if row >= self.reads.len() {
            return None;
        }
        self.grow();
        if self.writes[row].is_none() {
            let copy = self.reads[row].1.clone();
            self.writes.set(row, Some(copy));
        }
        match &mut self.writes[row] {
            Some(value) => Some(value),
            None => None,
        }
    }

    /// Every row for writing, in row order: each row that was not touched
    /// yet is copied first, as `get_mut` would, and then every row's copy is
    /// handed out beside the row's key.
    pub fn iter_mut(&mut self) -> (rows: Vec<(Key, &mut T)>)
        ensures
            final(self).slots() == old(self).slots(),
            final(self).reads() == old(self).reads(),
            rows@.len() == old(self).reads().len(),
            final(self).buffer().len() == padded(
                old(self).buffer(),
                old(self).reads().len() as int,
            ).len(),
            forall|r: int|
                0 <= r < rows@.len() ==> {
                    &&& (#[trigger] rows@[r]).0 == old(self).reads()[r].0
                    &&& old(self).touched(r) ==> Some(*rows@[r].1) == old(self).buffer()[r]
                    &&& !old(self).touched(r) ==> cloned(old(self).reads()[r].1, *rows@[r].1)
                },
            forall|r: int|
                0 <= r < rows@.len() ==> #[trigger] final(self).buffer()[r] == Some(*final(rows@[r].1)),
    {
        self.grow();
        let ghost grown = self.writes@;
        let mut r: usize = 0;
        while r < self.reads.len()
            invariant
                r <= self.reads@.len(),
                self.slots() == old(self).slots(),
                self.reads@ == old(self).reads@,
                self.writes@.len() == grown.len(),
                grown.len() >= self.reads@.len(),
                forall|k: int|
                    0 <= k < r ==> if grown[k] is Some {
                        #[trigger] self.writes@[k] == grown[k]
                    } else {
                        self.writes@[k] is Some && cloned(self.reads@[k].1, self.writes@[k]->Some_0)
                    },
                forall|k: int| r <= k < grown.len() ==> #[trigger] self.writes@[k] == grown[k],
            decreases self.reads@.len() - r,
        {
            if self.writes[r].is_none() {
                let copy = self.reads[r].1.clone();
                self.writes.set(r, Some(copy));
            }
            r += 1;
        }
        self.copies()
    }
}

impl<'a, T: Clone + Send + Sync> Write<'a, T> {
    /// Every row for writing, as `iter_mut` gives them, with the rows that
    /// were not touched yet copied many at a time. The rows it hands out
    /// are separate pieces of memory, so workers can write them in
    /// parallel.
    pub fn par_iter_mut(&mut self) -> (rows: Vec<(Key, &mut T)>)
        ensures
            final(self).slots() == old(self).slots(),
            final(self).reads() == old(self).reads(),
            rows@.len() == old(self).reads().len(),
            final(self).buffer().len() == padded(
                old(self).buffer(),
                old(self).reads().len() as int,
            ).len(),
            forall|r: int|
                0 <= r < rows@.len() ==> {
                    &&& (#[trigger] rows@[r]).0 == old(self).reads()[r].0
                    &&& old(self).touched(r) ==> Some(*rows@[r].1) == old(self).buffer()[r]
                    &&& !old(self).touched(r) ==> cloned(old(self).reads()[r].1, *rows@[r].1)
                },
            forall|r: int|
                0 <= r < rows@.len() ==> #[trigger] final(self).buffer()[r] == Some(*final(rows@[r].1)),
    {
        self.grow();
        let ghost grown = self.writes@;
        par_touch(self.reads, &mut self.writes);
        proof {
            assert forall|r: int| 0 <= r < self.reads@.len() implies (#[trigger] self.writes@[r]) is Some by {
                assert(0 <= r < grown.len());
            }
        }
        self.copies()
    }
}

} // verus!
