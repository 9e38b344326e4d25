//! Splitting one set of rows into two views that can be walked and written
//! independently of each other.

use crate::key::Key;
use crate::model::Table;
use vstd::prelude::*;

verus! {

/// What one side of a fork may do with a row.
#[derive(Debug, Clone, Copy, PartialEq, Eq, Structural)]
pub enum Access {
    /// The row is not part of this side.
    Omit,
    /// This side reads the row.
    Read,
    /// This side reads and writes the row.
    Write,
}

/// One side of a fork: the shared rows, this side's grant for each of them,
/// and the copies of the rows it wrote. Writes go to the copies, so the two
/// sides never touch the same memory; the copies are merged into the store
/// afterwards.
pub struct Fork<'a, T> {
    rows: &'a Vec<(Key, T)>,
    grants: Vec<Access>,
    writes: Vec<Option<T>>,
}

/// No row is granted for writing on both sides.
pub open spec fn disjoint(left: Seq<Access>, right: Seq<Access>) -> bool {
    forall|r: int|
        0 <= r < left.len() && r < right.len() ==> !((#[trigger] left[r]) is Write && right[r] is Write)
}

impl<'a, T> Fork<'a, T> {
    /// The rows behind both sides.
    pub closed spec fn rows(&self) -> Seq<(Key, T)> {
        self.rows@
    }

    /// This side's grant for each row.
    pub closed spec fn grants(&self) -> Seq<Access> {
        self.grants@
    }

    /// The copies of the rows that this side wrote.
    pub closed spec fn buffer(&self) -> Seq<Option<T>> {
        self.writes@
    }

    /// There is a grant and a buffer place for every row, and only rows
    /// granted for writing have a copy.
    pub open spec fn wf(&self) -> bool {
        &&& self.grants().len() == self.rows().len()
        &&& self.buffer().len() == self.rows().len()
        &&& forall|r: int|
            0 <= r < self.rows().len() && (#[trigger] self.buffer()[r]) is Some ==> self.grants()[r] is Write
    }

    /// The number of rows behind the fork, granted or not.
    pub fn len(&self) -> (len: usize)
        ensures
            len == self.rows().len(),
    {
        self.rows.len()
    }

    /// This side's grant for a row; `Omit` for a row that does not exist.
    pub fn grant(&self, row: usize) -> (access: Access)
        ensures
            access == (if row < self.grants().len() {
                self.grants()[row as int]
            } else {
                Access::Omit
            }),
    {
        if row < self.grants.len() {
            self.grants[row]
        } else {
            Access::Omit
        }
    }

    /// The rows of this side, in row order: for each row that is granted,
    /// for reading or for writing, its number, its key and its stored
    /// value.
    pub fn iter(&self) -> (items: Vec<(usize, Key, &'a T)>)
        requires
            self.wf(),
        ensures
            forall|i: int|
                0 <= i < items@.len() ==> {
                    let row = (#[trigger] items@[i]).0 as int;
                    &&& 0 <= row < self.rows().len()
                    &&& !(self.grants()[row] is Omit)
                    &&& items@[i].1 == self.rows()[row].0
                    &&& *items@[i].2 == self.rows()[row].1
                },
            forall|i: int, j: int| 0 <= i < j < items@.len() ==> (#[trigger] items@[i]).0 < (#[trigger] items@[j]).0,
            forall|row: int|
                0 <= row < self.rows().len() && !(self.grants()[row] is Omit) ==> exists|i: int|
                    0 <= i < items@.len() && (#[trigger] items@[i]).0 == row,
    {
        let mut items: Vec<(usize, Key, &'a T)> = Vec::new();
        let mut row: usize = 0;
        while row < self.rows.len()
            invariant
                row <= self.rows@.len(),
                self.grants@.len() == self.rows@.len(),
                forall|i: int|
                    0 <= i < items@.len() ==> {
                        let at = (#[trigger] items@[i]).0 as int;
                        &&& 0 <= at < row
                        &&& !(self.grants@[at] is Omit)
                        &&& items@[i].1 == self.rows@[at].0
                        &&& *items@[i].2 == self.rows@[at].1
                    },
                forall|i: int, j: int| 0 <= i < j < items@.len() ==> (#[trigger] items@[i]).0 < (#[trigger] items@[j]).0,
                forall|at: int|
                    0 <= at < row && !(self.grants@[at] is Omit) ==> exists|i: int|
                        0 <= i < items@.len() && (#[trigger] items@[i]).0 == at,
            decreases self.rows@.len() - row,
        {
            match self.grants[row] {
                Access::Omit => {},
                _ => {
                    let ghost before = items@;
                    items.push((row, self.rows[row].0, &self.rows[row].1));
                    proof {
                        assert forall|at: int| 0 <= at < row + 1 && !(self.grants@[at] is Omit) implies exists|i: int|
                            0 <= i < items@.len() && (#[trigger] items@[i]).0 == at by {
                            if at < row {
                                let i = choose|i: int| 0 <= i < before.len() && (#[trigger] before[i]).0 == at;
                                assert(items@[i].0 == at);
                            } else {
                                assert(items@[before.len() as int].0 == at);
                            }
                        }
                    }
                },
            }
            row += 1;
        }
        items
    }

    /// Gives up this side and hands out the copies of the rows it wrote,
    /// ready to be merged into the store.
    pub fn into_writes(self) -> (buffer: Vec<Option<T>>)
        ensures
            buffer@ == self.buffer(),
    {
        self.writes
    }
}

impl<'a, T: Clone> Fork<'a, T> {
    /// A row of this side, for writing; `None` unless the row is granted for
    /// writing. The first request for a row clones the stored value; every
    /// later one returns that same copy.
    pub fn get_mut(&mut self, row: usize) -> (value: Option<&mut T>)
        requires
            old(self).wf(),
        ensures
            final(self).wf(),
            final(self).rows() == old(self).rows(),
            final(self).grants() == old(self).grants(),
            !(row < old(self).rows().len() && old(self).grants()[row as int] is Write) ==> value is None
                && final(self).buffer() == old(self).buffer(),
            row < old(self).rows().len() && old(self).grants()[row as int] is Write ==> {
                &&& value is Some
                &&& old(self).buffer()[row as int] is Some ==> Some(*value.unwrap()) == old(
                    self,
                ).buffer()[row as int]
                &&& old(self).buffer()[row as int] is None ==> cloned(
                    old(self).rows()[row as int].1,
                    *value.unwrap(),
                )
                &&& final(self).buffer() == old(self).buffer().update(
                    row as int,
                    Some(*final(value.unwrap())),
                )
            },
    {
        if row >= self.rows.len() {
            return None;
        }
        match self.grants[row] {
            Access::Write => {},
            _ => {
                return None;
            },
        }
        if self.writes[row].is_none() {
            let copy = self.rows[row].1.clone();
            self.writes.set(row, Some(copy));
        }
        match &mut self.writes[row] {
            Some(value) => Some(value),
            None => None,
        }
    }
}

impl<'a, T: Clone> Fork<'a, T> {
    /// Every row of this side for writing, in row order: one place per row
    /// behind the fork, holding the row's key and its copy where the row is
    /// granted for writing, and nothing where it is not. A row that was not
    /// written yet is copied first, as `get_mut` would; one that was keeps
    /// its copy. The copies are separate pieces of memory, so workers can
    /// write them in parallel.
    pub fn iter_mut(&mut self) -> (items: Vec<Option<(Key, &mut T)>>)
        requires
            old(self).wf(),
        ensures
            final(self).wf(),
            final(self).rows() == old(self).rows(),
            final(self).grants() == old(self).grants(),
            items@.len() == old(self).rows().len(),
            forall|r: int|
                0 <= r < items@.len() ==> ((#[trigger] items@[r]) is Some <==> old(self).grants()[r] is Write),
            forall|r: int|
                0 <= r < items@.len() && (#[trigger] items@[r]) is Some ==> {
                    &&& (items@[r]->Some_0).0 == old(self).rows()[r].0
                    &&& old(self).buffer()[r] is Some ==> Some(*(items@[r]->Some_0).1) == old(
                        self,
                    ).buffer()[r]
                    &&& old(self).buffer()[r] is None ==> cloned(
                        old(self).rows()[r].1,
                        *(items@[r]->Some_0).1,
                    )
                    &&& final(self).buffer()[r] == Some(*final((items@[r]->Some_0).1))
                },
            forall|r: int|
                0 <= r < items@.len() && (#[trigger] items@[r]) is None ==> final(self).buffer()[r] == old(
                    self,
                ).buffer()[r],
    {
        let ghost before = self.writes@;
        let count = self.rows.len();
        let mut r: usize = 0;
        while r < count
            invariant
                r <= count,
                count == self.rows@.len(),
                self.rows@ == old(self).rows@,
                self.grants@ == old(self).grants@,
                self.grants@.len() == count,
                self.writes@.len() == count,
                before.len() == count,
                forall|k: int|
                    0 <= k < count && (#[trigger] before[k]) is Some ==> self.grants@[k] is Write,
                forall|k: int|
                    0 <= k < r ==> if self.grants@[k] is Write {
                        if before[k] is Some {
                            #[trigger] self.writes@[k] == before[k]
                        } else {
                            self.writes@[k] is Some && cloned(self.rows@[k].1, self.writes@[k]->Some_0)
                        }
                    } else {
                        self.writes@[k] == before[k]
                    },
                forall|k: int| r <= k < count ==> #[trigger] self.writes@[k] == before[k],
            decreases count - r,
        {
            match self.grants[r] {
                Access::Write => {
                    if self.writes[r].is_none() {
                        let copy = self.rows[r].1.clone();
                        self.writes.set(r, Some(copy));
                    }
                },
                _ => {},
            }
            r += 1;
        }
        let ghost touched = self.writes@;
        proof {
            assert forall|k: int| 0 <= k < count && (#[trigger] touched[k]) is Some implies self.grants@[k] is Write by {
                if !(self.grants@[k] is Write) {
                    assert(self.writes@[k] == before[k]);
                }
            }
        }
        let rows = self.rows;
        let each = crate::shared::each_mut(&mut self.writes);
        let ghost all = each@;
        assert(all.len() == count);
        let mut items: Vec<Option<(Key, &mut T)>> = Vec::new();
        let mut i: usize = 0;
        for entry in it: each
            invariant
                it.seq() == all,
                i == it.index(),
                all.len() == count,
                rows@ == old(self).rows@,
                rows@.len() == count,
                self.grants@ == old(self).grants@,
                self.grants@.len() == count,
                items@.len() == i,
                touched.len() == count,
                forall|k: int| 0 <= k < count && (#[trigger] touched[k]) is Some ==> self.grants@[k] is Write,
                forall|k: int| 0 <= k < count ==> *(#[trigger] all[k]) == touched[k],
                forall|k: int|
                    0 <= k < count && self.grants@[k] is Write ==> (#[trigger] touched[k]) is Some,
                forall|k: int|
                    0 <= k < i ==> ((#[trigger] items@[k]) is Some <==> self.grants@[k] is Write),
                forall|k: int|
                    0 <= k < i && (#[trigger] items@[k]) is Some ==> (items@[k]->Some_0).0 == rows@[k].0
                        && Some(*(items@[k]->Some_0).1) == touched[k] && *final(all[k]) == Some(
                        *final((items@[k]->Some_0).1),
                    ),
                forall|k: int|
                    0 <= k < i && (#[trigger] items@[k]) is None ==> *final(all[k]) == touched[k],
        {
            assert(i < count);
            match self.grants[i] {
                Access::Write => {
                    match entry {
                        Some(value) => {
                            items.push(Some((rows[i].0, value)));
                        },
                        None => {
                            items.push(None);
                        },
                    }
                },
                _ => {
                    items.push(None);
                },
            }
            i += 1;
        }
        proof {
            assert forall|k: int| 0 <= k < count && (#[trigger] after_borrow(self.writes)@[k]) is Some implies self.grants@[k] is Write by {
                if items@[k] is None {
                    assert(*final(all[k]) == touched[k]);
                }
            }
        }
        items
    }
}

/// Splits rows into two sides. `partition` is asked once per row, with the
/// row's key and value, what each side may do with it. It must never grant
/// one row for writing to both sides: that is the caller's part, and nothing
/// checks it when the program runs.
pub fn fork<'a, T, F: Fn(Key, &T) -> (Access, Access)>(rows: &'a Vec<(Key, T)>, partition: F) -> (sides:
    (Fork<'a, T>, Fork<'a, T>))
    requires
        forall|r: int| 0 <= r < rows@.len() ==> partition.requires(((#[trigger] rows@[r]).0, &rows@[r].1)),
        forall|key: Key, value: &T, grants: (Access, Access)|
            partition.ensures((key, value), grants) ==> !(grants.0 is Write && grants.1 is Write),
    ensures
        sides.0.wf(),
        sides.1.wf(),
        sides.0.rows() == rows@,
        sides.1.rows() == rows@,
        forall|r: int| 0 <= r < rows@.len() ==> (#[trigger] sides.0.buffer()[r]) is None,
        forall|r: int| 0 <= r < rows@.len() ==> (#[trigger] sides.1.buffer()[r]) is None,
        forall|r: int|
            0 <= r < rows@.len() ==> partition.ensures(
                ((#[trigger] rows@[r]).0, &rows@[r].1),
                (sides.0.grants()[r], sides.1.grants()[r]),
            ),
        disjoint(sides.0.grants(), sides.1.grants()),
{
    let mut left: Vec<Access> = Vec::new();
    let mut right: Vec<Access> = Vec::new();
    let mut left_writes: Vec<Option<T>> = Vec::new();
    let mut right_writes: Vec<Option<T>> = Vec::new();
    let mut r: usize = 0;
    while r < rows.len()
        invariant
            r <= rows@.len(),
            left@.len() == r,
            right@.len() == r,
            left_writes@.len() == r,
            right_writes@.len() == r,
            forall|k: int| 0 <= k < rows@.len() ==> partition.requires(((#[trigger] rows@[k]).0, &rows@[k].1)),
            forall|key: Key, value: &T, grants: (Access, Access)|
                partition.ensures((key, value), grants) ==> !(grants.0 is Write && grants.1 is Write),
            forall|k: int| 0 <= k < r ==> (#[trigger] left_writes@[k]) is None,
            forall|k: int| 0 <= k < r ==> (#[trigger] right_writes@[k]) is None,
            forall|k: int|
                0 <= k < r ==> partition.ensures(
                    ((#[trigger] rows@[k]).0, &rows@[k].1),
                    (left@[k], right@[k]),
                ),
        decreases rows@.len() - r,
    {
        let (a, b) = partition(rows[r].0, &rows[r].1);
        left.push(a);
        right.push(b);
        left_writes.push(None);
        right_writes.push(None);
        r += 1;
    }
    proof {
        assert forall|k: int| 0 <= k < left@.len() && k < right@.len() implies !((#[trigger] left@[k]) is Write
            && right@[k] is Write) by {
            assert(partition.ensures((rows@[k].0, &rows@[k].1), (left@[k], right@[k])));
        }
    }
    (
        Fork { rows, grants: left, writes: left_writes },
        Fork { rows, grants: right, writes: right_writes },
    )
}

/// Merging the copies of two sides that never wrote the same row gives the
/// same store in either order.
pub proof fn law_merge_commutes<T>(store: Table<T>, left: Seq<Option<T>>, right: Seq<Option<T>>)
    requires
        forall|r: int| 0 <= r < left.len() && r < right.len() ==> !((#[trigger] left[r]) is Some && right[r] is Some),
    ensures
        store.merged(left).merged(right) == store.merged(right).merged(left),
{
    assert(store.merged(left).merged(right).pairs =~= store.merged(right).merged(left).pairs);
}

} // verus!
