//! The store: the table of records held in memory, with the operations of
//! the storage interface. Ids are given out in increasing order and never
//! twice; the records are kept in the order in which they are listed.

use crate::clock::Instant;
use crate::error::LedgerError;
use crate::record::{views, Amount, AmountView};
use crate::table::{
    ascending, distinct_ids, has_id, lemma_placed, lemma_rank_at, lemma_row_of_id,
    lemma_rows_after_placing, lemma_without_id, placed, row_of_id, within, Table,
};
use vstd::prelude::*;

verus! {

/// A table of records in memory.
pub struct Store {
    rows: Vec<Amount>,
    next_id: i32,
}

impl View for Store {
    type V = Table;

    closed spec fn view(&self) -> Table {
        Table { rows: views(self.rows@), next_id: self.next_id as int }
    }
}

impl Store {
    /// The store's invariant, which is the invariant of its table.
    pub open spec fn wf(&self) -> bool {
        self@.wf()
    }

    /// A store without records. The first record will get the id 1.
    pub fn new() -> (s: Store)
        ensures
            s.wf(),
            s@ == Table::empty(),
    {
        let s = Store { rows: Vec::new(), next_id: 1 };
        assert(s@.rows =~= Seq::<AmountView>::empty());
        s
    }

    /// The number of records.
    pub fn len(&self) -> (n: usize)
        ensures
            n == self@.rows.len(),
    {
        self.rows.len()
    }

    /// The id that the next insert gives out.
    pub fn next_id(&self) -> (id: i32)
        ensures
            id == self@.next_id,
    {
        self.next_id
    }

    /// Where the row of the id `id` stands, if there is one.
    fn position(&self, id: i32) -> (r: Option<usize>)
        ensures
            match r {
                Some(p) => p < self@.rows.len() && self@.rows[p as int].id == id,
                None => !has_id(self@.rows, id),
            },
    {
        let mut i: usize = 0;
        while i < self.rows.len()
            invariant
                i <= self.rows.len(),
                forall|j: int| 0 <= j < i ==> (#[trigger] self@.rows[j]).id != id,
            decreases self.rows.len() - i,
        {
            if self.rows[i].id == id {
                return Some(i);
            }
            i += 1;
        }
        None
    }

    /// Puts a row at its place in the listing order.
    fn place(&mut self, row: Amount)
        requires
            ascending(old(self)@.rows),
            distinct_ids(old(self)@.rows),
            !has_id(old(self)@.rows, row.id),
        ensures
            final(self)@.rows == placed(old(self)@.rows, row@),
            final(self)@.next_id == old(self)@.next_id,
    {
        let ghost rows = self@.rows;
        let mut p: usize = 0;
        while p < self.rows.len() && self.rows[p].is_listed_before(&row)
            invariant
                p <= self.rows.len(),
                self@.rows == rows,
                forall|j: int| 0 <= j < p ==> (#[trigger] rows[j]).listed_before(row@),
            decreases self.rows.len() - p,
        {
            p += 1;
        }
        proof {
            assert forall|j: int| p <= j < rows.len() implies !(#[trigger] rows[j]).listed_before(
                row@,
            ) by {
                if j > p {
                    assert(rows[p as int].listed_before(rows[j]));
                }
            }
            lemma_rank_at(rows, row@, p as int);
        }
        self.rows.insert(p, row);
        assert(self@.rows =~= placed(rows, row@));
    }

    /// Adds a record and gives it the next id. Fails with `Io`, and changes
    /// nothing, when no id is left to give.
    pub fn insert(
        &mut self,
        amount: u32,
        in_or_out: bool,
        append_msg: String,
        created_at: Instant,
        updated_at: Instant,
    ) -> (r: Result<i32, LedgerError>)
        requires
            old(self).wf(),
        ensures
            final(self).wf(),
            final(self)@ == old(self)@.inserted(
                amount,
                in_or_out,
                append_msg@,
                created_at,
                updated_at,
            ),
            match r {
                Ok(id) => old(self)@.can_insert() && id == old(self)@.next_id,
                Err(e) => e == LedgerError::Io && !old(self)@.can_insert(),
            },
    {
        if self.next_id == i32::MAX {
            return Err(LedgerError::Io);
        }
        let id = self.next_id;
        let row = Amount { id, amount, in_or_out, append_msg, created_at, updated_at };
        proof {
            assert(!has_id(self@.rows, id)) by {
                if has_id(self@.rows, id) {
                    let i = choose|i: int|
                        0 <= i < self@.rows.len() && (#[trigger] self@.rows[i]).id == id;
                    assert(self@.rows[i].id < self@.next_id);
                }
            }
            lemma_placed(self@.rows, row@);
        }
        let ghost before = self@;
        self.place(row);
        self.next_id = id + 1;
        proof {
            let after = self@.rows;
            assert forall|i: int| 0 <= i < after.len() implies 1 <= (#[trigger] after[i]).id
                < self@.next_id by {
                assert(has_id(after, after[i].id));
                if after[i].id != id {
                    let k = choose|k: int|
                        0 <= k < before.rows.len() && (#[trigger] before.rows[k]).id
                            == after[i].id;
                    assert(1 <= before.rows[k].id < before.next_id);
                }
            }
        }
        Ok(id)
    }

    /// The record of the id `id`, or `NotFound`.
    pub fn get(&self, id: i32) -> (r: Result<Amount, LedgerError>)
        requires
            self.wf(),
        ensures
            match r {
                Ok(a) => has_id(self@.rows, id) && a@ == row_of_id(self@.rows, id),
                Err(e) => e == LedgerError::NotFound && !has_id(self@.rows, id),
            },
    {
        match self.position(id) {
            Some(p) => {
                proof {
                    lemma_row_of_id(self@.rows, p as int);
                }
                Ok(self.rows[p].clone())
            },
            None => Err(LedgerError::NotFound),
        }
    }

    /// All records, in listing order.
    pub fn list_all(&self) -> (r: Vec<Amount>)
        ensures
            views(r@) == self@.rows,
    {
        let mut out: Vec<Amount> = Vec::new();
        let mut i: usize = 0;
        while i < self.rows.len()
            invariant
                i <= self.rows.len(),
                views(out@) == self@.rows.take(i as int),
            decreases self.rows.len() - i,
        {
            let ghost shown = views(out@);
            let row = self.rows[i].clone();
            out.push(row);
            assert(views(out@) =~= shown.push(self.rows@[i as int]@));
            i += 1;
            assert(self@.rows.take(i as int) =~= shown.push(self.rows@[i - 1]@));
        }
        assert(self@.rows.take(i as int) =~= self@.rows);
        out
    }

    /// The records last changed at or after `start` and before `end`, in
    /// listing order.
    pub fn list_range(&self, start: Instant, end: Instant) -> (r: Vec<Amount>)
        ensures
            views(r@) == within(self@.rows, start, end),
    {
        let mut out: Vec<Amount> = Vec::new();
        let mut i: usize = 0;
        assert(self@.rows.take(0) =~= Seq::<AmountView>::empty());
        while i < self.rows.len()
            invariant
                i <= self.rows.len(),
                views(out@) == within(self@.rows.take(i as int), start, end),
            decreases self.rows.len() - i,
        {
            let ghost seen = self@.rows.take(i as int);
            let ghost now = self@.rows.take(i + 1);
            assert(now.drop_last() =~= seen);
            assert(now.last() == self.rows@[i as int]@);
            let row = &self.rows[i];
            if start.secs <= row.updated_at.secs && row.updated_at.secs < end.secs {
                let ghost shown = views(out@);
                out.push(row.clone());
                assert(views(out@) =~= shown.push(row@));
            }
            i += 1;
        }
        assert(self@.rows.take(i as int) =~= self@.rows);
        out
    }

    /// Gives the record of the id `id` a new amount, direction, note and
    /// instant of change, and reports the one row affected. Fails with
    /// `NotFound`, and changes nothing, when no record has the id.
    pub fn update(
        &mut self,
        id: i32,
        amount: u32,
        in_or_out: bool,
        append_msg: String,
        updated_at: Instant,
    ) -> (r: Result<u64, LedgerError>)
        requires
            old(self).wf(),
        ensures
            final(self).wf(),
            final(self)@ == old(self)@.updated(id, amount, in_or_out, append_msg@, updated_at),
            match r {
                Ok(affected) => affected == 1 && has_id(old(self)@.rows, id),
                Err(e) => e == LedgerError::NotFound && !has_id(old(self)@.rows, id),
            },
    {
        let ghost before = self@;
        match self.position(id) {
            Some(p) => {
                proof {
                    lemma_row_of_id(before.rows, p as int);
                    lemma_without_id(before.rows, id);
                }
                let current = self.rows.remove(p);
                assert(self@.rows =~= before.rows.remove(p as int));
                let row = Amount {
                    id,
                    amount,
                    in_or_out,
                    append_msg,
                    created_at: current.created_at,
                    updated_at,
                };
                proof {
                    lemma_placed(self@.rows, row@);
                }
                let ghost rest = self@.rows;
                self.place(row);
                proof {
                    let after = self@.rows;
                    assert forall|i: int| 0 <= i < after.len() implies 1 <= (
                    #[trigger] after[i]).id < self@.next_id by {
                        assert(has_id(after, after[i].id));
                        assert(has_id(before.rows, after[i].id));
                        let k = choose|k: int|
                            0 <= k < before.rows.len() && (#[trigger] before.rows[k]).id
                                == after[i].id;
                        assert(1 <= before.rows[k].id < before.next_id);
                    }
                }
                Ok(1)
            },
            None => Err(LedgerError::NotFound),
        }
    }

    /// Takes out the record of the id `id` and reports the one row
    /// affected. Fails with `NotFound`, and changes nothing, when no record
    /// has the id. The id is not given out again.
    pub fn delete(&mut self, id: i32) -> (r: Result<u64, LedgerError>)
        requires
            old(self).wf(),
        ensures
            final(self).wf(),
            final(self)@ == old(self)@.deleted(id),
            match r {
                Ok(affected) => affected == 1 && has_id(old(self)@.rows, id),
                Err(e) => e == LedgerError::NotFound && !has_id(old(self)@.rows, id),
            },
    {
        let ghost before = self@;
        proof {
            lemma_without_id(before.rows, id);
        }
        match self.position(id) {
            Some(p) => {
                let _ = self.rows.remove(p);
                assert(self@.rows =~= before.rows.remove(p as int));
                proof {
                    let after = self@.rows;
                    assert forall|i: int| 0 <= i < after.len() implies 1 <= (
                    #[trigger] after[i]).id < self@.next_id by {
                        assert(has_id(before.rows, after[i].id));
                        let k = choose|k: int|
                            0 <= k < before.rows.len() && (#[trigger] before.rows[k]).id
                                == after[i].id;
                        assert(1 <= before.rows[k].id < before.next_id);
                    }
                }
                Ok(1)
            },
            None => Err(LedgerError::NotFound),
        }
    }
}

/// The rows put in listing order, one after the other.
pub open spec fn arranged(rows: Seq<AmountView>) -> Seq<AmountView>
    decreases rows.len(),
{
    if rows.len() == 0 {
        rows
    } else {
        placed(arranged(rows.drop_last()), rows.last())
    }
}

/// Whether rows can be those of a table that gives out `next_id` next: the
/// ids are positive, below `next_id`, and no two the same.
pub open spec fn loadable(rows: Seq<AmountView>, next_id: int) -> bool {
    &&& 1 <= next_id
    &&& forall|i: int| 0 <= i < rows.len() ==> 1 <= (#[trigger] rows[i]).id < next_id
    &&& distinct_ids(rows)
}

impl Store {
    /// Makes a store of rows that were stored before, in whatever order
    /// they come, and of the id to give out next: the store holds each of
    /// the rows, and no other. Fails with `Io` where the ids are not those
    /// of a table.
    pub fn restore(rows: Vec<Amount>, next_id: i32) -> (r: Result<Store, LedgerError>)
        ensures
            match r {
                Ok(store) => {
                    &&& loadable(views(rows@), next_id as int)
                    &&& store.wf()
                    &&& store@.next_id == next_id
                    &&& store@.rows == arranged(views(rows@))
                    &&& store@.rows.len() == rows.len()
                    &&& forall|k: int|
                        0 <= k < rows.len() ==> has_id(
                            store@.rows,
                            (#[trigger] views(rows@)[k]).id,
                        ) && row_of_id(store@.rows, views(rows@)[k].id) == views(rows@)[k]
                },
                Err(e) => e == LedgerError::Io && !loadable(views(rows@), next_id as int),
            },
    {
        if next_id < 1 {
            return Err(LedgerError::Io);
        }
        let ghost given = views(rows@);
        let mut store = Store { rows: Vec::new(), next_id };
        assert(store@.rows =~= Seq::<AmountView>::empty());
        assert(given.take(0) =~= Seq::<AmountView>::empty());
        let mut i: usize = 0;
        while i < rows.len()
            invariant
                i <= rows.len(),
                given == views(rows@),
                1 <= next_id,
                store@.next_id == next_id,
                store@.rows == arranged(given.take(i as int)),
                ascending(store@.rows),
                distinct_ids(store@.rows),
                loadable(given.take(i as int), next_id as int),
                forall|id: i32|
                    has_id(store@.rows, id) <==> has_id(given.take(i as int), id),
                store@.rows.len() == i,
                forall|k: int|
                    0 <= k < i ==> has_id(store@.rows, (#[trigger] given[k]).id) && row_of_id(
                        store@.rows,
                        given[k].id,
                    ) == given[k],
            decreases rows.len() - i,
        {
            let ghost seen = given.take(i as int);
            let ghost now = given.take(i + 1);
            let ghost kept = store@.rows;
            assert(now.drop_last() =~= seen);
            assert(now.last() == rows@[i as int]@);
            let row = rows[i].clone();
            if row.id < 1 || row.id >= next_id {
                assert(given[i as int].id == row.id);
                return Err(LedgerError::Io);
            }
            if let Some(p) = store.position(row.id) {
                proof {
                    assert(kept[p as int].id == row.id);
                    assert(has_id(kept, row.id));
                    assert(has_id(seen, row.id));
                    let k = choose|k: int|
                        0 <= k < seen.len() && (#[trigger] seen[k]).id == row.id;
                    assert(given[k].id == given[i as int].id);
                }
                return Err(LedgerError::Io);
            }
            proof {
                lemma_placed(kept, row@);
                lemma_rows_after_placing(kept, row@);
            }
            store.place(row);
            proof {
                assert forall|k: int| 0 <= k < i + 1 implies has_id(
                    store@.rows,
                    (#[trigger] given[k]).id,
                ) && row_of_id(store@.rows, given[k].id) == given[k] by {
                    if k < i {
                        assert(has_id(kept, given[k].id));
                        assert(given[k].id != row.id);
                    } else {
                        assert(given[k] == row@);
                    }
                }
                assert forall|a: int, b: int| 0 <= a < b < now.len() implies (
                #[trigger] now[a]).id != (#[trigger] now[b]).id by {
                    if b < i {
                        assert(seen[a].id != seen[b].id);
                    } else {
                        assert(seen[a].id == now[a].id);
                        assert(has_id(seen, now[a].id));
                    }
                }
                assert(store@.rows == placed(kept, row@));
                assert(now[i as int].id == row.id);
                assert forall|id: i32| has_id(store@.rows, id) implies has_id(now, id) by {
                    if id != row.id {
                        assert(has_id(kept, id));
                        assert(has_id(seen, id));
                        let k = choose|k: int|
                            0 <= k < seen.len() && (#[trigger] seen[k]).id == id;
                        assert(now[k].id == id);
                    }
                }
                assert forall|id: i32| has_id(now, id) implies has_id(store@.rows, id) by {
                    let k = choose|k: int| 0 <= k < now.len() && (#[trigger] now[k]).id == id;
                    if k < i {
                        assert(seen[k].id == id);
                        assert(has_id(kept, id));
                    }
                }
            }
            i += 1;
        }
        assert(given.take(i as int) =~= given);
        proof {
            let stored = store@.rows;
            assert forall|k: int| 0 <= k < stored.len() implies 1 <= (#[trigger] stored[k]).id
                < next_id by {
                assert(has_id(stored, stored[k].id));
                let g = choose|g: int|
                    0 <= g < given.len() && (#[trigger] given[g]).id == stored[k].id;
                assert(1 <= given[g].id < next_id);
            }
        }
        Ok(store)
    }
}

} // verus!
