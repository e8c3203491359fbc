//! The table of records as a mathematical value: the rows in the order in
//! which they are listed, and the id that the next insert gives out. The
//! store keeps such a table; what its operations do is defined here, and
//! what holds of every sequence of them is proved here.

use crate::clock::Instant;
use crate::record::AmountView;
use vstd::prelude::*;

verus! {

/// Whether the rows stand in listing order: by the instant of the last
/// change, and by id among rows changed in the same second.
pub open spec fn ascending(rows: Seq<AmountView>) -> bool {
    forall|i: int, j: int|
        0 <= i < j < rows.len() ==> (#[trigger] rows[i]).listed_before(#[trigger] rows[j])
}

/// Whether no two rows have the same id.
pub open spec fn distinct_ids(rows: Seq<AmountView>) -> bool {
    forall|i: int, j: int|
        0 <= i < j < rows.len() ==> (#[trigger] rows[i]).id != (#[trigger] rows[j]).id
}

/// Whether a row has the id `id`.
pub open spec fn has_id(rows: Seq<AmountView>, id: i32) -> bool {
    exists|i: int| 0 <= i < rows.len() && (#[trigger] rows[i]).id == id
}

/// The row with the id `id`, where there is one.
pub open spec fn row_of_id(rows: Seq<AmountView>, id: i32) -> AmountView
    recommends
        has_id(rows, id),
{
    rows[choose|i: int| 0 <= i < rows.len() && (#[trigger] rows[i]).id == id]
}

/// How many rows are listed before `a`.
pub open spec fn rank(rows: Seq<AmountView>, a: AmountView) -> int
    decreases rows.len(),
{
    if rows.len() == 0 {
        0
    } else if rows.last().listed_before(a) {
        rank(rows.drop_last(), a) + 1
    } else {
        rank(rows.drop_last(), a)
    }
}

/// The rows with `a` put at its place in the listing order.
pub open spec fn placed(rows: Seq<AmountView>, a: AmountView) -> Seq<AmountView> {
    rows.insert(rank(rows, a), a)
}

/// The rows without those of the id `id`, the others in their order.
pub open spec fn without_id(rows: Seq<AmountView>, id: i32) -> Seq<AmountView>
    decreases rows.len(),
{
    if rows.len() == 0 {
        rows
    } else if rows.last().id == id {
        without_id(rows.drop_last(), id)
    } else {
        without_id(rows.drop_last(), id).push(rows.last())
    }
}

/// Whether a row was last changed at or after `start` and before `end`.
pub open spec fn changed_within(a: AmountView, start: Instant, end: Instant) -> bool {
    start.secs <= a.updated_at.secs < end.secs
}

/// The rows last changed at or after `start` and before `end`, in their
/// order.
pub open spec fn within(rows: Seq<AmountView>, start: Instant, end: Instant) -> Seq<AmountView>
    decreases rows.len(),
{
    if rows.len() == 0 {
        rows
    } else if changed_within(rows.last(), start, end) {
        within(rows.drop_last(), start, end).push(rows.last())
    } else {
        within(rows.drop_last(), start, end)
    }
}

/// The largest number that `next_id` takes: the ids given out stay below it.
pub open spec fn id_limit() -> int {
    i32::MAX as int
}

/// A table of records.
pub struct Table {
    /// The rows, in listing order.
    pub rows: Seq<AmountView>,
    /// The id that the next insert gives out.
    pub next_id: int,
}

impl Table {
    /// The table's invariant: ids are positive, below `next_id`, and no two
    /// the same; the rows stand in listing order.
    pub open spec fn wf(self) -> bool {
        &&& 1 <= self.next_id <= id_limit()
        &&& forall|i: int| 0 <= i < self.rows.len() ==> 1 <= (#[trigger] self.rows[i]).id < self.next_id
        &&& distinct_ids(self.rows)
        &&& ascending(self.rows)
    }

    /// The table without rows, which gives out the id 1 first.
    pub open spec fn empty() -> Table {
        Table { rows: Seq::<AmountView>::empty(), next_id: 1 }
    }

    /// Whether an id is left to give out.
    pub open spec fn can_insert(self) -> bool {
        self.next_id < id_limit()
    }

    /// The table after the insert of a record, which gets the id `next_id`.
    /// Nothing changes where no id is left.
    pub open spec fn inserted(
        self,
        amount: u32,
        in_or_out: bool,
        append_msg: Seq<char>,
        created_at: Instant,
        updated_at: Instant,
    ) -> Table {
        if self.can_insert() {
            Table {
                rows: placed(
                    self.rows,
                    AmountView {
                        id: self.next_id as i32,
                        amount,
                        in_or_out,
                        append_msg,
                        created_at,
                        updated_at,
                    },
                ),
                next_id: self.next_id + 1,
            }
        } else {
            self
        }
    }

    /// The table after the row of the id `id` got a new amount, direction,
    /// note and instant of change; it keeps its id and its instant of
    /// creation, and moves to its new place in the listing order. Nothing
    /// changes where no row has the id.
    pub open spec fn updated(
        self,
        id: i32,
        amount: u32,
        in_or_out: bool,
        append_msg: Seq<char>,
        updated_at: Instant,
    ) -> Table {
        if has_id(self.rows, id) {
            Table {
                rows: placed(
                    without_id(self.rows, id),
                    AmountView {
                        id,
                        amount,
                        in_or_out,
                        append_msg,
                        created_at: row_of_id(self.rows, id).created_at,
                        updated_at,
                    },
                ),
                next_id: self.next_id,
            }
        } else {
            self
        }
    }

    /// The table after the row of the id `id` was taken out. `next_id` stays:
    /// the id is not given out again.
    pub open spec fn deleted(self, id: i32) -> Table {
        Table { rows: without_id(self.rows, id), next_id: self.next_id }
    }
}

/// Where the rows before the position `p` are listed before `a` and the
/// others are not, `p` is the rank of `a`.
pub proof fn lemma_rank_at(rows: Seq<AmountView>, a: AmountView, p: int)
    requires
        0 <= p <= rows.len(),
        forall|i: int| 0 <= i < p ==> (#[trigger] rows[i]).listed_before(a),
        forall|i: int| p <= i < rows.len() ==> !(#[trigger] rows[i]).listed_before(a),
    ensures
        rank(rows, a) == p,
    decreases rows.len(),
{
    if rows.len() > 0 {
        let earlier = rows.drop_last();
        if p == rows.len() {
            assert(rows[p - 1].listed_before(a));
            lemma_rank_at(earlier, a, p - 1);
        } else {
            assert(!rows[rows.len() - 1].listed_before(a));
            lemma_rank_at(earlier, a, p);
        }
    }
}

/// In rows that stand in listing order, the rows listed before `a` are
/// those before its rank.
pub proof fn lemma_rank_splits(rows: Seq<AmountView>, a: AmountView)
    requires
        ascending(rows),
    ensures
        0 <= rank(rows, a) <= rows.len(),
        forall|i: int| 0 <= i < rank(rows, a) ==> (#[trigger] rows[i]).listed_before(a),
        forall|i: int| rank(rows, a) <= i < rows.len() ==> !(#[trigger] rows[i]).listed_before(a),
    decreases rows.len(),
{
    if rows.len() > 0 {
        let earlier = rows.drop_last();
        let last = rows.len() - 1;
        assert forall|i: int, j: int| 0 <= i < j < earlier.len() implies (
        #[trigger] earlier[i]).listed_before(#[trigger] earlier[j]) by {
            assert(rows[i].listed_before(rows[j]));
        }
        lemma_rank_splits(earlier, a);
        let p = rank(earlier, a);
        if rows.last().listed_before(a) {
            if p < last {
                assert(!earlier[p].listed_before(a));
                assert(rows[p].listed_before(rows[last]));
            }
            assert forall|i: int| 0 <= i < p + 1 implies (#[trigger] rows[i]).listed_before(
                a,
            ) by {
                if i < p {
                    assert(earlier[i].listed_before(a));
                }
            }
        } else {
            assert forall|i: int| 0 <= i < p implies (#[trigger] rows[i]).listed_before(a) by {
                assert(earlier[i].listed_before(a));
            }
            assert forall|i: int| p <= i < rows.len() implies !(#[trigger] rows[i]).listed_before(
                a,
            ) by {
                if i < last {
                    assert(!earlier[i].listed_before(a));
                }
            }
        }
    }
}

/// Putting a row with a new id at its place keeps the listing order and the
/// ids distinct, and adds just that id.
pub proof fn lemma_placed(rows: Seq<AmountView>, a: AmountView)
    requires
        ascending(rows),
        distinct_ids(rows),
        !has_id(rows, a.id),
    ensures
        ascending(placed(rows, a)),
        distinct_ids(placed(rows, a)),
        placed(rows, a).len() == rows.len() + 1,
        forall|id: i32| has_id(placed(rows, a), id) <==> (has_id(rows, id) || id == a.id),
        forall|i: int|
            0 <= i < placed(rows, a).len() ==> (#[trigger] placed(rows, a)[i]) == a || has_id(
                rows,
                placed(rows, a)[i].id,
            ) && row_of_id(rows, placed(rows, a)[i].id) == placed(rows, a)[i],
{
    lemma_rank_splits(rows, a);
    let p = rank(rows, a);
    let after = placed(rows, a);
    assert forall|i: int| 0 <= i < after.len() implies (#[trigger] after[i]) == (if i < p {
        rows[i]
    } else if i == p {
        a
    } else {
        rows[i - 1]
    }) by {}
    assert forall|i: int| p <= i < rows.len() implies a.listed_before(#[trigger] rows[i]) by {
        assert(!rows[i].listed_before(a));
        assert(rows[i].id != a.id);
    }
    assert forall|i: int, j: int| 0 <= i < j < after.len() implies (
    #[trigger] after[i]).listed_before(#[trigger] after[j]) by {
        if j < p {
            assert(rows[i].listed_before(rows[j]));
        } else if j == p {
            assert(rows[i].listed_before(a));
        } else if i < p {
            assert(rows[i].listed_before(rows[j - 1]));
        } else if i == p {
            assert(a.listed_before(rows[j - 1]));
        } else {
            assert(rows[i - 1].listed_before(rows[j - 1]));
        }
    }
    assert forall|i: int, j: int| 0 <= i < j < after.len() implies (#[trigger] after[i]).id != (
    #[trigger] after[j]).id by {
        assert(after[i].listed_before(after[j]));
        if i != p && j != p {
            let i0 = if i < p {
                i
            } else {
                i - 1
            };
            let j0 = if j < p {
                j
            } else {
                j - 1
            };
            assert(rows[i0].id != rows[j0].id);
        } else if i == p {
            assert(rows[j - 1].id != a.id);
        } else {
            assert(rows[i].id != a.id);
        }
    }
    assert forall|id: i32| has_id(after, id) <==> (has_id(rows, id) || id == a.id) by {
        if has_id(after, id) {
            let i = choose|i: int| 0 <= i < after.len() && (#[trigger] after[i]).id == id;
            if i < p {
                assert(rows[i].id == id);
            } else if i > p {
                assert(rows[i - 1].id == id);
            }
        }
        if has_id(rows, id) {
            let i = choose|i: int| 0 <= i < rows.len() && (#[trigger] rows[i]).id == id;
            if i < p {
                assert(after[i].id == id);
            } else {
                assert(after[i + 1].id == id);
            }
        }
        if id == a.id {
            assert(after[p].id == id);
        }
    }
    assert forall|i: int| 0 <= i < after.len() implies (#[trigger] after[i]) == a || has_id(
        rows,
        after[i].id,
    ) && row_of_id(rows, after[i].id) == after[i] by {
        if i != p {
            let i0 = if i < p {
                i
            } else {
                i - 1
            };
            lemma_row_of_id(rows, i0);
        }
    }
}

/// Among rows with distinct ids, the row of an id is the row that has it.
pub proof fn lemma_row_of_id(rows: Seq<AmountView>, i: int)
    requires
        distinct_ids(rows),
        0 <= i < rows.len(),
    ensures
        has_id(rows, rows[i].id),
        row_of_id(rows, rows[i].id) == rows[i],
{
    let id = rows[i].id;
    let k = choose|k: int| 0 <= k < rows.len() && (#[trigger] rows[k]).id == id;
    if k < i {
        assert(rows[k].id != rows[i].id);
    } else if i < k {
        assert(rows[i].id != rows[k].id);
    }
}

/// Taking out the rows of an id keeps the other rows, in their order.
pub proof fn lemma_without_id(rows: Seq<AmountView>, id: i32)
    requires
        ascending(rows),
        distinct_ids(rows),
    ensures
        ascending(without_id(rows, id)),
        distinct_ids(without_id(rows, id)),
        !has_id(without_id(rows, id), id),
        forall|other: i32|
            other != id ==> (has_id(without_id(rows, id), other) <==> has_id(rows, other)),
        forall|i: int|
            0 <= i < without_id(rows, id).len() ==> has_id(
                rows,
                (#[trigger] without_id(rows, id)[i]).id,
            ) && row_of_id(rows, without_id(rows, id)[i].id) == without_id(rows, id)[i],
        !has_id(rows, id) ==> without_id(rows, id) == rows,
        forall|p: int|
            0 <= p < rows.len() && (#[trigger] rows[p]).id == id ==> without_id(rows, id)
                == rows.remove(p),
{
    if has_id(rows, id) {
        let p = choose|p: int| 0 <= p < rows.len() && (#[trigger] rows[p]).id == id;
        lemma_without_at(rows, id, p);
        let rest = rows.remove(p);
        assert forall|q: int| 0 <= q < rows.len() && (#[trigger] rows[q]).id == id implies q
            == p by {
            if q < p {
                assert(rows[q].id != rows[p].id);
            } else if p < q {
                assert(rows[p].id != rows[q].id);
            }
        }
        assert forall|i: int| 0 <= i < rest.len() implies (#[trigger] rest[i]) == (if i < p {
            rows[i]
        } else {
            rows[i + 1]
        }) by {}
        assert forall|i: int, j: int| 0 <= i < j < rest.len() implies (
        #[trigger] rest[i]).listed_before(#[trigger] rest[j]) && rest[i].id != rest[j].id by {
            let i0 = if i < p {
                i
            } else {
                i + 1
            };
            let j0 = if j < p {
                j
            } else {
                j + 1
            };
            assert(rows[i0].listed_before(rows[j0]));
            assert(rows[i0].id != rows[j0].id);
        }
        assert(!has_id(rest, id)) by {
            if has_id(rest, id) {
                let i = choose|i: int| 0 <= i < rest.len() && (#[trigger] rest[i]).id == id;
                let i0 = if i < p {
                    i
                } else {
                    i + 1
                };
                assert(rows[i0].id == id);
            }
        }
        assert forall|other: i32| other != id implies (has_id(rest, other) <==> has_id(
            rows,
            other,
        )) by {
            if has_id(rest, other) {
                let i = choose|i: int| 0 <= i < rest.len() && (#[trigger] rest[i]).id == other;
                let i0 = if i < p {
                    i
                } else {
                    i + 1
                };
                assert(rows[i0].id == other);
            }
            if has_id(rows, other) {
                let i = choose|i: int| 0 <= i < rows.len() && (#[trigger] rows[i]).id == other;
                if i < p {
                    assert(rest[i].id == other);
                } else {
                    assert(rest[i - 1].id == other);
                }
            }
        }
        assert forall|i: int| 0 <= i < rest.len() implies has_id(rows, (#[trigger] rest[i]).id)
            && row_of_id(rows, rest[i].id) == rest[i] by {
            let i0 = if i < p {
                i
            } else {
                i + 1
            };
            lemma_row_of_id(rows, i0);
        }
    } else {
        lemma_without_absent(rows, id);
        assert forall|i: int| 0 <= i < rows.len() implies has_id(rows, (#[trigger] rows[i]).id)
            && row_of_id(rows, rows[i].id) == rows[i] by {
            lemma_row_of_id(rows, i);
        }
    }
}

/// Taking out an id that no row has changes nothing.
proof fn lemma_without_absent(rows: Seq<AmountView>, id: i32)
    requires
        !has_id(rows, id),
    ensures
        without_id(rows, id) == rows,
    decreases rows.len(),
{
    if rows.len() > 0 {
        let earlier = rows.drop_last();
        assert(rows[rows.len() - 1].id != id);
        assert(!has_id(earlier, id)) by {
            if has_id(earlier, id) {
                let i = choose|i: int| 0 <= i < earlier.len() && (#[trigger] earlier[i]).id == id;
                assert(rows[i].id == id);
            }
        }
        lemma_without_absent(earlier, id);
        assert(earlier.push(rows.last()) =~= rows);
    }
}

/// Where only the row at `p` has the id, taking the id out removes that row.
proof fn lemma_without_at(rows: Seq<AmountView>, id: i32, p: int)
    requires
        distinct_ids(rows),
        0 <= p < rows.len(),
        rows[p].id == id,
    ensures
        without_id(rows, id) == rows.remove(p),
    decreases rows.len(),
{
    let earlier = rows.drop_last();
    let last = rows.len() - 1;
    if p == last {
        assert(!has_id(earlier, id)) by {
            if has_id(earlier, id) {
                let i = choose|i: int| 0 <= i < earlier.len() && (#[trigger] earlier[i]).id == id;
                assert(rows[i].id != rows[p].id);
            }
        }
        lemma_without_absent(earlier, id);
        assert(rows.remove(p) =~= earlier);
    } else {
        assert(rows[p].id != rows[last].id);
        assert forall|i: int, j: int| 0 <= i < j < earlier.len() implies (
        #[trigger] earlier[i]).id != (#[trigger] earlier[j]).id by {
            assert(rows[i].id != rows[j].id);
        }
        lemma_without_at(earlier, id, p);
        assert(earlier.remove(p).push(rows.last()) =~= rows.remove(p));
    }
}

/// One change to a table.
pub enum Change {
    /// The insert of a record.
    Insert {
        amount: u32,
        in_or_out: bool,
        append_msg: Seq<char>,
        created_at: Instant,
        updated_at: Instant,
    },
    /// The update of the record of an id.
    Update { id: i32, amount: u32, in_or_out: bool, append_msg: Seq<char>, updated_at: Instant },
    /// The deletion of the record of an id.
    Delete { id: i32 },
}

impl Table {
    /// The table after one change.
    pub open spec fn after(self, change: Change) -> Table {
        match change {
            Change::Insert { amount, in_or_out, append_msg, created_at, updated_at } => {
                self.inserted(amount, in_or_out, append_msg, created_at, updated_at)
            },
            Change::Update { id, amount, in_or_out, append_msg, updated_at } => {
                self.updated(id, amount, in_or_out, append_msg, updated_at)
            },
            Change::Delete { id } => self.deleted(id),
        }
    }

    /// The table after a run of changes, the first of them first.
    pub open spec fn after_all(self, changes: Seq<Change>) -> Table
        decreases changes.len(),
    {
        if changes.len() == 0 {
            self
        } else {
            self.after_all(changes.drop_last()).after(changes.last())
        }
    }

    /// The id that a change gives out: an insert gives out `next_id`, where
    /// an id is left; nothing else gives out an id.
    pub open spec fn issues(self, change: Change) -> Option<int> {
        if change is Insert && self.can_insert() {
            Some(self.next_id)
        } else {
            None
        }
    }
}

/// A change keeps the table's invariant and never lowers `next_id`; an
/// insert that gives out an id raises `next_id` past it and stores a row
/// under it. Every amount stored is a whole number of cents, not negative.
pub proof fn lemma_change_keeps_wf(table: Table, change: Change)
    requires
        table.wf(),
    ensures
        table.after(change).wf(),
        table.next_id <= table.after(change).next_id,
        table.issues(change) is Some ==> table.after(change).next_id == table.issues(change)->0
            + 1 && has_id(table.after(change).rows, table.issues(change)->0 as i32),
        forall|i: int|
            0 <= i < table.after(change).rows.len() ==> 0 <= (
            #[trigger] table.after(change).rows[i]).amount,
{
    let after = table.after(change);
    match change {
        Change::Insert { amount, in_or_out, append_msg, created_at, updated_at } => {
            if table.can_insert() {
                let row = AmountView {
                    id: table.next_id as i32,
                    amount,
                    in_or_out,
                    append_msg,
                    created_at,
                    updated_at,
                };
                lemma_fresh_id(table);
                lemma_placed(table.rows, row);
                lemma_ids_stay_below(table.rows, after.rows, table.next_id, row.id);
            }
        },
        Change::Update { id, amount, in_or_out, append_msg, updated_at } => {
            if has_id(table.rows, id) {
                let row = AmountView {
                    id,
                    amount,
                    in_or_out,
                    append_msg,
                    created_at: row_of_id(table.rows, id).created_at,
                    updated_at,
                };
                lemma_without_id(table.rows, id);
                let rest = without_id(table.rows, id);
                lemma_placed(rest, row);
                assert forall|i: int| 0 <= i < after.rows.len() implies 1 <= (
                #[trigger] after.rows[i]).id < table.next_id by {
                    assert(has_id(after.rows, after.rows[i].id));
                    assert(has_id(table.rows, after.rows[i].id));
                    lemma_id_in_range(table, after.rows[i].id);
                }
            }
        },
        Change::Delete { id } => {
            lemma_without_id(table.rows, id);
            assert forall|i: int| 0 <= i < after.rows.len() implies 1 <= (
            #[trigger] after.rows[i]).id < table.next_id by {
                assert(has_id(table.rows, after.rows[i].id));
                lemma_id_in_range(table, after.rows[i].id);
            }
        },
    }
}

/// The id that comes next is the id of no row.
proof fn lemma_fresh_id(table: Table)
    requires
        table.wf(),
    ensures
        !has_id(table.rows, table.next_id as i32),
{
    if has_id(table.rows, table.next_id as i32) {
        let i = choose|i: int|
            0 <= i < table.rows.len() && (#[trigger] table.rows[i]).id == table.next_id as i32;
        assert(table.rows[i].id < table.next_id);
    }
}

/// The id of a row is positive and below `next_id`.
proof fn lemma_id_in_range(table: Table, id: i32)
    requires
        table.wf(),
        has_id(table.rows, id),
    ensures
        1 <= id < table.next_id,
{
    let i = choose|i: int| 0 <= i < table.rows.len() && (#[trigger] table.rows[i]).id == id;
    assert(1 <= table.rows[i].id < table.next_id);
}

/// Where the rows after a change have the ids from before and one new id,
/// all ids stay in range once `next_id` has moved past the new one.
proof fn lemma_ids_stay_below(
    before: Seq<AmountView>,
    after: Seq<AmountView>,
    next_id: int,
    new_id: i32,
)
    requires
        forall|i: int| 0 <= i < before.len() ==> 1 <= (#[trigger] before[i]).id < next_id,
        forall|id: i32| has_id(after, id) <==> (has_id(before, id) || id == new_id),
        1 <= new_id == next_id,
    ensures
        forall|i: int| 0 <= i < after.len() ==> 1 <= (#[trigger] after[i]).id < next_id + 1,
{
    assert forall|i: int| 0 <= i < after.len() implies 1 <= (#[trigger] after[i]).id < next_id
        + 1 by {
        assert(has_id(after, after[i].id));
        if after[i].id != new_id {
            let k = choose|k: int| 0 <= k < before.len() && (#[trigger] before[k]).id == after[i].id;
            assert(1 <= before[k].id < next_id);
        }
    }
}

/// Whatever changes are made, in whatever order, the table's invariant
/// holds after them, `next_id` has not gone down, and every amount stored
/// is a whole number of cents, not negative.
pub proof fn lemma_changes_keep_wf(table: Table, changes: Seq<Change>)
    requires
        table.wf(),
    ensures
        table.after_all(changes).wf(),
        table.next_id <= table.after_all(changes).next_id,
        forall|i: int|
            0 <= i < table.after_all(changes).rows.len() ==> 0 <= (
            #[trigger] table.after_all(changes).rows[i]).amount,
    decreases changes.len(),
{
    if changes.len() > 0 {
        lemma_changes_keep_wf(table, changes.drop_last());
        lemma_change_keeps_wf(table.after_all(changes.drop_last()), changes.last());
    }
}

/// The table as it stands when the change at `k` of a run is made.
pub open spec fn table_before(table: Table, changes: Seq<Change>, k: int) -> Table {
    table.after_all(changes.take(k))
}

/// The id, if any, that the change at `k` of a run gives out.
pub open spec fn issued_at(table: Table, changes: Seq<Change>, k: int) -> Option<int> {
    table_before(table, changes, k).issues(changes[k])
}

/// Along a run of changes `next_id` never goes down.
proof fn lemma_next_id_grows(table: Table, changes: Seq<Change>, i: int, j: int)
    requires
        table.wf(),
        0 <= i <= j <= changes.len(),
    ensures
        table_before(table, changes, i).wf(),
        table_before(table, changes, j).wf(),
        table_before(table, changes, i).next_id <= table_before(table, changes, j).next_id,
    decreases j - i,
{
    lemma_changes_keep_wf(table, changes.take(i));
    lemma_changes_keep_wf(table, changes.take(j));
    if i < j {
        lemma_next_id_grows(table, changes, i, j - 1);
        assert(changes.take(j).drop_last() =~= changes.take(j - 1));
        assert(changes.take(j).last() == changes[j - 1]);
        lemma_changes_keep_wf(table, changes.take(j - 1));
        lemma_change_keeps_wf(table_before(table, changes, j - 1), changes[j - 1]);
    }
}

/// The ids given out in a run of changes increase strictly: a later insert
/// gets a larger id than every insert before it, whatever was deleted in
/// between. So no id is given out twice.
pub proof fn lemma_ids_increase(table: Table, changes: Seq<Change>, i: int, j: int)
    requires
        table.wf(),
        0 <= i < j < changes.len(),
        issued_at(table, changes, i) is Some,
        issued_at(table, changes, j) is Some,
    ensures
        issued_at(table, changes, i)->0 < issued_at(table, changes, j)->0,
{
    lemma_next_id_grows(table, changes, i, i);
    lemma_change_keeps_wf(table_before(table, changes, i), changes[i]);
    assert(changes.take(i + 1).drop_last() =~= changes.take(i));
    assert(changes.take(i + 1).last() == changes[i]);
    lemma_next_id_grows(table, changes, i + 1, j);
}

/// An id that a table has given out, or could have, is never given out by a
/// later change: every id given out after a run of changes is at least the
/// `next_id` from before the run, and so above every id stored or deleted
/// until then.
pub proof fn lemma_ids_not_reissued(table: Table, changes: Seq<Change>, change: Change)
    requires
        table.wf(),
        table.after_all(changes).issues(change) is Some,
    ensures
        table.next_id <= table.after_all(changes).issues(change)->0,
        forall|i: int|
            0 <= i < table.rows.len() ==> (#[trigger] table.rows[i]).id < table.after_all(
                changes,
            ).issues(change)->0,
{
    lemma_changes_keep_wf(table, changes);
}

/// Where a row with a new id is put among rows with distinct ids, the row
/// of that id is the new row, and the row of every other id is as before.
pub proof fn lemma_rows_after_placing(rows: Seq<AmountView>, a: AmountView)
    requires
        ascending(rows),
        distinct_ids(rows),
        !has_id(rows, a.id),
    ensures
        has_id(placed(rows, a), a.id),
        row_of_id(placed(rows, a), a.id) == a,
        forall|other: i32|
            other != a.id ==> has_id(placed(rows, a), other) == has_id(rows, other),
        forall|other: i32|
            other != a.id && has_id(rows, other) ==> #[trigger] row_of_id(placed(rows, a), other)
                == row_of_id(rows, other),
{
    lemma_placed(rows, a);
    let after = placed(rows, a);
    assert(has_id(after, a.id));
    let k = choose|k: int| 0 <= k < after.len() && (#[trigger] after[k]).id == a.id;
    assert(after[k] == a);
    assert forall|other: i32| other != a.id && has_id(rows, other) implies #[trigger] row_of_id(
        after,
        other,
    ) == row_of_id(rows, other) by {
        assert(has_id(after, other));
        let j = choose|j: int| 0 <= j < after.len() && (#[trigger] after[j]).id == other;
        assert(after[j] != a);
    }
}

/// Where the rows of an id are taken out, the row of every other id is as
/// before.
proof fn lemma_rows_after_taking_out(rows: Seq<AmountView>, id: i32)
    requires
        ascending(rows),
        distinct_ids(rows),
    ensures
        forall|other: i32|
            other != id && has_id(rows, other) ==> #[trigger] row_of_id(
                without_id(rows, id),
                other,
            ) == row_of_id(rows, other),
{
    lemma_without_id(rows, id);
    let rest = without_id(rows, id);
    assert forall|other: i32| other != id && has_id(rows, other) implies #[trigger] row_of_id(
        rest,
        other,
    ) == row_of_id(rows, other) by {
        assert(has_id(rest, other));
        let j = choose|j: int| 0 <= j < rest.len() && (#[trigger] rest[j]).id == other;
        assert(row_of_id(rows, rest[j].id) == rest[j]);
    }
}

/// An insert adds one row, under the id that was next, and leaves every
/// other row as it was.
pub proof fn lemma_insert_adds_one_row(
    table: Table,
    amount: u32,
    in_or_out: bool,
    append_msg: Seq<char>,
    created_at: Instant,
    updated_at: Instant,
)
    requires
        table.wf(),
        table.can_insert(),
    ensures
        ({
            let after = table.inserted(amount, in_or_out, append_msg, created_at, updated_at);
            let id = table.next_id as i32;
            &&& after.rows.len() == table.rows.len() + 1
            &&& has_id(after.rows, id)
            &&& !has_id(table.rows, id)
            &&& row_of_id(after.rows, id) == (AmountView {
                id,
                amount,
                in_or_out,
                append_msg,
                created_at,
                updated_at,
            })
            &&& forall|other: i32|
                other != id ==> has_id(after.rows, other) == has_id(table.rows, other)
            &&& forall|other: i32|
                other != id && has_id(table.rows, other) ==> #[trigger] row_of_id(
                    after.rows,
                    other,
                ) == row_of_id(table.rows, other)
        }),
{
    let row = AmountView {
        id: table.next_id as i32,
        amount,
        in_or_out,
        append_msg,
        created_at,
        updated_at,
    };
    lemma_fresh_id(table);
    lemma_placed(table.rows, row);
    lemma_rows_after_placing(table.rows, row);
}

/// An update changes the row of its id, which keeps the id and the instant
/// of its creation, and leaves every other row as it was; no row is added
/// or lost.
pub proof fn lemma_update_changes_one_row(
    table: Table,
    id: i32,
    amount: u32,
    in_or_out: bool,
    append_msg: Seq<char>,
    updated_at: Instant,
)
    requires
        table.wf(),
        has_id(table.rows, id),
    ensures
        ({
            let after = table.updated(id, amount, in_or_out, append_msg, updated_at);
            &&& after.rows.len() == table.rows.len()
            &&& after.next_id == table.next_id
            &&& has_id(after.rows, id)
            &&& row_of_id(after.rows, id) == (AmountView {
                id,
                amount,
                in_or_out,
                append_msg,
                created_at: row_of_id(table.rows, id).created_at,
                updated_at,
            })
            &&& forall|other: i32|
                other != id ==> has_id(after.rows, other) == has_id(table.rows, other)
            &&& forall|other: i32|
                other != id && has_id(table.rows, other) ==> #[trigger] row_of_id(
                    after.rows,
                    other,
                ) == row_of_id(table.rows, other)
        }),
{
    let row = AmountView {
        id,
        amount,
        in_or_out,
        append_msg,
        created_at: row_of_id(table.rows, id).created_at,
        updated_at,
    };
    let rest = without_id(table.rows, id);
    lemma_without_id(table.rows, id);
    lemma_rows_after_taking_out(table.rows, id);
    lemma_placed(rest, row);
    lemma_rows_after_placing(rest, row);
    let p = choose|p: int| 0 <= p < table.rows.len() && (#[trigger] table.rows[p]).id == id;
    assert(rest == table.rows.remove(p));
    let after = table.updated(id, amount, in_or_out, append_msg, updated_at);
    assert forall|other: i32| other != id && has_id(table.rows, other) implies #[trigger] row_of_id(
        after.rows,
        other,
    ) == row_of_id(table.rows, other) by {
        assert(has_id(rest, other));
        assert(row_of_id(placed(rest, row), other) == row_of_id(rest, other));
        assert(row_of_id(rest, other) == row_of_id(table.rows, other));
    }
}

/// A deletion takes out the row of its id and leaves every other row as it
/// was.
pub proof fn lemma_delete_removes_one_row(table: Table, id: i32)
    requires
        table.wf(),
        has_id(table.rows, id),
    ensures
        ({
            let after = table.deleted(id);
            &&& after.rows.len() + 1 == table.rows.len()
            &&& after.next_id == table.next_id
            &&& !has_id(after.rows, id)
            &&& forall|other: i32|
                other != id ==> has_id(after.rows, other) == has_id(table.rows, other)
            &&& forall|other: i32|
                other != id && has_id(table.rows, other) ==> #[trigger] row_of_id(
                    after.rows,
                    other,
                ) == row_of_id(table.rows, other)
        }),
{
    lemma_without_id(table.rows, id);
    lemma_rows_after_taking_out(table.rows, id);
    let p = choose|p: int| 0 <= p < table.rows.len() && (#[trigger] table.rows[p]).id == id;
    assert(without_id(table.rows, id) == table.rows.remove(p));
}

/// The rows of a range of instants, taken from rows in listing order, are
/// in listing order.
pub proof fn lemma_within_ascends(rows: Seq<AmountView>, start: Instant, end: Instant)
    requires
        ascending(rows),
    ensures
        ascending(within(rows, start, end)),
        within(rows, start, end).len() <= rows.len(),
        forall|i: int|
            0 <= i < within(rows, start, end).len() ==> changed_within(
                #[trigger] within(rows, start, end)[i],
                start,
                end,
            ) && exists|k: int|
                0 <= k < rows.len() && (#[trigger] rows[k]) == within(rows, start, end)[i],
    decreases rows.len(),
{
    if rows.len() > 0 {
        let earlier = rows.drop_last();
        let last = rows.len() - 1;
        assert forall|i: int, j: int| 0 <= i < j < earlier.len() implies (
        #[trigger] earlier[i]).listed_before(#[trigger] earlier[j]) by {
            assert(rows[i].listed_before(rows[j]));
        }
        lemma_within_ascends(earlier, start, end);
        let chosen = within(rows, start, end);
        let before = within(earlier, start, end);
        assert forall|i: int| 0 <= i < chosen.len() implies changed_within(
            #[trigger] chosen[i],
            start,
            end,
        ) && exists|k: int| 0 <= k < rows.len() && (#[trigger] rows[k]) == chosen[i] by {
            if i < before.len() {
                assert(chosen[i] == before[i]);
                let k = choose|k: int| 0 <= k < earlier.len() && (#[trigger] earlier[k]) == before[i];
                assert(rows[k] == chosen[i]);
            } else {
                assert(rows[last] == chosen[i]);
            }
        }
        assert forall|i: int, j: int| 0 <= i < j < chosen.len() implies (
        #[trigger] chosen[i]).listed_before(#[trigger] chosen[j]) by {
            if j < before.len() {
                assert(before[i].listed_before(before[j]));
            } else {
                assert(chosen[j] == rows[last]);
                assert(chosen[i] == before[i]);
                let k = choose|k: int| 0 <= k < earlier.len() && (#[trigger] earlier[k]) == before[i];
                assert(rows[k].listed_before(rows[last]));
            }
        }
    }
}

} // verus!
