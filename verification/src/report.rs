//! What the renderer is given: one row of text per record, and per month a
//! report of its rows with the month's signed total.

use crate::clock::{date_time_text, display_of, month_of, to_display, MonthKey};
use crate::money::{format_amount, format_cents};
use crate::record::{
    sum_over, sum_records, total_direction, total_magnitude, views, Amount, AmountView,
    Direction,
};
use vstd::prelude::*;

verus! {

/// A record made ready for display: the amount as decimal text, the time of
/// the last change as read on the display clock.
#[derive(Debug, PartialEq, Eq)]
pub struct AmountPrecise {
    /// The record's id; zero on a row that stands for no record.
    pub id: i32,
    /// The amount as whole units, a point and two digits.
    pub amount: String,
    /// The direction: `true` for money that came in.
    pub in_or_out: bool,
    /// The note.
    pub append_msg: String,
    /// The last change as `YYYY-MM-DD HH:MM:SS` on the display clock; empty
    /// on a row that stands for no record.
    pub updated_at: String,
}

/// The column of a display row that holds the direction, counted from
/// zero: a row has the id, the amount, the direction, the note and the time
/// of the last change, in this order.
pub const DIRECTION_COLUMN: usize = 2;

/// A display row as a value.
pub struct AmountPreciseView {
    pub id: i32,
    pub amount: Seq<char>,
    pub in_or_out: bool,
    pub append_msg: Seq<char>,
    pub updated_at: Seq<char>,
}

impl View for AmountPrecise {
    type V = AmountPreciseView;

    open spec fn view(&self) -> AmountPreciseView {
        AmountPreciseView {
            id: self.id,
            amount: self.amount@,
            in_or_out: self.in_or_out,
            append_msg: self.append_msg@,
            updated_at: self.updated_at@,
        }
    }
}

impl Clone for AmountPrecise {
    fn clone(&self) -> (copy: AmountPrecise)
        ensures
            copy == *self,
    {
        AmountPrecise {
            id: self.id,
            amount: self.amount.clone(),
            in_or_out: self.in_or_out,
            append_msg: self.append_msg.clone(),
            updated_at: self.updated_at.clone(),
        }
    }
}

/// The row that shows a record, where the display clock has a reading for
/// the record's last change.
pub open spec fn display_row(a: AmountView) -> Option<AmountPreciseView> {
    match display_of(a.updated_at) {
        Some(reading) => Some(
            AmountPreciseView {
                id: a.id,
                amount: format_cents(a.amount as nat),
                in_or_out: a.in_or_out,
                append_msg: a.append_msg,
                updated_at: date_time_text(reading),
            },
        ),
        None => None,
    }
}

/// The label of the row that closes a month.
pub open spec fn month_total_label() -> Seq<char> {
    "Month Total"@
}

/// The row that closes a month: it stands for no record, so it has the id
/// zero and no time, and it shows the size of the month's signed total with
/// the direction of its sign.
pub open spec fn total_row(total: int) -> AmountPreciseView {
    AmountPreciseView {
        id: 0,
        amount: format_cents(total_magnitude(total)),
        in_or_out: total >= 0,
        append_msg: month_total_label(),
        updated_at: Seq::<char>::empty(),
    }
}

impl AmountPrecise {
    /// The row that shows `record`, or `None` where the display clock has no
    /// reading for its last change.
    pub fn of(record: &Amount) -> (r: Option<AmountPrecise>)
        ensures
            match r {
                Some(row) => display_row(record@) == Some(row@),
                None => display_row(record@) is None,
            },
    {
        match to_display(record.updated_at) {
            Some(reading) => Some(
                AmountPrecise {
                    id: record.id,
                    amount: format_amount(record.amount as u128),
                    in_or_out: record.in_or_out,
                    append_msg: record.append_msg.clone(),
                    updated_at: reading.format(),
                },
            ),
            None => None,
        }
    }
}

/// A signed total as it is reported: its size and the direction of its sign.
#[derive(Debug, PartialEq, Eq)]
pub struct Total {
    /// The signed total in cents.
    pub cents: i128,
    /// `In` unless the total is negative.
    pub direction: Direction,
    /// The size of the total as whole units, a point and two digits.
    pub amount: String,
}

impl Total {
    /// Whether this is the report of the signed total `total`.
    pub open spec fn reports(self, total: int) -> bool {
        &&& self.cents == total
        &&& self.direction == total_direction(total)
        &&& self.amount@ == format_cents(total_magnitude(total))
    }

    /// The report of a signed total.
    pub fn of(cents: i128) -> (t: Total)
        ensures
            t.reports(cents as int),
    {
        let (direction, size) = if cents >= 0 {
            (Direction::In, cents as u128)
        } else if cents == i128::MIN {
            (Direction::Out, 0x8000_0000_0000_0000_0000_0000_0000_0000u128)
        } else {
            (Direction::Out, (-cents) as u128)
        };
        Total { cents, direction, amount: format_amount(size) }
    }

    /// The report of the signed sum of `records`.
    pub fn over(records: &Vec<Amount>) -> (t: Total)
        ensures
            t.reports(sum_over(views(records@))),
    {
        Total::of(sum_records(records))
    }
}

/// The report of one month.
#[derive(Debug, PartialEq, Eq)]
pub struct MonthReport {
    /// The month.
    pub month: MonthKey,
    /// One row for each record of the month, in the records' order.
    pub rows: Vec<AmountPrecise>,
    /// The month's signed total in cents.
    pub total_cents: i128,
    /// `In` unless the total is negative.
    pub total_direction: Direction,
    /// The closing row, which shows the total and stands for no record.
    pub total_row: AmountPrecise,
}

impl MonthReport {
    /// Whether this is the report of `records` under the month `month`: a
    /// row for each record in order, the records' signed sum as the total,
    /// and the closing row of that total.
    pub open spec fn describes(self, records: Seq<AmountView>, month: MonthKey) -> bool {
        &&& self.month == month
        &&& self.rows@.len() == records.len()
        &&& forall|i: int|
            0 <= i < records.len() ==> display_row(#[trigger] records[i]) == Some(self.rows@[i]@)
        &&& self.total_cents == sum_over(records)
        &&& self.total_direction == total_direction(sum_over(records))
        &&& self.total_row@ == total_row(sum_over(records))
    }

    /// The rows as the renderer shows them: the records' rows, then the
    /// closing row.
    pub fn table_rows(&self) -> (rows: Vec<AmountPrecise>)
        ensures
            rows@ == self.rows@.push(self.total_row),
    {
        let mut rows: Vec<AmountPrecise> = Vec::new();
        let mut i: usize = 0;
        while i < self.rows.len()
            invariant
                i <= self.rows.len(),
                rows@ == self.rows@.take(i as int),
            decreases self.rows.len() - i,
        {
            rows.push(self.rows[i].clone());
            i += 1;
            assert(rows@ =~= self.rows@.take(i as int));
        }
        assert(self.rows@.take(i as int) =~= self.rows@);
        rows.push(self.total_row.clone());
        rows
    }
}

/// Builds the report of one month from the month's records: a row for each
/// record, and the closing row with the month's signed total. There is no
/// report where the display clock has no reading for one of the records.
pub fn format_output_month_total(amount: &Vec<Amount>, month: MonthKey) -> (r: Option<
    MonthReport,
>)
    ensures
        match r {
            Some(report) => report.describes(views(amount@), month),
            None => exists|i: int|
                0 <= i < amount.len() && display_row(#[trigger] views(amount@)[i]) is None,
        },
{
    let mut rows: Vec<AmountPrecise> = Vec::new();
    let mut i: usize = 0;
    while i < amount.len()
        invariant
            i <= amount.len(),
            rows@.len() == i,
            forall|j: int|
                0 <= j < i ==> display_row(#[trigger] views(amount@)[j]) == Some(rows@[j]@),
        decreases amount.len() - i,
    {
        match AmountPrecise::of(&amount[i]) {
            Some(row) => {
                rows.push(row);
            },
            None => {
                assert(display_row(views(amount@)[i as int]) is None);
                return None;
            },
        }
        i += 1;
    }
    let total = Total::over(amount);
    proof {
        reveal_strlit("Month Total");
        reveal_strlit("");
    }
    let total_row = AmountPrecise {
        id: 0,
        amount: total.amount,
        in_or_out: total.cents >= 0,
        append_msg: String::from_str("Month Total"),
        updated_at: String::new(),
    };
    Some(
        MonthReport {
            month,
            rows,
            total_cents: total.cents,
            total_direction: total.direction,
            total_row,
        },
    )
}

/// The records of one month, each with the month it was put under.
#[derive(Debug, PartialEq, Eq)]
pub struct MonthGroup {
    /// The month.
    pub month: MonthKey,
    /// The month's records, in the order in which they were given.
    pub records: Vec<Amount>,
}

/// Whether a record's last change falls in the month `key` of the display
/// clock.
pub open spec fn in_month(a: AmountView, key: MonthKey) -> bool {
    month_of(a.updated_at) == Some(key)
}

/// The records of `records` that fall in the month `key`, in their order.
pub open spec fn records_of_month(records: Seq<AmountView>, key: MonthKey) -> Seq<AmountView>
    decreases records.len(),
{
    if records.len() == 0 {
        Seq::<AmountView>::empty()
    } else {
        let earlier = records_of_month(records.drop_last(), key);
        if in_month(records.last(), key) {
            earlier.push(records.last())
        } else {
            earlier
        }
    }
}

/// Whether the months of `groups` come in strictly ascending order, so that
/// none comes twice.
pub open spec fn months_ascend(groups: Seq<MonthGroup>) -> bool {
    forall|a: int, b: int|
        0 <= a < b < groups.len() ==> (#[trigger] groups[a]).month.precedes(
            (#[trigger] groups[b]).month,
        )
}

/// Whether `groups` has a group for the month `key`.
pub open spec fn has_month(groups: Seq<MonthGroup>, key: MonthKey) -> bool {
    exists|a: int| 0 <= a < groups.len() && (#[trigger] groups[a]).month == key
}

/// Whether `groups` is `records` put under their months: the months ascend,
/// each group holds exactly the records of its month, in their order, and is
/// not empty, and every record's month has its group.
pub open spec fn groups_by_month(groups: Seq<MonthGroup>, records: Seq<AmountView>) -> bool {
    &&& months_ascend(groups)
    &&& forall|a: int|
        0 <= a < groups.len() ==> {
            &&& views((#[trigger] groups[a]).records@) == records_of_month(
                records,
                groups[a].month,
            )
            &&& groups[a].records@.len() > 0
        }
    &&& forall|i: int|
        0 <= i < records.len() ==> {
            &&& month_of((#[trigger] records[i]).updated_at) is Some
            &&& has_month(groups, month_of(records[i].updated_at)->0)
        }
}

/// Puts the records under the months of the display clock in which they
/// were last changed, the months in ascending order and the records of a
/// month in the order given. There is no grouping where the display clock
/// has no reading for one of the records.
pub fn group_amount_by_month(amount: &Vec<Amount>) -> (r: Option<Vec<MonthGroup>>)
    ensures
        match r {
            Some(groups) => groups_by_month(groups@, views(amount@)),
            None => exists|i: int|
                0 <= i < amount.len() && month_of((#[trigger] views(amount@)[i]).updated_at)
                    is None,
        },
{
    let mut groups: Vec<MonthGroup> = Vec::new();
    let mut i: usize = 0;
    assert(views(amount@).take(0) =~= Seq::<AmountView>::empty());
    while i < amount.len()
        invariant
            i <= amount.len(),
            groups_by_month(groups@, views(amount@).take(i as int)),
        decreases amount.len() - i,
    {
        let ghost seen = views(amount@).take(i as int);
        let ghost now = views(amount@).take(i + 1);
        let ghost old_groups = groups@;
        let record = &amount[i];
        assert(now.drop_last() =~= seen);
        assert(now.last() == record@);
        let key = match crate::clock::month_key_of(record.updated_at) {
            Some(key) => key,
            None => {
                assert(month_of(views(amount@)[i as int].updated_at) is None);
                return None;
            },
        };
        let mut p: usize = 0;
        while p < groups.len() && groups[p].month.is_before(&key)
            invariant
                p <= groups.len(),
                forall|a: int| 0 <= a < p ==> (#[trigger] groups@[a]).month.precedes(key),
            decreases groups.len() - p,
        {
            p += 1;
        }
        if p < groups.len() && groups[p].month == key {
            let mut group = groups.remove(p);
            group.records.push(record.clone());
            groups.insert(p, group);
            proof {
                let new_groups = groups@;
                assert(new_groups.len() == old_groups.len());
                assert forall|a: int| 0 <= a < new_groups.len() implies {
                    &&& (#[trigger] new_groups[a]).month == old_groups[a].month
                    &&& a != p ==> new_groups[a] == old_groups[a]
                } by {}
                assert forall|a: int| 0 <= a < new_groups.len() implies {
                    &&& views((#[trigger] new_groups[a]).records@) == records_of_month(
                        now,
                        new_groups[a].month,
                    )
                    &&& new_groups[a].records@.len() > 0
                } by {
                    if a == p as int {
                        assert(views(new_groups[a].records@) =~= views(
                            old_groups[a].records@,
                        ).push(record@));
                    } else {
                        assert(old_groups[a].month.precedes(old_groups[p as int].month)
                            || old_groups[p as int].month.precedes(old_groups[a].month));
                    }
                }
                assert forall|j: int| 0 <= j < now.len() implies {
                    &&& month_of((#[trigger] now[j]).updated_at) is Some
                    &&& has_month(new_groups, month_of(now[j].updated_at)->0)
                } by {
                    if j < i {
                        assert(now[j] == seen[j]);
                        let a = choose|a: int|
                            0 <= a < old_groups.len() && (#[trigger] old_groups[a]).month
                                == month_of(seen[j].updated_at)->0;
                        assert(new_groups[a].month == month_of(now[j].updated_at)->0);
                    } else {
                        assert(new_groups[p as int].month == key);
                    }
                }
            }
        } else {
            let mut records: Vec<Amount> = Vec::new();
            records.push(record.clone());
            groups.insert(p, MonthGroup { month: key, records });
            proof {
                let new_groups = groups@;
                assert(new_groups.len() == old_groups.len() + 1);
                assert forall|a: int| 0 <= a < new_groups.len() implies {
                    &&& a < p ==> (#[trigger] new_groups[a]) == old_groups[a]
                    &&& a > p ==> new_groups[a] == old_groups[a - 1]
                } by {}
                assert(new_groups[p as int].month == key);
                assert forall|a: int| p <= a < old_groups.len() implies key.precedes(
                    (#[trigger] old_groups[a]).month,
                ) by {
                    assert(!old_groups[p as int].month.precedes(key));
                    assert(old_groups[p as int].month != key);
                    if a > p {
                        assert(old_groups[p as int].month.precedes(old_groups[a].month));
                    }
                }
                assert forall|a: int, b: int| 0 <= a < b < new_groups.len() implies (
                #[trigger] new_groups[a]).month.precedes((#[trigger] new_groups[b]).month) by {
                    if a < p && b > p {
                        assert(old_groups[a].month.precedes(key));
                        assert(key.precedes(old_groups[b - 1].month));
                    } else if a == p {
                        assert(key.precedes(old_groups[b - 1].month));
                    } else if b == p {
                        assert(old_groups[a].month.precedes(key));
                    } else if b < p {
                        assert(old_groups[a].month.precedes(old_groups[b].month));
                    } else {
                        assert(old_groups[a - 1].month.precedes(old_groups[b - 1].month));
                    }
                }
                lemma_no_records_without_group(seen, old_groups, key);
                assert forall|a: int| 0 <= a < new_groups.len() implies {
                    &&& views((#[trigger] new_groups[a]).records@) == records_of_month(
                        now,
                        new_groups[a].month,
                    )
                    &&& new_groups[a].records@.len() > 0
                } by {
                    if a == p as int {
                        assert(views(new_groups[a].records@) =~= Seq::<AmountView>::empty().push(
                            record@,
                        ));
                    } else if a < p {
                        assert(old_groups[a].month.precedes(key));
                    } else {
                        assert(key.precedes(old_groups[a - 1].month));
                    }
                }
                assert forall|j: int| 0 <= j < now.len() implies {
                    &&& month_of((#[trigger] now[j]).updated_at) is Some
                    &&& has_month(new_groups, month_of(now[j].updated_at)->0)
                } by {
                    if j < i {
                        assert(now[j] == seen[j]);
                        let a = choose|a: int|
                            0 <= a < old_groups.len() && (#[trigger] old_groups[a]).month
                                == month_of(seen[j].updated_at)->0;
                        if a < p {
                            assert(new_groups[a].month == month_of(now[j].updated_at)->0);
                        } else {
                            assert(new_groups[a + 1].month == month_of(now[j].updated_at)->0);
                        }
                    } else {
                        assert(new_groups[p as int].month == key);
                    }
                }
            }
        }
        i += 1;
    }
    assert(views(amount@).take(i as int) =~= views(amount@));
    Some(groups)
}

/// Where every record's month has its group, a month without a group has no
/// records.
proof fn lemma_no_records_without_group(
    records: Seq<AmountView>,
    groups: Seq<MonthGroup>,
    key: MonthKey,
)
    requires
        !has_month(groups, key),
        forall|i: int|
            0 <= i < records.len() ==> {
                &&& month_of((#[trigger] records[i]).updated_at) is Some
                &&& has_month(groups, month_of(records[i].updated_at)->0)
            },
    ensures
        records_of_month(records, key) == Seq::<AmountView>::empty(),
    decreases records.len(),
{
    if records.len() > 0 {
        let earlier = records.drop_last();
        assert forall|i: int| 0 <= i < earlier.len() implies {
            &&& month_of((#[trigger] earlier[i]).updated_at) is Some
            &&& has_month(groups, month_of(earlier[i].updated_at)->0)
        } by {
            assert(earlier[i] == records[i]);
        }
        lemma_no_records_without_group(earlier, groups, key);
        assert(records.last() == records[records.len() - 1]);
    }
}

/// The records of a month, taken from records in listing order, are in
/// listing order, and each of them is one of the records given.
pub proof fn lemma_month_records_ascend(records: Seq<AmountView>, key: MonthKey)
    requires
        crate::table::ascending(records),
    ensures
        crate::table::ascending(records_of_month(records, key)),
        forall|i: int|
            0 <= i < records_of_month(records, key).len() ==> in_month(
                #[trigger] records_of_month(records, key)[i],
                key,
            ) && exists|k: int|
                0 <= k < records.len() && (#[trigger] records[k]) == records_of_month(
                    records,
                    key,
                )[i],
    decreases records.len(),
{
    if records.len() > 0 {
        let earlier = records.drop_last();
        let last = records.len() - 1;
        assert forall|i: int, j: int| 0 <= i < j < earlier.len() implies (
        #[trigger] earlier[i]).listed_before(#[trigger] earlier[j]) by {
            assert(records[i].listed_before(records[j]));
        }
        lemma_month_records_ascend(earlier, key);
        let chosen = records_of_month(records, key);
        let before = records_of_month(earlier, key);
        assert forall|i: int| 0 <= i < chosen.len() implies in_month(#[trigger] chosen[i], key)
            && exists|k: int| 0 <= k < records.len() && (#[trigger] records[k]) == chosen[i] by {
            if i < before.len() {
                assert(chosen[i] == before[i]);
                let k = choose|k: int|
                    0 <= k < earlier.len() && (#[trigger] earlier[k]) == before[i];
                assert(records[k] == chosen[i]);
            } else {
                assert(records[last] == chosen[i]);
            }
        }
        assert forall|i: int, j: int| 0 <= i < j < chosen.len() implies (
        #[trigger] chosen[i]).listed_before(#[trigger] chosen[j]) by {
            if j < before.len() {
                assert(before[i].listed_before(before[j]));
            } else {
                assert(chosen[j] == records[last]);
                assert(chosen[i] == before[i]);
                let k = choose|k: int|
                    0 <= k < earlier.len() && (#[trigger] earlier[k]) == before[i];
                assert(records[k].listed_before(records[last]));
            }
        }
    }
}

/// The signed sums of the months `keys`, added up.
pub open spec fn sum_of_months(records: Seq<AmountView>, keys: Seq<MonthKey>) -> int
    decreases keys.len(),
{
    if keys.len() == 0 {
        0
    } else {
        sum_of_months(records, keys.drop_last()) + sum_over(
            records_of_month(records, keys.last()),
        )
    }
}

/// Whether `key` is one of `keys`.
pub open spec fn is_listed(keys: Seq<MonthKey>, key: MonthKey) -> bool {
    exists|a: int| 0 <= a < keys.len() && #[trigger] keys[a] == key
}

/// One more record adds its signed amount to the sums of the months, once
/// if its month is among them and not at all if it is not.
proof fn lemma_one_more_record(earlier: Seq<AmountView>, r: AmountView, keys: Seq<MonthKey>)
    requires
        forall|a: int, b: int| 0 <= a < b < keys.len() ==> #[trigger] keys[a] != #[trigger] keys[b],
    ensures
        sum_of_months(earlier.push(r), keys) == sum_of_months(earlier, keys) + (if month_of(
            r.updated_at,
        ) is Some && is_listed(keys, month_of(r.updated_at)->0) {
            r.signed_cents()
        } else {
            0
        }),
    decreases keys.len(),
{
    let records = earlier.push(r);
    assert(records.drop_last() =~= earlier);
    assert(records.last() == r);
    if keys.len() > 0 {
        let rest = keys.drop_last();
        let key = keys.last();
        let last = keys.len() - 1;
        assert forall|a: int, b: int| 0 <= a < b < rest.len() implies #[trigger] rest[a]
            != #[trigger] rest[b] by {
            assert(keys[a] != keys[b]);
        }
        lemma_one_more_record(earlier, r, rest);
        let of_month = records_of_month(earlier, key);
        if in_month(r, key) {
            assert(of_month.push(r).drop_last() =~= of_month);
            assert(keys[last] == month_of(r.updated_at)->0);
            assert(!is_listed(rest, key)) by {
                if is_listed(rest, key) {
                    let a = choose|a: int| 0 <= a < rest.len() && #[trigger] rest[a] == key;
                    assert(keys[a] != keys[last]);
                }
            }
        } else if month_of(r.updated_at) is Some {
            let month = month_of(r.updated_at)->0;
            if is_listed(keys, month) {
                let a = choose|a: int| 0 <= a < keys.len() && #[trigger] keys[a] == month;
                assert(rest[a] == month);
            }
            if is_listed(rest, month) {
                let a = choose|a: int| 0 <= a < rest.len() && #[trigger] rest[a] == month;
                assert(keys[a] == month);
            }
        }
    }
}

/// Where no month is listed twice and the month of every record is listed,
/// the sums of the months add up to the sum of all records.
pub proof fn lemma_months_add_up(records: Seq<AmountView>, keys: Seq<MonthKey>)
    requires
        forall|a: int, b: int| 0 <= a < b < keys.len() ==> #[trigger] keys[a] != #[trigger] keys[b],
        forall|i: int|
            0 <= i < records.len() ==> month_of((#[trigger] records[i]).updated_at) is Some
                && is_listed(keys, month_of(records[i].updated_at)->0),
    ensures
        sum_of_months(records, keys) == sum_over(records),
    decreases records.len(), keys.len(),
{
    if records.len() == 0 {
        if keys.len() > 0 {
            let rest = keys.drop_last();
            assert forall|a: int, b: int| 0 <= a < b < rest.len() implies #[trigger] rest[a]
                != #[trigger] rest[b] by {
                assert(keys[a] != keys[b]);
            }
            lemma_months_add_up(records, rest);
        }
    } else {
        let earlier = records.drop_last();
        let r = records.last();
        assert forall|i: int| 0 <= i < earlier.len() implies month_of(
            (#[trigger] earlier[i]).updated_at,
        ) is Some && is_listed(keys, month_of(earlier[i].updated_at)->0) by {
            assert(earlier[i] == records[i]);
        }
        lemma_months_add_up(earlier, keys);
        lemma_one_more_record(earlier, r, keys);
        assert(earlier.push(r) =~= records);
        assert(r == records[records.len() - 1]);
    }
}

/// The months of a run of reports, in the reports' order.
pub open spec fn months_of(reports: Seq<MonthReport>) -> Seq<MonthKey> {
    Seq::new(reports.len(), |a: int| reports[a].month)
}

/// The totals of a run of reports, added up.
pub open spec fn sum_of_totals(reports: Seq<MonthReport>) -> int
    decreases reports.len(),
{
    if reports.len() == 0 {
        0
    } else {
        sum_of_totals(reports.drop_last()) + reports.last().total_cents
    }
}

/// Where each report has the total of the records of its month, the
/// reports' totals add up to the sums of their months.
pub proof fn lemma_totals_are_month_sums(reports: Seq<MonthReport>, records: Seq<AmountView>)
    requires
        forall|a: int|
            0 <= a < reports.len() ==> (#[trigger] reports[a]).total_cents == sum_over(
                records_of_month(records, reports[a].month),
            ),
    ensures
        sum_of_totals(reports) == sum_of_months(records, months_of(reports)),
    decreases reports.len(),
{
    if reports.len() > 0 {
        let rest = reports.drop_last();
        assert forall|a: int| 0 <= a < rest.len() implies (#[trigger] rest[a]).total_cents
            == sum_over(records_of_month(records, rest[a].month)) by {
            assert(rest[a] == reports[a]);
        }
        lemma_totals_are_month_sums(rest, records);
        assert(months_of(reports).drop_last() =~= months_of(rest));
        assert(months_of(reports).last() == reports.last().month);
        assert(reports.last() == reports[reports.len() - 1]);
    } else {
        assert(months_of(reports) =~= Seq::<MonthKey>::empty());
    }
}

} // verus!
