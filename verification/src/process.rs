//! The operations of the ledger: adding an entry, listing by month, and
//! changing or deleting a record once the user has said yes.
//!
//! The operations work on a `Store` and on plain values. The clock and the
//! user's answer are handed in; nothing here reads or prints.

use crate::cli_customs::{text_of, AmountArgs, DeleteRecordArgs, ListAllArgs, PatchRecordArgs};
use crate::clock::{bounds_of, display_of, month_bounds, month_of, parse_month, Instant, MonthKey};
use crate::confirm::{accepts, confirmed, Signal, Stage};
use crate::error::LedgerError;
use crate::money::{parse_cents, Money};
use crate::record::{sum_over, views, AmountView};
use crate::report::{
    display_row, format_output_month_total, group_amount_by_month, groups_by_month, has_month,
    in_month, records_of_month, MonthGroup, MonthReport, Total,
};
use crate::store::Store;
use crate::table::{has_id, row_of_id, within, Table};
use vstd::prelude::*;

pub use crate::record::Amount;
pub use crate::report::AmountPrecise;

verus! {

/// The cents of an amount that may be entered: the text must write an
/// amount, greater than zero and no more than a `u32` of cents.
pub open spec fn entry_cents(text: Seq<char>) -> Option<u32> {
    match parse_cents(text) {
        Some(cents) => {
            if 0 < cents <= u32::MAX {
                Some(cents as u32)
            } else {
                None
            }
        },
        None => None,
    }
}

/// Reads an amount that is to be entered, and rejects what is no amount
/// and what is not greater than zero.
pub fn positive_cents(text: &str) -> (r: Result<u32, LedgerError>)
    ensures
        match r {
            Ok(cents) => entry_cents(text@) == Some(cents),
            Err(e) => e == LedgerError::InvalidAmount && entry_cents(text@) is None,
        },
{
    match Money::parse(text) {
        Ok(money) => {
            let cents = money.to_cents();
            if cents == 0 {
                Err(LedgerError::InvalidAmount)
            } else {
                Ok(cents)
            }
        },
        Err(e) => Err(e),
    }
}

/// The note of an entry: the text given, or the empty note.
pub open spec fn note_of(add_msg: Option<Seq<char>>) -> Seq<char> {
    match add_msg {
        Some(text) => text,
        None => Seq::<char>::empty(),
    }
}

/// Why an entry cannot be added, if it cannot: the amount is not valid;
/// or the display clock has no reading for the instant, so that the entry
/// could never be listed; or the store has no id left.
pub open spec fn entry_failure(table: Table, amount: Seq<char>, now: Instant) -> Option<
    LedgerError,
> {
    if entry_cents(amount) is None {
        Some(LedgerError::InvalidAmount)
    } else if display_of(now) is None {
        Some(LedgerError::Internal)
    } else if !table.can_insert() {
        Some(LedgerError::Io)
    } else {
        None
    }
}

/// Adds an income (`in_or_out` true) or an outcome (false) of the amount
/// given as text, made and last changed at `now`, and returns the record as
/// it was stored. On failure the store is unchanged.
pub fn insert_in_or_out_come(
    args: &AmountArgs,
    store: &mut Store,
    in_or_out: bool,
    now: Instant,
) -> (r: Result<Amount, LedgerError>)
    requires
        old(store).wf(),
    ensures
        final(store).wf(),
        match r {
            Ok(record) => {
                &&& entry_failure(old(store)@, args.amount@, now) is None
                &&& record@ == (AmountView {
                    id: old(store)@.next_id as i32,
                    amount: entry_cents(args.amount@)->0,
                    in_or_out,
                    append_msg: note_of(text_of(args.add_msg)),
                    created_at: now,
                    updated_at: now,
                })
                &&& final(store)@ == old(store)@.inserted(
                    record.amount,
                    in_or_out,
                    record.append_msg@,
                    now,
                    now,
                )
                &&& has_id(final(store)@.rows, record.id)
                &&& row_of_id(final(store)@.rows, record.id) == record@
            },
            Err(e) => entry_failure(old(store)@, args.amount@, now) == Some(e) && final(store)@
                == old(store)@,
        },
{
    let cents = match positive_cents(args.amount.as_str()) {
        Ok(cents) => cents,
        Err(e) => {
            return Err(e);
        },
    };
    if crate::clock::to_display(now).is_none() {
        return Err(LedgerError::Internal);
    }
    let note = match &args.add_msg {
        Some(text) => text.clone(),
        None => String::new(),
    };
    let kept = note.clone();
    proof {
        if store@.can_insert() {
            crate::table::lemma_insert_adds_one_row(store@, cents, in_or_out, note@, now, now);
        }
    }
    match store.insert(cents, in_or_out, note, now, now) {
        Ok(id) => Ok(
            Amount {
                id,
                amount: cents,
                in_or_out,
                append_msg: kept,
                created_at: now,
                updated_at: now,
            },
        ),
        Err(e) => Err(e),
    }
}

/// The line that confirms a new entry: its direction and its amount.
pub open spec fn inserted_text(record: AmountView) -> Seq<char> {
    (if record.in_or_out {
        "Inserted income record with amount: "@
    } else {
        "Inserted outcome record with amount: "@
    }) + crate::money::format_cents(record.amount as nat)
}

/// The line that confirms a new entry.
pub fn inserted_line(record: &Amount) -> (line: String)
    ensures
        line@ == inserted_text(record@),
{
    let mut line = if record.in_or_out {
        String::from_str("Inserted income record with amount: ")
    } else {
        String::from_str("Inserted outcome record with amount: ")
    };
    let amount = crate::money::format_amount(record.amount as u128);
    line.append(amount.as_str());
    line
}

/// The records that a listing shows: all of them without a filter; with
/// one, those last changed within the month that it names. There are none
/// to show where the filter names no month.
pub open spec fn selected(time: Option<Seq<char>>, rows: Seq<AmountView>) -> Option<
    Seq<AmountView>,
> {
    match time {
        None => Some(rows),
        Some(text) => match parse_month(text) {
            Some(key) => match bounds_of(key) {
                Some((start, end)) => Some(within(rows, start, end)),
                None => None,
            },
            None => None,
        },
    }
}

/// Whether the display clock has a reading for the last change of every
/// record.
pub open spec fn all_displayable(records: Seq<AmountView>) -> bool {
    forall|i: int| 0 <= i < records.len() ==> display_of((#[trigger] records[i]).updated_at) is Some
}

/// Whether `months` has a report for the month `key`.
pub open spec fn has_report(months: Seq<MonthReport>, key: MonthKey) -> bool {
    exists|a: int| 0 <= a < months.len() && (#[trigger] months[a]).month == key
}

/// Whether `months` are the reports of `records` by month: the months
/// ascend, each report is that of the records of its month and has at least
/// one of them, and every record's month has its report.
pub open spec fn lists(months: Seq<MonthReport>, records: Seq<AmountView>) -> bool {
    &&& forall|a: int, b: int|
        0 <= a < b < months.len() ==> (#[trigger] months[a]).month.precedes(
            (#[trigger] months[b]).month,
        )
    &&& forall|a: int|
        0 <= a < months.len() ==> {
            &&& (#[trigger] months[a]).describes(
                records_of_month(records, months[a].month),
                months[a].month,
            )
            &&& months[a].rows@.len() > 0
        }
    &&& forall|i: int|
        0 <= i < records.len() ==> {
            &&& month_of((#[trigger] records[i]).updated_at) is Some
            &&& has_report(months, month_of(records[i].updated_at)->0)
        }
}

/// What a listing hands to the renderer.
#[derive(Debug, PartialEq, Eq)]
pub struct Listing {
    /// One report for each month that has records, the months ascending.
    pub months: Vec<MonthReport>,
    /// The total over all records; present when no filter was given.
    pub overall: Option<Total>,
}

/// The records of a month all fall in that month, so the display clock has
/// a reading for each.
proof fn lemma_month_records_display(records: Seq<AmountView>, key: MonthKey)
    ensures
        forall|i: int|
            0 <= i < records_of_month(records, key).len() ==> in_month(
                #[trigger] records_of_month(records, key)[i],
                key,
            ),
        records_of_month(records, key).len() <= records.len(),
    decreases records.len(),
{
    if records.len() > 0 {
        lemma_month_records_display(records.drop_last(), key);
    }
}

/// The month totals of a listing add up to the signed sum of the records
/// that it shows: the total over all of them, where all are shown.
pub proof fn lemma_listing_totals_add_up(months: Seq<MonthReport>, records: Seq<AmountView>)
    requires
        lists(months, records),
    ensures
        crate::report::sum_of_totals(months) == sum_over(records),
{
    let keys = crate::report::months_of(months);
    assert forall|a: int, b: int| 0 <= a < b < keys.len() implies #[trigger] keys[a]
        != #[trigger] keys[b] by {
        assert(months[a].month.precedes(months[b].month));
    }
    assert forall|i: int| 0 <= i < records.len() implies month_of(
        (#[trigger] records[i]).updated_at,
    ) is Some && crate::report::is_listed(keys, month_of(records[i].updated_at)->0) by {
        let key = month_of(records[i].updated_at)->0;
        assert(has_report(months, key));
        let a = choose|a: int| 0 <= a < months.len() && (#[trigger] months[a]).month == key;
        assert(keys[a] == key);
    }
    crate::report::lemma_months_add_up(records, keys);
    crate::report::lemma_totals_are_month_sums(months, records);
}

/// Whether the rows of every report follow the listing order of their
/// records, the one changed earlier first and the smaller id first among
/// those changed in the same second, and have the positive ids of stored
/// records, unlike the closing row.
pub open spec fn rows_in_order(months: Seq<MonthReport>, records: Seq<AmountView>) -> bool {
    forall|a: int|
        0 <= a < months.len() ==> {
            &&& crate::table::ascending(records_of_month(records, (#[trigger] months[a]).month))
            &&& forall|i: int|
                0 <= i < months[a].rows@.len() ==> (#[trigger] months[a].rows@[i]).id >= 1
        }
}

/// The reports of what is selected from a table keep the table's order,
/// and their rows have the ids of the table's rows.
proof fn lemma_rows_in_order(time: Option<Seq<char>>, table: Table, months: Seq<MonthReport>)
    requires
        table.wf(),
        selected(time, table.rows) is Some,
        lists(months, selected(time, table.rows)->0),
    ensures
        rows_in_order(months, selected(time, table.rows)->0),
{
    let records = selected(time, table.rows)->0;
    if time is Some {
        let bounds = bounds_of(parse_month(time->0)->0)->0;
        crate::table::lemma_within_ascends(table.rows, bounds.0, bounds.1);
    }
    assert forall|k: int| 0 <= k < records.len() implies (#[trigger] records[k]).id >= 1 by {
        if time is Some {
            let j = choose|j: int| 0 <= j < table.rows.len() && (#[trigger] table.rows[j]) == records[k];
            assert(table.rows[j].id >= 1);
        } else {
            assert(table.rows[k].id >= 1);
        }
    }
    assert forall|a: int| 0 <= a < months.len() implies {
        &&& crate::table::ascending(records_of_month(records, (#[trigger] months[a]).month))
        &&& forall|i: int|
            0 <= i < months[a].rows@.len() ==> (#[trigger] months[a].rows@[i]).id >= 1
    } by {
        let key = months[a].month;
        let of_month = records_of_month(records, key);
        crate::report::lemma_month_records_ascend(records, key);
        assert(months[a].describes(of_month, key));
        assert forall|i: int| 0 <= i < months[a].rows@.len() implies (
        #[trigger] months[a].rows@[i]).id >= 1 by {
            assert(display_row(of_month[i]) == Some(months[a].rows@[i]@));
            let k = choose|k: int| 0 <= k < records.len() && (#[trigger] records[k]) == of_month[i];
            assert(records[k].id >= 1);
        }
    }
}

/// Lists the records by month, the months ascending and each month with
/// its total; all records when `args.time` is absent, and then with the
/// total over all of them, else the records of the month that it names.
/// Within a month the rows follow the listing order of the store.
///
/// Fails with `InvalidTime` where the filter names no month, and with
/// `Internal` where the display clock has no reading for a record to show.
pub fn list_all(args: &ListAllArgs, store: &Store) -> (r: Result<Listing, LedgerError>)
    ensures
        match r {
            Ok(listing) => {
                &&& selected(text_of(args.time), store@.rows) is Some
                &&& all_displayable(selected(text_of(args.time), store@.rows)->0)
                &&& lists(listing.months@, selected(text_of(args.time), store@.rows)->0)
                &&& match listing.overall {
                    Some(total) => args.time is None && total.reports(sum_over(store@.rows)),
                    None => args.time is Some,
                }
                &&& store.wf() ==> rows_in_order(
                    listing.months@,
                    selected(text_of(args.time), store@.rows)->0,
                )
            },
            Err(e) => match selected(text_of(args.time), store@.rows) {
                Some(records) => e == LedgerError::Internal && !all_displayable(records),
                None => e == LedgerError::InvalidTime,
            },
        },
{
    let records = match &args.time {
        Some(text) => {
            let key = match MonthKey::parse(text.as_str()) {
                Ok(key) => key,
                Err(e) => {
                    return Err(e);
                },
            };
            match month_bounds(key) {
                Some((start, end)) => store.list_range(start, end),
                None => {
                    return Err(LedgerError::InvalidTime);
                },
            }
        },
        None => store.list_all(),
    };
    assert(selected(text_of(args.time), store@.rows) == Some(views(records@)));
    let groups = match group_amount_by_month(&records) {
        Some(groups) => groups,
        None => {
            return Err(LedgerError::Internal);
        },
    };
    let months = month_reports(&groups, Ghost(views(records@)));
    proof {
        if store.wf() {
            lemma_rows_in_order(text_of(args.time), store@, months@);
        }
    }
    let overall = if args.time.is_none() {
        Some(Total::over(&records))
    } else {
        None
    };
    Ok(Listing { months, overall })
}

/// The reports of the groups of `records`, one for each group.
fn month_reports(groups: &Vec<MonthGroup>, Ghost(records): Ghost<Seq<AmountView>>) -> (r: Vec<
    MonthReport,
>)
    requires
        groups_by_month(groups@, records),
    ensures
        lists(r@, records),
        all_displayable(records),
{
    let mut months: Vec<MonthReport> = Vec::new();
    let mut a: usize = 0;
    while a < groups.len()
        invariant
            a <= groups.len(),
            months@.len() == a,
            groups_by_month(groups@, records),
            forall|k: int|
                0 <= k < a ==> {
                    &&& (#[trigger] months@[k]).month == groups@[k].month
                    &&& months@[k].describes(
                        records_of_month(records, months@[k].month),
                        months@[k].month,
                    )
                    &&& months@[k].rows@.len() > 0
                },
        decreases groups.len() - a,
    {
        let group = &groups[a];
        proof {
            lemma_month_records_display(records, group.month);
        }
        match format_output_month_total(&group.records, group.month) {
            Some(report) => {
                months.push(report);
            },
            None => {
                proof {
                    let of_month = records_of_month(records, group.month);
                    let i = choose|i: int|
                        0 <= i < group.records.len() && display_row(
                            #[trigger] views(group.records@)[i],
                        ) is None;
                    assert(in_month(of_month[i], group.month));
                }
                // Not reached: the records of a group all have a reading.
                return months;
            },
        }
        a += 1;
    }
    proof {
        let reports = months@;
        assert forall|x: int, y: int| 0 <= x < y < reports.len() implies (
        #[trigger] reports[x]).month.precedes((#[trigger] reports[y]).month) by {
            assert(groups@[x].month.precedes(groups@[y].month));
        }
        assert forall|i: int| 0 <= i < records.len() implies {
            &&& month_of((#[trigger] records[i]).updated_at) is Some
            &&& has_report(reports, month_of(records[i].updated_at)->0)
        } by {
            let key = month_of(records[i].updated_at)->0;
            assert(has_month(groups@, key));
            let k = choose|k: int| 0 <= k < groups@.len() && (#[trigger] groups@[k]).month == key;
            assert(reports[k].month == key);
        }
    }
    months
}

/// How an edit or a deletion ended without an error.
#[derive(Clone, Copy, Debug, PartialEq, Eq, Structural)]
pub enum Outcome {
    /// The user said yes and the change was written.
    Committed,
    /// The user gave it up; nothing was written.
    Aborted,
}

/// An optional value, or `fallback` in its place.
pub open spec fn or_else<T>(choice: Option<T>, fallback: T) -> T {
    match choice {
        Some(value) => value,
        None => fallback,
    }
}

/// The record `cur` with the fields that a patch names laid over it. The
/// id and the instant of creation stay; the instant of the last change
/// becomes `now`. There is no such record where the patch names an amount
/// that may not be entered.
pub open spec fn patched(
    cur: AmountView,
    amount: Option<Seq<char>>,
    in_or_out: Option<bool>,
    add_msg: Option<Seq<char>>,
    now: Instant,
) -> Option<AmountView> {
    if amount is Some && entry_cents(amount->0) is None {
        None
    } else {
        Some(
            AmountView {
                id: cur.id,
                amount: if amount is Some {
                    entry_cents(amount->0)->0
                } else {
                    cur.amount
                },
                in_or_out: or_else(in_or_out, cur.in_or_out),
                append_msg: or_else(add_msg, cur.append_msg),
                created_at: cur.created_at,
                updated_at: now,
            },
        )
    }
}

/// Lays the fields that `args` names over the record `cur`.
pub fn overlay(cur: &Amount, args: &PatchRecordArgs, now: Instant) -> (r: Result<
    Amount,
    LedgerError,
>)
    ensures
        match r {
            Ok(next) => patched(
                cur@,
                text_of(args.amount),
                args.in_or_out,
                text_of(args.add_msg),
                now,
            ) == Some(next@),
            Err(e) => e == LedgerError::InvalidAmount && patched(
                cur@,
                text_of(args.amount),
                args.in_or_out,
                text_of(args.add_msg),
                now,
            ) is None,
        },
{
    let amount = match &args.amount {
        Some(text) => match positive_cents(text.as_str()) {
            Ok(cents) => cents,
            Err(e) => {
                return Err(e);
            },
        },
        None => cur.amount,
    };
    let in_or_out = match args.in_or_out {
        Some(flag) => flag,
        None => cur.in_or_out,
    };
    let append_msg = match &args.add_msg {
        Some(text) => text.clone(),
        None => cur.append_msg.clone(),
    };
    Ok(
        Amount {
            id: cur.id,
            amount,
            in_or_out,
            append_msg,
            created_at: cur.created_at,
            updated_at: now,
        },
    )
}

/// A patch leaves the id and the instant of creation alone and puts the
/// instant of the last change at `now`.
pub proof fn lemma_patch_keeps_creation(
    cur: AmountView,
    amount: Option<Seq<char>>,
    in_or_out: Option<bool>,
    add_msg: Option<Seq<char>>,
    now: Instant,
)
    requires
        patched(cur, amount, in_or_out, add_msg, now) is Some,
    ensures
        patched(cur, amount, in_or_out, add_msg, now)->0.id == cur.id,
        patched(cur, amount, in_or_out, add_msg, now)->0.created_at == cur.created_at,
        patched(cur, amount, in_or_out, add_msg, now)->0.updated_at == now,
{
}

/// Where the clock has not gone back behind the record's last change, a
/// patch does not move the last change back either, and a record that was
/// not changed before it was made stays so.
pub proof fn lemma_patch_moves_forward(
    cur: AmountView,
    amount: Option<Seq<char>>,
    in_or_out: Option<bool>,
    add_msg: Option<Seq<char>>,
    now: Instant,
)
    requires
        patched(cur, amount, in_or_out, add_msg, now) is Some,
        cur.updated_at.secs <= now.secs,
    ensures
        cur.updated_at.secs <= patched(cur, amount, in_or_out, add_msg, now)->0.updated_at.secs,
        cur.wf() ==> patched(cur, amount, in_or_out, add_msg, now)->0.wf(),
{
}

/// The month under which a single record is shown.
pub open spec fn shown_month(record: AmountView) -> MonthKey {
    month_of(record.updated_at)->0
}

/// The report that shows a single record, or `Internal` where the display
/// clock has no reading for its last change.
pub fn single_report(record: &Amount) -> (r: Result<MonthReport, LedgerError>)
    ensures
        match r {
            Ok(report) => display_of(record.updated_at) is Some && report.describes(
                seq![record@],
                shown_month(record@),
            ),
            Err(e) => e == LedgerError::Internal && display_of(record.updated_at) is None,
        },
{
    let key = match crate::clock::month_key_of(record.updated_at) {
        Some(key) => key,
        None => {
            return Err(LedgerError::Internal);
        },
    };
    let mut one: Vec<Amount> = Vec::new();
    one.push(record.clone());
    assert(views(one@) =~= seq![record@]);
    match format_output_month_total(&one, key) {
        Some(report) => Ok(report),
        None => {
            // Not reached: the month was read from the same instant.
            assert(display_row(views(one@)[0]) is None);
            Err(LedgerError::Internal)
        },
    }
}

/// A patch that was loaded and can be shown: the record as it is, and as
/// it would be.
#[derive(Debug, PartialEq, Eq)]
pub struct PendingPatch {
    /// The record as it is stored.
    pub current: Amount,
    /// The record as the patch would leave it.
    pub next: Amount,
    /// The report that shows the record as it is.
    pub before: MonthReport,
    /// The report that shows the record as it would be.
    pub after: MonthReport,
}

/// Why a patch cannot be prepared, if it cannot: no record has the id; or
/// the amount may not be entered; or the display clock has no reading for
/// the record as it is or as it would be.
pub open spec fn patch_failure(
    rows: Seq<AmountView>,
    id: i32,
    amount: Option<Seq<char>>,
    now: Instant,
) -> Option<LedgerError> {
    if !has_id(rows, id) {
        Some(LedgerError::NotFound)
    } else if amount is Some && entry_cents(amount->0) is None {
        Some(LedgerError::InvalidAmount)
    } else if display_of(row_of_id(rows, id).updated_at) is None || display_of(now) is None {
        Some(LedgerError::Internal)
    } else {
        None
    }
}

/// Loads the record that `args` names and prepares what is shown before
/// the user is asked: the record as it is, and with the patch laid over it.
pub fn prepare_patch(args: &PatchRecordArgs, store: &Store, now: Instant) -> (r: Result<
    PendingPatch,
    LedgerError,
>)
    requires
        store.wf(),
    ensures
        match r {
            Ok(pending) => {
                &&& patch_failure(store@.rows, args.id, text_of(args.amount), now) is None
                &&& pending.current@ == row_of_id(store@.rows, args.id)
                &&& patched(
                    pending.current@,
                    text_of(args.amount),
                    args.in_or_out,
                    text_of(args.add_msg),
                    now,
                ) == Some(pending.next@)
                &&& pending.before.describes(
                    seq![pending.current@],
                    shown_month(pending.current@),
                )
                &&& pending.after.describes(seq![pending.next@], shown_month(pending.next@))
            },
            Err(e) => patch_failure(store@.rows, args.id, text_of(args.amount), now) == Some(e),
        },
{
    let current = match store.get(args.id) {
        Ok(current) => current,
        Err(e) => {
            return Err(e);
        },
    };
    let next = match overlay(&current, args, now) {
        Ok(next) => next,
        Err(e) => {
            return Err(e);
        },
    };
    let before = match single_report(&current) {
        Ok(report) => report,
        Err(e) => {
            return Err(e);
        },
    };
    let after = match single_report(&next) {
        Ok(report) => report,
        Err(e) => {
            return Err(e);
        },
    };
    Ok(PendingPatch { current, next, before, after })
}

/// Takes the answer and, on a yes, writes the record `next` over the stored
/// record of its id. Anything but a yes ends the edit with nothing written.
/// Fails with `Internal`, with nothing written, where the write does not
/// affect exactly one row.
pub fn apply_patch(next: &Amount, store: &mut Store, answer: &str) -> (r: Result<
    Outcome,
    LedgerError,
>)
    requires
        old(store).wf(),
    ensures
        final(store).wf(),
        match r {
            Ok(Outcome::Aborted) => !accepts(answer@) && final(store)@ == old(store)@,
            Ok(Outcome::Committed) => {
                &&& accepts(answer@)
                &&& has_id(old(store)@.rows, next.id)
                &&& final(store)@ == old(store)@.updated(
                    next.id,
                    next.amount,
                    next.in_or_out,
                    next.append_msg@,
                    next.updated_at,
                )
            },
            Err(e) => {
                &&& e == LedgerError::Internal
                &&& accepts(answer@)
                &&& !has_id(old(store)@.rows, next.id)
                &&& final(store)@ == old(store)@
            },
        },
{
    let shown = Stage::Loaded.advance(Signal::Shown);
    let answered = match shown {
        Some(stage) => stage.advance(Signal::Answered(confirmed(answer))),
        None => None,
    };
    match answered {
        Some(Stage::Confirmed) => {
            let affected = match store.update(
                next.id,
                next.amount,
                next.in_or_out,
                next.append_msg.clone(),
                next.updated_at,
            ) {
                Ok(affected) => affected,
                Err(_) => 0,
            };
            match Stage::Confirmed.advance(Signal::Stored(affected)) {
                Some(Stage::Committed) => Ok(Outcome::Committed),
                _ => Err(LedgerError::Internal),
            }
        },
        _ => Ok(Outcome::Aborted),
    }
}

/// Changes the record that `args` names: the fields that `args` gives are
/// laid over it and the instant of its last change becomes `now`, if the
/// user's answer is a yes. Anything but a yes gives the edit up, which is
/// no error. On failure, and when the edit is given up, the store is
/// unchanged.
pub fn patch_record(args: &PatchRecordArgs, store: &mut Store, now: Instant, answer: &str) -> (r:
    Result<Outcome, LedgerError>)
    requires
        old(store).wf(),
    ensures
        final(store).wf(),
        match r {
            Ok(outcome) => {
                &&& patch_failure(old(store)@.rows, args.id, text_of(args.amount), now) is None
                &&& outcome == (if accepts(answer@) {
                    Outcome::Committed
                } else {
                    Outcome::Aborted
                })
            },
            Err(e) => patch_failure(old(store)@.rows, args.id, text_of(args.amount), now) == Some(
                e,
            ),
        },
        r == Ok::<Outcome, LedgerError>(Outcome::Committed) ==> final(store)@ == {
            let next = patched(
                row_of_id(old(store)@.rows, args.id),
                text_of(args.amount),
                args.in_or_out,
                text_of(args.add_msg),
                now,
            )->0;
            old(store)@.updated(args.id, next.amount, next.in_or_out, next.append_msg, now)
        },
        r == Ok::<Outcome, LedgerError>(Outcome::Committed) ==> has_id(
            final(store)@.rows,
            args.id,
        ) && row_of_id(final(store)@.rows, args.id) == patched(
            row_of_id(old(store)@.rows, args.id),
            text_of(args.amount),
            args.in_or_out,
            text_of(args.add_msg),
            now,
        )->0,
        r != Ok::<Outcome, LedgerError>(Outcome::Committed) ==> final(store)@ == old(store)@,
{
    let pending = match prepare_patch(args, store, now) {
        Ok(pending) => pending,
        Err(e) => {
            return Err(e);
        },
    };
    proof {
        crate::table::lemma_update_changes_one_row(
            store@,
            args.id,
            pending.next.amount,
            pending.next.in_or_out,
            pending.next.append_msg@,
            now,
        );
    }
    match apply_patch(&pending.next, store, answer) {
        Ok(outcome) => Ok(outcome),
        Err(e) => {
            // Not reached: the record was found a moment ago.
            Err(e)
        },
    }
}

/// A deletion that was loaded and can be shown.
#[derive(Debug, PartialEq, Eq)]
pub struct PendingDelete {
    /// The record as it is stored.
    pub current: Amount,
    /// The report that shows it.
    pub report: MonthReport,
}

/// Why a deletion cannot be prepared, if it cannot: no record has the id,
/// or the display clock has no reading for the record.
pub open spec fn delete_failure(rows: Seq<AmountView>, id: i32) -> Option<LedgerError> {
    if !has_id(rows, id) {
        Some(LedgerError::NotFound)
    } else if display_of(row_of_id(rows, id).updated_at) is None {
        Some(LedgerError::Internal)
    } else {
        None
    }
}

/// Loads the record that `args` names and prepares what is shown before
/// the user is asked.
pub fn prepare_delete(args: &DeleteRecordArgs, store: &Store) -> (r: Result<
    PendingDelete,
    LedgerError,
>)
    requires
        store.wf(),
    ensures
        match r {
            Ok(pending) => {
                &&& delete_failure(store@.rows, args.id) is None
                &&& pending.current@ == row_of_id(store@.rows, args.id)
                &&& pending.report.describes(
                    seq![pending.current@],
                    shown_month(pending.current@),
                )
            },
            Err(e) => delete_failure(store@.rows, args.id) == Some(e),
        },
{
    let current = match store.get(args.id) {
        Ok(current) => current,
        Err(e) => {
            return Err(e);
        },
    };
    let report = match single_report(&current) {
        Ok(report) => report,
        Err(e) => {
            return Err(e);
        },
    };
    Ok(PendingDelete { current, report })
}

/// Takes the answer and, on a yes, takes the record of the id `id` out of the
/// store. Anything but a yes ends the deletion with nothing written. Fails
/// with `Internal`, with nothing written, where the write does not affect
/// exactly one row.
pub fn apply_delete(id: i32, store: &mut Store, answer: &str) -> (r: Result<Outcome, LedgerError>)
    requires
        old(store).wf(),
    ensures
        final(store).wf(),
        match r {
            Ok(Outcome::Aborted) => !accepts(answer@) && final(store)@ == old(store)@,
            Ok(Outcome::Committed) => {
                &&& accepts(answer@)
                &&& has_id(old(store)@.rows, id)
                &&& final(store)@ == old(store)@.deleted(id)
            },
            Err(e) => {
                &&& e == LedgerError::Internal
                &&& accepts(answer@)
                &&& !has_id(old(store)@.rows, id)
                &&& final(store)@ == old(store)@
            },
        },
{
    let shown = Stage::Loaded.advance(Signal::Shown);
    let answered = match shown {
        Some(stage) => stage.advance(Signal::Answered(confirmed(answer))),
        None => None,
    };
    match answered {
        Some(Stage::Confirmed) => {
            proof {
                crate::table::lemma_without_id(store@.rows, id);
            }
            let affected = match store.delete(id) {
                Ok(affected) => affected,
                Err(_) => 0,
            };
            match Stage::Confirmed.advance(Signal::Stored(affected)) {
                Some(Stage::Committed) => Ok(Outcome::Committed),
                _ => Err(LedgerError::Internal),
            }
        },
        _ => Ok(Outcome::Aborted),
    }
}

/// Deletes the record that `args` names, if the user's answer is a yes.
/// Anything but a yes gives the deletion up, which is no error. On failure,
/// and when the deletion is given up, the store is unchanged.
pub fn delete_record(args: &DeleteRecordArgs, store: &mut Store, answer: &str) -> (r: Result<
    Outcome,
    LedgerError,
>)
    requires
        old(store).wf(),
    ensures
        final(store).wf(),
        match r {
            Ok(outcome) => {
                &&& delete_failure(old(store)@.rows, args.id) is None
                &&& outcome == (if accepts(answer@) {
                    Outcome::Committed
                } else {
                    Outcome::Aborted
                })
            },
            Err(e) => delete_failure(old(store)@.rows, args.id) == Some(e),
        },
        r == Ok::<Outcome, LedgerError>(Outcome::Committed) ==> final(store)@ == old(
            store,
        )@.deleted(args.id) && !has_id(final(store)@.rows, args.id),
        r != Ok::<Outcome, LedgerError>(Outcome::Committed) ==> final(store)@ == old(store)@,
{
    let pending = match prepare_delete(args, store) {
        Ok(pending) => pending,
        Err(e) => {
            return Err(e);
        },
    };
    proof {
        crate::table::lemma_delete_removes_one_row(store@, args.id);
    }
    match apply_delete(args.id, store, answer) {
        Ok(outcome) => Ok(outcome),
        Err(e) => {
            // Not reached: the record was found a moment ago.
            Err(e)
        },
    }
}

} // verus!
