use rustance::cli_customs::{AmountArgs, DeleteRecordArgs, ListAllArgs, PatchRecordArgs};
use rustance::clock::{Instant, MonthKey};
use rustance::error::{exit_code, LedgerError};
use rustance::process::{
    apply_delete, apply_patch, delete_record, inserted_line, insert_in_or_out_come, list_all,
    overlay, patch_record, positive_cents, prepare_delete, prepare_patch, single_report, Amount,
    AmountPrecise, Listing, Outcome,
};
use rustance::record::Direction;
use rustance::store::Store;

// 2024-05-01T12:00:00Z, 20:00 on the display clock.
const MAY_1: i64 = 1_714_564_800;
// 2024-05-02T12:00:00Z
const MAY_2: i64 = 1_714_651_200;
// 2024-06-10T00:00:00Z
const JUNE_10: i64 = 1_717_977_600;

fn at(secs: i64) -> Instant {
    Instant::from_unix(secs)
}

fn amount(text: &str, note: Option<&str>) -> AmountArgs {
    AmountArgs { amount: text.to_string(), add_msg: note.map(|n| n.to_string()) }
}

fn everything() -> ListAllArgs {
    ListAllArgs { time: None }
}

fn month(text: &str) -> ListAllArgs {
    ListAllArgs { time: Some(text.to_string()) }
}

fn patch(id: i32, amount: Option<&str>, in_or_out: Option<bool>, note: Option<&str>) -> PatchRecordArgs {
    PatchRecordArgs {
        id,
        amount: amount.map(|a| a.to_string()),
        in_or_out,
        add_msg: note.map(|n| n.to_string()),
    }
}

fn income(store: &mut Store, text: &str, note: Option<&str>, secs: i64) -> Amount {
    insert_in_or_out_come(&amount(text, note), store, true, at(secs)).unwrap()
}

fn outcome(store: &mut Store, text: &str, note: Option<&str>, secs: i64) -> Amount {
    insert_in_or_out_come(&amount(text, note), store, false, at(secs)).unwrap()
}

fn shown(id: i32, amount: &str, in_or_out: bool, note: &str, updated_at: &str) -> AmountPrecise {
    AmountPrecise {
        id,
        amount: amount.to_string(),
        in_or_out,
        append_msg: note.to_string(),
        updated_at: updated_at.to_string(),
    }
}

fn listing(store: &Store) -> Listing {
    list_all(&everything(), store).unwrap()
}

#[test]
fn first_income_is_listed_with_its_total() {
    let mut store = Store::new();
    let record = income(&mut store, "12.34", Some("lunch"), MAY_1);
    assert_eq!(record.id, 1);
    let listing = listing(&store);
    assert_eq!(listing.months.len(), 1);
    let report = &listing.months[0];
    assert_eq!(report.month, MonthKey { year: 2024, month: 5 });
    assert_eq!(report.rows, vec![shown(1, "12.34", true, "lunch", "2024-05-01 20:00:00")]);
    let overall = listing.overall.unwrap();
    assert_eq!(overall.amount, "12.34");
    assert_eq!(overall.direction, Direction::In);
    assert_eq!(overall.cents, 1_234);
}

#[test]
fn income_less_outcome_is_the_overall_total() {
    let mut store = Store::new();
    income(&mut store, "100", None, MAY_1);
    outcome(&mut store, "25.5", Some("taxi"), MAY_2);
    let listing = listing(&store);
    let overall = listing.overall.unwrap();
    assert_eq!(overall.amount, "74.50");
    assert_eq!(overall.direction, Direction::In);
    assert_eq!(listing.months.len(), 1);
    assert_eq!(
        listing.months[0].rows,
        vec![
            shown(1, "100.00", true, "", "2024-05-01 20:00:00"),
            shown(2, "25.50", false, "taxi", "2024-05-02 20:00:00"),
        ]
    );
    assert_eq!(listing.months[0].total_cents, 7_450);
    assert_eq!(listing.months[0].total_direction, Direction::In);
}

#[test]
fn confirmed_patch_changes_the_amount_and_the_time_of_change() {
    let mut store = Store::new();
    income(&mut store, "100", None, MAY_1);
    outcome(&mut store, "25.5", Some("taxi"), MAY_1);
    let r = patch_record(&patch(2, Some("30"), None, None), &mut store, at(MAY_2), "y");
    assert_eq!(r, Ok(Outcome::Committed));
    let row = store.get(2).unwrap();
    assert_eq!(row.amount, 3_000);
    assert_eq!(row.updated_at, at(MAY_2));
    assert_eq!(row.created_at, at(MAY_1));
    assert!(!row.in_or_out);
    assert_eq!(row.append_msg, "taxi");
    let listing = listing(&store);
    assert_eq!(listing.months[0].rows[1], shown(2, "30.00", false, "taxi", "2024-05-02 20:00:00"));
    assert_eq!(listing.overall.unwrap().amount, "70.00");
}

#[test]
fn delete_needs_a_yes() {
    let mut store = Store::new();
    income(&mut store, "1", None, MAY_1);
    income(&mut store, "2", None, MAY_1);
    income(&mut store, "3", None, MAY_1);
    let before = store.list_all();
    assert_eq!(delete_record(&DeleteRecordArgs { id: 1 }, &mut store, "no"), Ok(Outcome::Aborted));
    assert_eq!(store.list_all(), before);
    assert!(store.get(1).is_ok());
    assert_eq!(delete_record(&DeleteRecordArgs { id: 1 }, &mut store, "Y"), Ok(Outcome::Committed));
    assert_eq!(store.get(1), Err(LedgerError::NotFound));
    let ids: Vec<i32> = store.list_all().iter().map(|r| r.id).collect();
    assert_eq!(ids, vec![2, 3]);
}

#[test]
fn month_filter_goes_by_the_display_clock() {
    let mut store = Store::new();
    // 2024-01-31T23:30:00Z is 2024-02-01 07:30 on the display clock.
    income(&mut store, "5", Some("late"), 1_706_743_800);
    // 2024-01-31T15:59:59Z is still January there.
    income(&mut store, "6", Some("january"), 1_706_716_799);
    // 2024-02-29T16:00:00Z is already March there.
    income(&mut store, "7", Some("march"), 1_709_222_400);
    let february = list_all(&month("2024-02"), &store).unwrap();
    assert_eq!(february.months.len(), 1);
    assert_eq!(february.months[0].month, MonthKey { year: 2024, month: 2 });
    assert_eq!(february.months[0].rows, vec![shown(1, "5.00", true, "late", "2024-02-01 07:30:00")]);
    assert!(february.overall.is_none());
    let january = list_all(&month("2024-01"), &store).unwrap();
    assert_eq!(january.months.len(), 1);
    assert_eq!(january.months[0].rows, vec![shown(2, "6.00", true, "january", "2024-01-31 23:59:59")]);
}

#[test]
fn evening_of_january_31_utc_is_listed_under_february() {
    let mut store = Store::new();
    // 2024-01-31T20:00:00Z
    income(&mut store, "1", None, 1_706_731_200);
    let all = listing(&store);
    assert_eq!(all.months.len(), 1);
    assert_eq!(all.months[0].month.format(), "2024-02");
    assert_eq!(list_all(&month("2024-02"), &store).unwrap().months.len(), 1);
    assert_eq!(list_all(&month("2024-01"), &store).unwrap().months.len(), 0);
}

#[test]
fn negative_amount_is_refused_and_nothing_is_stored() {
    let mut store = Store::new();
    let r = insert_in_or_out_come(&amount("-5", None), &mut store, true, at(MAY_1));
    assert_eq!(r, Err(LedgerError::InvalidAmount));
    assert_eq!(exit_code(&r), 2);
    assert!(LedgerError::InvalidAmount.message().contains("invalid amount"));
    assert_eq!(store.len(), 0);
    assert_eq!(store.next_id(), 1);
}

#[test]
fn zero_and_malformed_amounts_are_refused() {
    let mut store = Store::new();
    for text in ["0", "0.0", "0.00", "000", "1.234", "abc", "", "1e2", "42949672.96"] {
        let r = insert_in_or_out_come(&amount(text, None), &mut store, false, at(MAY_1));
        assert_eq!(r, Err(LedgerError::InvalidAmount), "{:?}", text);
    }
    assert_eq!(store.len(), 0);
    assert_eq!(positive_cents("0.01"), Ok(1));
    assert_eq!(positive_cents("0"), Err(LedgerError::InvalidAmount));
    assert_eq!(positive_cents("42949672.95"), Ok(u32::MAX));
}

#[test]
fn new_entry_is_made_and_changed_at_the_same_instant() {
    let mut store = Store::new();
    let record = outcome(&mut store, "8.5", Some("tea"), MAY_2);
    assert_eq!(
        record,
        Amount {
            id: 1,
            amount: 850,
            in_or_out: false,
            append_msg: "tea".to_string(),
            created_at: at(MAY_2),
            updated_at: at(MAY_2),
        }
    );
    assert_eq!(store.get(1), Ok(record));
    let plain = income(&mut store, "1", None, MAY_2);
    assert_eq!(plain.append_msg, "");
    assert_eq!(plain.id, 2);
}

#[test]
fn entry_at_an_instant_without_reading_is_refused() {
    let mut store = Store::new();
    for secs in [i64::MAX, i64::MIN, 253_402_272_000, -62_167_248_001] {
        let r = insert_in_or_out_come(&amount("1", None), &mut store, true, at(secs));
        assert_eq!(r, Err(LedgerError::Internal));
    }
    assert_eq!(store.len(), 0);
    let bad_amount_first = insert_in_or_out_come(&amount("x", None), &mut store, true, at(i64::MAX));
    assert_eq!(bad_amount_first, Err(LedgerError::InvalidAmount));
}

#[test]
fn entry_fails_when_the_ids_are_used_up() {
    let mut store = Store::restore(vec![], i32::MAX).unwrap();
    let r = insert_in_or_out_come(&amount("1", None), &mut store, true, at(MAY_1));
    assert_eq!(r, Err(LedgerError::Io));
    assert_eq!(store.len(), 0);
}

#[test]
fn confirmation_line_names_direction_and_amount() {
    let mut store = Store::new();
    let a = income(&mut store, "12.34", None, MAY_1);
    let b = outcome(&mut store, "5", None, MAY_1);
    assert_eq!(inserted_line(&a), "Inserted income record with amount: 12.34");
    assert_eq!(inserted_line(&b), "Inserted outcome record with amount: 5.00");
}

#[test]
fn totals_fold_the_sign_of_each_record() {
    let mut store = Store::new();
    income(&mut store, "10", None, MAY_1);
    outcome(&mut store, "25.5", None, MAY_1);
    outcome(&mut store, "0.01", None, JUNE_10);
    income(&mut store, "4", None, JUNE_10);
    let listing = listing(&store);
    assert_eq!(listing.months.len(), 2);
    let may = &listing.months[0];
    assert_eq!(may.total_cents, -1_550);
    assert_eq!(may.total_direction, Direction::Out);
    assert_eq!(may.total_row, shown(0, "15.50", false, "Month Total", ""));
    let june = &listing.months[1];
    assert_eq!(june.total_cents, 399);
    assert_eq!(june.total_direction, Direction::In);
    assert_eq!(june.total_row, shown(0, "3.99", true, "Month Total", ""));
    let overall = listing.overall.unwrap();
    assert_eq!(overall.cents, -1_151);
    assert_eq!(overall.direction, Direction::Out);
    assert_eq!(overall.amount, "11.51");
}

#[test]
fn total_of_zero_is_reported_as_in() {
    let mut store = Store::new();
    income(&mut store, "3", None, MAY_1);
    outcome(&mut store, "3", None, MAY_1);
    let listing = listing(&store);
    assert_eq!(listing.months[0].total_cents, 0);
    assert_eq!(listing.months[0].total_direction, Direction::In);
    assert_eq!(listing.months[0].total_row, shown(0, "0.00", true, "Month Total", ""));
    let overall = listing.overall.unwrap();
    assert_eq!((overall.cents, overall.direction, overall.amount.as_str()), (0, Direction::In, "0.00"));
}

#[test]
fn empty_ledger_lists_no_month_and_a_total_of_zero() {
    let store = Store::new();
    let listing = listing(&store);
    assert!(listing.months.is_empty());
    let overall = listing.overall.unwrap();
    assert_eq!((overall.cents, overall.direction, overall.amount.as_str()), (0, Direction::In, "0.00"));
    let filtered = list_all(&month("2024-05"), &store).unwrap();
    assert!(filtered.months.is_empty());
    assert!(filtered.overall.is_none());
}

#[test]
fn months_ascend_and_rows_follow_the_last_change() {
    let mut store = Store::new();
    income(&mut store, "1", Some("june"), JUNE_10);
    income(&mut store, "2", Some("may, later"), MAY_2);
    income(&mut store, "3", Some("may, earlier"), MAY_1);
    income(&mut store, "4", Some("may, earlier too"), MAY_1);
    // 2023-12-31T16:00:00Z is 2024-01-01 00:00:00 on the display clock.
    income(&mut store, "5", Some("new year"), 1_704_038_400);
    // One second earlier it is still 2023 there.
    income(&mut store, "6", Some("old year"), 1_704_038_399);
    let listing = listing(&store);
    let months: Vec<String> = listing.months.iter().map(|m| m.month.format()).collect();
    assert_eq!(months, vec!["2023-12", "2024-01", "2024-05", "2024-06"]);
    let may: Vec<i32> = listing.months[2].rows.iter().map(|r| r.id).collect();
    assert_eq!(may, vec![3, 4, 2]);
    assert_eq!(listing.months[0].rows[0].updated_at, "2023-12-31 23:59:59");
    assert_eq!(listing.months[1].rows[0].updated_at, "2024-01-01 00:00:00");
    let mut sorted = months.clone();
    sorted.sort();
    assert_eq!(months, sorted);
}

#[test]
fn month_totals_add_up_to_the_overall_total() {
    let mut store = Store::new();
    income(&mut store, "10.10", None, MAY_1);
    outcome(&mut store, "99.99", None, MAY_2);
    income(&mut store, "42949672.95", None, JUNE_10);
    outcome(&mut store, "0.05", None, 1_704_038_400);
    let listing = listing(&store);
    let by_month: i128 = listing.months.iter().map(|m| m.total_cents).sum();
    assert_eq!(by_month, listing.overall.unwrap().cents);
    assert_eq!(by_month, 1_010 - 9_999 + 4_294_967_295 - 5);
}

#[test]
fn closing_row_comes_last_in_the_table() {
    let mut store = Store::new();
    income(&mut store, "1", None, MAY_1);
    income(&mut store, "2", None, MAY_2);
    let listing = listing(&store);
    let rows = listing.months[0].table_rows();
    assert_eq!(rows.len(), 3);
    assert_eq!(rows[0].id, 1);
    assert_eq!(rows[1].id, 2);
    assert_eq!(rows[2], shown(0, "3.00", true, "Month Total", ""));
}

#[test]
fn filter_that_names_no_month_is_refused() {
    let mut store = Store::new();
    income(&mut store, "1", None, MAY_1);
    for text in ["2024-13", "2024-00", "202405", "2024-5", "May", "", "2024-05-01", "24-05"] {
        let r = list_all(&month(text), &store);
        assert_eq!(r, Err(LedgerError::InvalidTime), "{:?}", text);
        assert_eq!(exit_code(&r), 2);
    }
}

#[test]
fn listing_fails_on_a_record_without_reading() {
    let mut store = Store::new();
    income(&mut store, "1", None, MAY_1);
    store.insert(5, true, String::new(), at(0), at(i64::MAX)).unwrap();
    assert_eq!(list_all(&everything(), &store), Err(LedgerError::Internal));
    assert!(list_all(&month("2024-05"), &store).is_ok());
}

#[test]
fn patch_lays_only_the_named_fields_over_the_record() {
    let mut store = Store::new();
    income(&mut store, "10", Some("first"), MAY_1);
    assert_eq!(
        patch_record(&patch(1, None, Some(false), None), &mut store, at(MAY_2), "yes"),
        Ok(Outcome::Committed)
    );
    let row = store.get(1).unwrap();
    assert_eq!((row.amount, row.in_or_out, row.append_msg.as_str()), (1_000, false, "first"));
    assert_eq!(
        patch_record(&patch(1, None, None, Some("second")), &mut store, at(JUNE_10), "yes"),
        Ok(Outcome::Committed)
    );
    let row = store.get(1).unwrap();
    assert_eq!((row.amount, row.in_or_out, row.append_msg.as_str()), (1_000, false, "second"));
    assert_eq!(row.updated_at, at(JUNE_10));
    assert_eq!(row.created_at, at(MAY_1));
    assert_eq!(
        patch_record(&patch(1, Some("0.5"), Some(true), Some("")), &mut store, at(JUNE_10 + 1), "y"),
        Ok(Outcome::Committed)
    );
    let row = store.get(1).unwrap();
    assert_eq!((row.amount, row.in_or_out, row.append_msg.as_str()), (50, true, ""));
}

#[test]
fn patch_without_fields_still_moves_the_time_of_change() {
    let mut store = Store::new();
    income(&mut store, "10", Some("a"), MAY_1);
    income(&mut store, "20", Some("b"), MAY_2);
    assert_eq!(
        patch_record(&patch(1, None, None, None), &mut store, at(JUNE_10), "y"),
        Ok(Outcome::Committed)
    );
    let ids: Vec<i32> = store.list_all().iter().map(|r| r.id).collect();
    assert_eq!(ids, vec![2, 1]);
    assert_eq!(store.get(1).unwrap().updated_at, at(JUNE_10));
    assert_eq!(store.get(1).unwrap().created_at, at(MAY_1));
    assert_eq!(store.next_id(), 3);
}

#[test]
fn anything_but_a_yes_leaves_the_ledger_as_it_was() {
    let mut store = Store::new();
    income(&mut store, "10", Some("a"), MAY_1);
    outcome(&mut store, "20", Some("b"), MAY_2);
    let before = listing(&store);
    let rows = store.list_all();
    for answer in ["", "n", "no", "nope", "yess", " ", "\n", "ye", "y!", "0", "yes please"] {
        let r = patch_record(&patch(1, Some("99"), Some(false), Some("x")), &mut store, at(JUNE_10), answer);
        assert_eq!(r, Ok(Outcome::Aborted), "{:?}", answer);
        assert_eq!(exit_code(&r), 0);
        let r = delete_record(&DeleteRecordArgs { id: 2 }, &mut store, answer);
        assert_eq!(r, Ok(Outcome::Aborted), "{:?}", answer);
        assert_eq!(listing(&store), before);
        assert_eq!(store.list_all(), rows);
    }
}

#[test]
fn a_yes_with_white_space_or_capitals_goes_through() {
    for answer in [" y ", "yes", "Y", "YES\n", "\tYes\r\n"] {
        let mut store = Store::new();
        income(&mut store, "10", None, MAY_1);
        let r = patch_record(&patch(1, Some("11"), None, None), &mut store, at(MAY_2), answer);
        assert_eq!(r, Ok(Outcome::Committed), "{:?}", answer);
        assert_eq!(store.get(1).unwrap().amount, 1_100);
        let r = delete_record(&DeleteRecordArgs { id: 1 }, &mut store, answer);
        assert_eq!(r, Ok(Outcome::Committed), "{:?}", answer);
        assert_eq!(store.len(), 0);
    }
}

#[test]
fn patch_of_a_missing_record_is_not_found() {
    let mut store = Store::new();
    income(&mut store, "10", None, MAY_1);
    for id in [0, 2, -1, i32::MAX, i32::MIN] {
        let r = patch_record(&patch(id, Some("1"), None, None), &mut store, at(MAY_2), "y");
        assert_eq!(r, Err(LedgerError::NotFound));
        let r = delete_record(&DeleteRecordArgs { id }, &mut store, "y");
        assert_eq!(r, Err(LedgerError::NotFound));
    }
    // A missing record is reported before a bad amount.
    let r = patch_record(&patch(9, Some("-1"), None, None), &mut store, at(MAY_2), "y");
    assert_eq!(r, Err(LedgerError::NotFound));
    assert_eq!(store.get(1).unwrap().amount, 1_000);
}

#[test]
fn patch_with_a_bad_amount_is_refused_even_on_a_yes() {
    let mut store = Store::new();
    income(&mut store, "10", None, MAY_1);
    for text in ["0", "-3", "1.234", "x", ""] {
        let r = patch_record(&patch(1, Some(text), Some(false), None), &mut store, at(MAY_2), "y");
        assert_eq!(r, Err(LedgerError::InvalidAmount), "{:?}", text);
    }
    let row = store.get(1).unwrap();
    assert_eq!((row.amount, row.in_or_out, row.updated_at), (1_000, true, at(MAY_1)));
}

#[test]
fn patch_at_an_instant_without_reading_is_refused() {
    let mut store = Store::new();
    income(&mut store, "10", None, MAY_1);
    let r = patch_record(&patch(1, Some("1"), None, None), &mut store, at(i64::MAX), "y");
    assert_eq!(r, Err(LedgerError::Internal));
    assert_eq!(store.get(1).unwrap().updated_at, at(MAY_1));
    store.insert(5, true, String::new(), at(0), at(i64::MIN)).unwrap();
    let r = patch_record(&patch(2, Some("1"), None, None), &mut store, at(MAY_2), "y");
    assert_eq!(r, Err(LedgerError::Internal));
    let r = delete_record(&DeleteRecordArgs { id: 2 }, &mut store, "y");
    assert_eq!(r, Err(LedgerError::Internal));
    assert_eq!(store.len(), 2);
}

#[test]
fn patch_with_a_clock_set_back_takes_the_earlier_instant() {
    let mut store = Store::new();
    income(&mut store, "10", None, MAY_2);
    let r = patch_record(&patch(1, None, None, Some("back")), &mut store, at(MAY_1), "y");
    assert_eq!(r, Ok(Outcome::Committed));
    let row = store.get(1).unwrap();
    assert_eq!(row.updated_at, at(MAY_1));
    assert_eq!(row.created_at, at(MAY_2));
}

#[test]
fn overlay_keeps_id_and_creation() {
    let cur = Amount {
        id: 4,
        amount: 500,
        in_or_out: true,
        append_msg: "old".to_string(),
        created_at: at(MAY_1),
        updated_at: at(MAY_2),
    };
    let next = overlay(&cur, &patch(99, Some("7.5"), Some(false), Some("new")), at(JUNE_10)).unwrap();
    assert_eq!(
        next,
        Amount {
            id: 4,
            amount: 750,
            in_or_out: false,
            append_msg: "new".to_string(),
            created_at: at(MAY_1),
            updated_at: at(JUNE_10),
        }
    );
    assert_eq!(overlay(&cur, &patch(4, Some("0"), None, None), at(JUNE_10)), Err(LedgerError::InvalidAmount));
    let same = overlay(&cur, &patch(4, None, None, None), at(JUNE_10)).unwrap();
    assert_eq!((same.amount, same.in_or_out, same.append_msg.as_str()), (500, true, "old"));
}

#[test]
fn preview_shows_the_record_before_and_after() {
    let mut store = Store::new();
    income(&mut store, "10", Some("a"), MAY_1);
    let pending = prepare_patch(&patch(1, Some("30"), None, Some("b")), &store, at(JUNE_10)).unwrap();
    assert_eq!(pending.current, store.get(1).unwrap());
    assert_eq!(pending.next.amount, 3_000);
    assert_eq!(pending.before.month, MonthKey { year: 2024, month: 5 });
    assert_eq!(pending.before.rows, vec![shown(1, "10.00", true, "a", "2024-05-01 20:00:00")]);
    assert_eq!(pending.before.total_row, shown(0, "10.00", true, "Month Total", ""));
    assert_eq!(pending.after.month, MonthKey { year: 2024, month: 6 });
    assert_eq!(pending.after.rows, vec![shown(1, "30.00", true, "b", "2024-06-10 08:00:00")]);
    // Preparing writes nothing.
    assert_eq!(store.get(1).unwrap().amount, 1_000);
    assert_eq!(apply_patch(&pending.next, &mut store, "n"), Ok(Outcome::Aborted));
    assert_eq!(store.get(1).unwrap().amount, 1_000);
    assert_eq!(apply_patch(&pending.next, &mut store, "y"), Ok(Outcome::Committed));
    assert_eq!(store.get(1).unwrap(), pending.next);
}

#[test]
fn preview_of_a_deletion_shows_the_record() {
    let mut store = Store::new();
    outcome(&mut store, "4.2", Some("gone soon"), MAY_1);
    let pending = prepare_delete(&DeleteRecordArgs { id: 1 }, &store).unwrap();
    assert_eq!(pending.current, store.get(1).unwrap());
    assert_eq!(pending.report.rows, vec![shown(1, "4.20", false, "gone soon", "2024-05-01 20:00:00")]);
    assert_eq!(pending.report.total_row, shown(0, "4.20", false, "Month Total", ""));
    assert_eq!(prepare_delete(&DeleteRecordArgs { id: 2 }, &store).map(|p| p.current), Err(LedgerError::NotFound));
}

#[test]
fn a_write_that_finds_no_row_is_an_internal_failure() {
    let mut store = Store::new();
    income(&mut store, "10", None, MAY_1);
    let pending = prepare_patch(&patch(1, Some("30"), None, None), &store, at(MAY_2)).unwrap();
    store.delete(1).unwrap();
    assert_eq!(apply_patch(&pending.next, &mut store, "y"), Err(LedgerError::Internal));
    assert_eq!(apply_delete(1, &mut store, "y"), Err(LedgerError::Internal));
    assert_eq!(apply_patch(&pending.next, &mut store, "no"), Ok(Outcome::Aborted));
    assert_eq!(apply_delete(1, &mut store, "no"), Ok(Outcome::Aborted));
    assert_eq!(store.len(), 0);
}

#[test]
fn single_report_needs_a_reading() {
    let ok = Amount {
        id: 3,
        amount: 1,
        in_or_out: false,
        append_msg: String::new(),
        created_at: at(0),
        updated_at: at(0),
    };
    let report = single_report(&ok).unwrap();
    assert_eq!(report.month, MonthKey { year: 1970, month: 1 });
    assert_eq!(report.rows, vec![shown(3, "0.01", false, "", "1970-01-01 08:00:00")]);
    assert_eq!(report.total_cents, -1);
    let lost = Amount { updated_at: at(i64::MAX), ..ok };
    assert_eq!(single_report(&lost), Err(LedgerError::Internal));
}

#[test]
fn ids_keep_increasing_through_edits_and_deletions() {
    let mut store = Store::new();
    let mut issued = Vec::new();
    for round in 0..5i64 {
        let a = income(&mut store, "1", None, MAY_1 + round);
        let b = outcome(&mut store, "2", None, MAY_1 + round);
        issued.push(a.id);
        issued.push(b.id);
        delete_record(&DeleteRecordArgs { id: a.id }, &mut store, "y").unwrap();
        patch_record(&patch(b.id, Some("3"), None, None), &mut store, at(MAY_2 + round), "y").unwrap();
    }
    assert_eq!(issued, (1..=10).collect::<Vec<i32>>());
    let listed: Vec<i32> = store.list_all().iter().map(|r| r.id).collect();
    assert_eq!(listed, vec![2, 4, 6, 8, 10]);
}

#[test]
fn tenths_add_up_exactly() {
    let mut store = Store::new();
    income(&mut store, "0.1", None, MAY_1);
    income(&mut store, "0.2", None, MAY_1);
    let listing = listing(&store);
    assert_eq!(listing.overall.unwrap().amount, "0.30");
    assert_eq!(listing.months[0].total_cents, 30);
    let stored: Vec<u32> = store.list_all().iter().map(|r| r.amount).collect();
    assert_eq!(stored, vec![10, 20]);
}

#[test]
fn amounts_near_zero_keep_their_direction() {
    let mut store = Store::new();
    outcome(&mut store, "0.01", None, MAY_1);
    let listing = listing(&store);
    let overall = listing.overall.unwrap();
    assert_eq!((overall.cents, overall.direction, overall.amount.as_str()), (-1, Direction::Out, "0.01"));
}
