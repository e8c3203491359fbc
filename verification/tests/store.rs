use rustance::clock::Instant;
use rustance::error::LedgerError;
use rustance::record::Amount;
use rustance::store::Store;

fn at(secs: i64) -> Instant {
    Instant::from_unix(secs)
}

fn row(id: i32, amount: u32, in_or_out: bool, note: &str, created: i64, updated: i64) -> Amount {
    Amount {
        id,
        amount,
        in_or_out,
        append_msg: note.to_string(),
        created_at: at(created),
        updated_at: at(updated),
    }
}

fn ids(rows: &[Amount]) -> Vec<i32> {
    rows.iter().map(|r| r.id).collect()
}

#[test]
fn a_new_store_is_empty_and_starts_at_one() {
    let store = Store::new();
    assert_eq!(store.len(), 0);
    assert_eq!(store.next_id(), 1);
    assert_eq!(store.list_all(), vec![]);
}

#[test]
fn insert_gives_out_increasing_ids() {
    let mut store = Store::new();
    assert_eq!(store.insert(100, true, "a".to_string(), at(10), at(10)), Ok(1));
    assert_eq!(store.insert(200, false, "b".to_string(), at(5), at(5)), Ok(2));
    assert_eq!(store.insert(300, true, String::new(), at(20), at(20)), Ok(3));
    assert_eq!(store.next_id(), 4);
    assert_eq!(store.len(), 3);
}

#[test]
fn insert_stores_what_it_was_given() {
    let mut store = Store::new();
    assert_eq!(store.insert(1_234, true, "lunch".to_string(), at(7), at(9)), Ok(1));
    assert_eq!(store.get(1), Ok(row(1, 1_234, true, "lunch", 7, 9)));
}

#[test]
fn ids_are_not_given_out_again_after_a_delete() {
    let mut store = Store::new();
    assert_eq!(store.insert(1, true, String::new(), at(1), at(1)), Ok(1));
    assert_eq!(store.insert(2, true, String::new(), at(2), at(2)), Ok(2));
    assert_eq!(store.delete(2), Ok(1));
    assert_eq!(store.insert(3, true, String::new(), at(3), at(3)), Ok(3));
    assert_eq!(store.delete(1), Ok(1));
    assert_eq!(store.delete(3), Ok(1));
    assert_eq!(store.len(), 0);
    assert_eq!(store.insert(4, true, String::new(), at(4), at(4)), Ok(4));
    assert_eq!(ids(&store.list_all()), vec![4]);
}

#[test]
fn insert_fails_when_the_ids_are_used_up() {
    let mut store = Store::restore(vec![row(5, 1, true, "", 1, 1)], i32::MAX).unwrap();
    assert_eq!(store.insert(1, true, String::new(), at(1), at(1)), Err(LedgerError::Io));
    assert_eq!(store.len(), 1);
    assert_eq!(store.next_id(), i32::MAX);
    let mut store = Store::restore(vec![], i32::MAX - 1).unwrap();
    assert_eq!(store.insert(1, true, String::new(), at(1), at(1)), Ok(i32::MAX - 1));
    assert_eq!(store.insert(1, true, String::new(), at(1), at(1)), Err(LedgerError::Io));
}

#[test]
fn get_of_a_missing_id_is_not_found() {
    let mut store = Store::new();
    assert_eq!(store.get(1), Err(LedgerError::NotFound));
    store.insert(1, true, String::new(), at(1), at(1)).unwrap();
    assert_eq!(store.get(0), Err(LedgerError::NotFound));
    assert_eq!(store.get(2), Err(LedgerError::NotFound));
    assert_eq!(store.get(-1), Err(LedgerError::NotFound));
}

#[test]
fn records_are_listed_by_last_change_then_id() {
    let mut store = Store::new();
    store.insert(1, true, String::new(), at(30), at(30)).unwrap();
    store.insert(2, true, String::new(), at(10), at(10)).unwrap();
    store.insert(3, true, String::new(), at(30), at(30)).unwrap();
    store.insert(4, true, String::new(), at(20), at(20)).unwrap();
    store.insert(5, true, String::new(), at(10), at(10)).unwrap();
    assert_eq!(ids(&store.list_all()), vec![2, 5, 4, 1, 3]);
}

#[test]
fn range_takes_its_start_and_leaves_its_end() {
    let mut store = Store::new();
    for secs in [9, 10, 11, 19, 20, 21] {
        store.insert(1, true, String::new(), at(secs), at(secs)).unwrap();
    }
    assert_eq!(ids(&store.list_range(at(10), at(20))), vec![2, 3, 4]);
    assert_eq!(ids(&store.list_range(at(20), at(10))), Vec::<i32>::new());
    assert_eq!(ids(&store.list_range(at(10), at(10))), Vec::<i32>::new());
    assert_eq!(ids(&store.list_range(at(i64::MIN), at(i64::MAX))), vec![1, 2, 3, 4, 5, 6]);
    assert_eq!(ids(&store.list_range(at(21), at(22))), vec![6]);
}

#[test]
fn range_goes_by_the_last_change_not_by_the_creation() {
    let mut store = Store::new();
    store.insert(1, true, String::new(), at(5), at(15)).unwrap();
    store.insert(1, true, String::new(), at(15), at(25)).unwrap();
    assert_eq!(ids(&store.list_range(at(10), at(20))), vec![1]);
}

#[test]
fn update_replaces_the_fields_and_keeps_id_and_creation() {
    let mut store = Store::new();
    store.insert(100, true, "old".to_string(), at(10), at(10)).unwrap();
    store.insert(200, true, "other".to_string(), at(20), at(20)).unwrap();
    assert_eq!(store.update(1, 3_000, false, "new".to_string(), at(30)), Ok(1));
    assert_eq!(store.get(1), Ok(row(1, 3_000, false, "new", 10, 30)));
    assert_eq!(store.get(2), Ok(row(2, 200, true, "other", 20, 20)));
    assert_eq!(ids(&store.list_all()), vec![2, 1]);
    assert_eq!(store.next_id(), 3);
}

#[test]
fn update_of_a_missing_id_is_not_found_and_changes_nothing() {
    let mut store = Store::new();
    store.insert(100, true, "a".to_string(), at(10), at(10)).unwrap();
    let before = store.list_all();
    assert_eq!(store.update(2, 1, false, "x".to_string(), at(99)), Err(LedgerError::NotFound));
    assert_eq!(store.list_all(), before);
    assert_eq!(store.next_id(), 2);
}

#[test]
fn delete_removes_just_the_record_of_the_id() {
    let mut store = Store::new();
    for secs in [1, 2, 3] {
        store.insert(secs as u32, true, String::new(), at(secs), at(secs)).unwrap();
    }
    assert_eq!(store.delete(2), Ok(1));
    assert_eq!(store.list_all(), vec![row(1, 1, true, "", 1, 1), row(3, 3, true, "", 3, 3)]);
    assert_eq!(store.get(2), Err(LedgerError::NotFound));
    assert_eq!(store.delete(2), Err(LedgerError::NotFound));
    assert_eq!(store.len(), 2);
}

#[test]
fn restore_puts_the_rows_in_listing_order() {
    let rows = vec![
        row(3, 30, true, "c", 1, 50),
        row(1, 10, false, "a", 1, 70),
        row(7, 70, true, "g", 1, 50),
        row(2, 20, true, "b", 1, 5),
    ];
    let store = Store::restore(rows, 9).unwrap();
    assert_eq!(ids(&store.list_all()), vec![2, 3, 7, 1]);
    assert_eq!(store.next_id(), 9);
    assert_eq!(store.get(1), Ok(row(1, 10, false, "a", 1, 70)));
}

#[test]
fn restore_then_insert_continues_with_the_next_id() {
    let mut store = Store::restore(vec![row(2, 20, true, "b", 1, 5)], 6).unwrap();
    assert_eq!(store.insert(1, true, String::new(), at(1), at(1)), Ok(6));
    assert_eq!(ids(&store.list_all()), vec![6, 2]);
}

#[test]
fn restore_rejects_ids_that_are_not_those_of_a_table() {
    let two_alike = vec![row(1, 1, true, "", 1, 1), row(2, 1, true, "", 1, 1), row(1, 1, true, "", 2, 2)];
    assert!(matches!(Store::restore(two_alike, 5), Err(LedgerError::Io)));
    assert!(matches!(Store::restore(vec![row(0, 1, true, "", 1, 1)], 5), Err(LedgerError::Io)));
    assert!(matches!(Store::restore(vec![row(-3, 1, true, "", 1, 1)], 5), Err(LedgerError::Io)));
    assert!(matches!(Store::restore(vec![row(5, 1, true, "", 1, 1)], 5), Err(LedgerError::Io)));
    assert!(matches!(Store::restore(vec![], 0), Err(LedgerError::Io)));
    assert!(matches!(Store::restore(vec![], -1), Err(LedgerError::Io)));
    assert!(Store::restore(vec![row(4, 1, true, "", 1, 1)], 5).is_ok());
    assert!(Store::restore(vec![], 1).is_ok());
}
