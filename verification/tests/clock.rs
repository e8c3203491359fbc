use rustance::clock::{
    bounds_from_days, inverse_utc8, month_bounds, month_key_of, to_display, Instant,
    LocalDateTime, MonthKey,
};
use rustance::error::LedgerError;

fn reading(year: u32, month: u32, day: u32, hour: u32, minute: u32, second: u32) -> LocalDateTime {
    LocalDateTime { year, month, day, hour, minute, second }
}

#[test]
fn display_clock_is_eight_hours_ahead() {
    // 2024-03-15T10:20:30Z
    assert_eq!(to_display(Instant::from_unix(1_710_498_030)), Some(reading(2024, 3, 15, 18, 20, 30)));
    assert_eq!(to_display(Instant::from_unix(0)), Some(reading(1970, 1, 1, 8, 0, 0)));
}

#[test]
fn display_clock_carries_into_the_next_day_and_month() {
    // 2024-01-31T20:00:00Z
    assert_eq!(to_display(Instant::from_unix(1_706_731_200)), Some(reading(2024, 2, 1, 4, 0, 0)));
    // 2024-01-31T15:59:59Z and one second later
    assert_eq!(to_display(Instant::from_unix(1_706_716_799)), Some(reading(2024, 1, 31, 23, 59, 59)));
    assert_eq!(to_display(Instant::from_unix(1_706_716_800)), Some(reading(2024, 2, 1, 0, 0, 0)));
}

#[test]
fn display_clock_reads_instants_before_the_epoch() {
    assert_eq!(to_display(Instant::from_unix(-1)), Some(reading(1970, 1, 1, 7, 59, 59)));
    assert_eq!(to_display(Instant::from_unix(-28_800)), Some(reading(1970, 1, 1, 0, 0, 0)));
    assert_eq!(to_display(Instant::from_unix(-28_801)), Some(reading(1969, 12, 31, 23, 59, 59)));
}

#[test]
fn display_clock_reads_only_years_of_four_digits() {
    let first = -62_167_248_000i64;
    let last = 253_402_271_999i64;
    assert_eq!(to_display(Instant::from_unix(first)), Some(reading(0, 1, 1, 0, 0, 0)));
    assert_eq!(to_display(Instant::from_unix(first - 1)), None);
    assert_eq!(to_display(Instant::from_unix(last)), Some(reading(9999, 12, 31, 23, 59, 59)));
    assert_eq!(to_display(Instant::from_unix(last + 1)), None);
}

#[test]
fn display_clock_has_no_reading_at_the_ends_of_time() {
    assert_eq!(to_display(Instant::from_unix(i64::MAX)), None);
    assert_eq!(to_display(Instant::from_unix(i64::MIN)), None);
    assert_eq!(to_display(Instant::from_unix(i64::MAX - 28_800)), None);
    assert_eq!(to_display(Instant::from_unix(185542587158400)), None);
    assert_eq!(to_display(Instant::from_unix(185542587158399)), None);
    assert_eq!(to_display(Instant::from_unix(-185542587216000)), None);
    assert_eq!(to_display(Instant::from_unix(-185542587216001)), None);
}

#[test]
fn reading_is_assembled_from_date_and_second_of_day() {
    assert_eq!(
        LocalDateTime::assemble(Some((2024, 2, 29)), 86_399),
        Some(reading(2024, 2, 29, 23, 59, 59))
    );
    assert_eq!(LocalDateTime::assemble(Some((2024, 2, 29)), 3_661), Some(reading(2024, 2, 29, 1, 1, 1)));
    assert_eq!(LocalDateTime::assemble(Some((2024, 2, 29)), 86_400), None);
    assert_eq!(LocalDateTime::assemble(Some((10_000, 1, 1)), 0), None);
    assert_eq!(LocalDateTime::assemble(Some((-1, 12, 31)), 0), None);
    assert_eq!(LocalDateTime::assemble(Some((2024, 0, 1)), 0), None);
    assert_eq!(LocalDateTime::assemble(Some((2024, 13, 1)), 0), None);
    assert_eq!(LocalDateTime::assemble(Some((2024, 1, 0)), 0), None);
    assert_eq!(LocalDateTime::assemble(Some((2024, 1, 32)), 0), None);
    assert_eq!(LocalDateTime::assemble(None, 0), None);
}

#[test]
fn reading_is_written_with_padded_fields() {
    assert_eq!(reading(2024, 2, 1, 4, 0, 0).format(), "2024-02-01 04:00:00");
    assert_eq!(reading(7, 11, 30, 23, 59, 9).format(), "0007-11-30 23:59:09");
    assert_eq!(reading(9999, 12, 31, 0, 5, 50).format(), "9999-12-31 00:05:50");
}

#[test]
fn late_january_utc_is_february_on_the_display_clock() {
    assert_eq!(
        month_key_of(Instant::from_unix(1_706_731_200)),
        Some(MonthKey { year: 2024, month: 2 })
    );
    assert_eq!(
        month_key_of(Instant::from_unix(1_706_716_799)),
        Some(MonthKey { year: 2024, month: 1 })
    );
    assert_eq!(month_key_of(Instant::from_unix(i64::MAX)), None);
}

#[test]
fn month_bounds_are_local_midnights_as_utc() {
    let (start, end) = month_bounds(MonthKey { year: 2024, month: 2 }).unwrap();
    assert_eq!(start, Instant::from_unix(1_706_716_800));
    assert_eq!(end, Instant::from_unix(1_709_222_400));
    let (start, end) = month_bounds(MonthKey { year: 2024, month: 1 }).unwrap();
    assert_eq!(start, Instant::from_unix(1_704_038_400));
    assert_eq!(end, Instant::from_unix(1_706_716_800));
}

#[test]
fn month_bounds_carry_the_year_after_december() {
    let (start, end) = month_bounds(MonthKey { year: 2024, month: 12 }).unwrap();
    assert_eq!(start, Instant::from_unix(1_732_982_400));
    assert_eq!(end, Instant::from_unix(1_735_660_800));
    assert_eq!(to_display(end), Some(reading(2025, 1, 1, 0, 0, 0)));
}

#[test]
fn month_bounds_reach_both_ends_of_the_four_digit_years() {
    let (start, _) = month_bounds(MonthKey { year: 0, month: 1 }).unwrap();
    assert_eq!(start, Instant::from_unix(-62_167_248_000));
    let (_, end) = month_bounds(MonthKey { year: 9999, month: 12 }).unwrap();
    assert_eq!(end, Instant::from_unix(253_402_272_000));
}

#[test]
fn month_bounds_are_none_for_what_is_no_month() {
    assert_eq!(month_bounds(MonthKey { year: 2024, month: 0 }), None);
    assert_eq!(month_bounds(MonthKey { year: 2024, month: 13 }), None);
    assert_eq!(month_bounds(MonthKey { year: 10_000, month: 1 }), None);
    assert_eq!(month_bounds(MonthKey { year: u32::MAX, month: 12 }), None);
}

#[test]
fn month_range_holds_the_instants_of_its_month_only() {
    let late_january_utc = Instant::from_unix(1_706_731_200);
    let (start, end) = month_bounds(MonthKey { year: 2024, month: 2 }).unwrap();
    assert!(!late_january_utc.is_before(&start) && late_january_utc.is_before(&end));
    let (start, end) = month_bounds(MonthKey { year: 2024, month: 1 }).unwrap();
    assert!(!late_january_utc.is_before(&start) && !late_january_utc.is_before(&end));
}

#[test]
fn every_instant_of_a_month_range_reads_as_that_month() {
    for month in 1..=12u32 {
        let key = MonthKey { year: 2023, month };
        let (start, end) = month_bounds(key).unwrap();
        assert_eq!(month_key_of(start), Some(key));
        assert_eq!(month_key_of(Instant::from_unix(end.secs - 1)), Some(key));
        assert_ne!(month_key_of(end), Some(key));
        assert_ne!(month_key_of(Instant::from_unix(start.secs - 1)), Some(key));
    }
}

#[test]
fn local_midnight_is_eight_hours_before_utc_midnight() {
    assert_eq!(inverse_utc8(0), Instant::from_unix(-28_800));
    assert_eq!(inverse_utc8(1), Instant::from_unix(57_600));
    assert_eq!(inverse_utc8(19_754), Instant::from_unix(1_706_716_800));
    assert_eq!(inverse_utc8(i32::MAX), Instant::from_unix(185542587072000));
    assert_eq!(inverse_utc8(i32::MIN), Instant::from_unix(-185542587216000));
}

#[test]
fn bounds_need_both_days() {
    assert_eq!(
        bounds_from_days(Some(0), Some(31)),
        Some((Instant::from_unix(-28_800), Instant::from_unix(31 * 86_400 - 28_800)))
    );
    assert_eq!(bounds_from_days(None, Some(31)), None);
    assert_eq!(bounds_from_days(Some(0), None), None);
    assert_eq!(bounds_from_days(None, None), None);
}

#[test]
fn month_is_read_from_year_hyphen_month() {
    assert_eq!(MonthKey::parse("2024-02"), Ok(MonthKey { year: 2024, month: 2 }));
    assert_eq!(MonthKey::parse("0000-01"), Ok(MonthKey { year: 0, month: 1 }));
    assert_eq!(MonthKey::parse("9999-12"), Ok(MonthKey { year: 9999, month: 12 }));
}

#[test]
fn month_outside_one_to_twelve_is_rejected() {
    assert_eq!(MonthKey::parse("2024-00"), Err(LedgerError::InvalidTime));
    assert_eq!(MonthKey::parse("2024-13"), Err(LedgerError::InvalidTime));
    assert_eq!(MonthKey::parse("2024-99"), Err(LedgerError::InvalidTime));
}

#[test]
fn month_of_another_shape_is_rejected() {
    for text in [
        "", "2024", "2024-", "2024-2", "24-02", "02024-02", "2024/02", "2024-02-01", "202402",
        "2024-0a", "20a4-02", " 2024-02", "2024-02 ", "2024 02", "-024-02", "2024--2", "２０２４-02",
        "2024-1２",
    ] {
        assert_eq!(MonthKey::parse(text), Err(LedgerError::InvalidTime), "{:?}", text);
    }
}

#[test]
fn month_is_written_as_year_hyphen_month() {
    assert_eq!(MonthKey { year: 2024, month: 2 }.format(), "2024-02");
    assert_eq!(MonthKey { year: 7, month: 11 }.format(), "0007-11");
    assert_eq!(MonthKey { year: 9999, month: 12 }.format(), "9999-12");
}

#[test]
fn written_months_read_back() {
    for year in [0u32, 1, 999, 1970, 2024, 9999] {
        for month in 1..=12u32 {
            let key = MonthKey { year, month };
            assert_eq!(MonthKey::parse(&key.format()), Ok(key));
        }
    }
}

#[test]
fn months_are_ordered_by_year_then_month() {
    let a = MonthKey { year: 2023, month: 12 };
    let b = MonthKey { year: 2024, month: 1 };
    let c = MonthKey { year: 2024, month: 2 };
    assert!(a.is_before(&b) && b.is_before(&c) && a.is_before(&c));
    assert!(!b.is_before(&a) && !c.is_before(&b) && !b.is_before(&b));
}
