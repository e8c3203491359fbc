//! Instants in UTC, their reading on the display clock eight hours east of
//! UTC, and the months of that clock.
//!
//! Instants are counted in seconds since 1970-01-01T00:00:00Z. The calendar
//! itself, which day number is which date, is chrono's: this module asks it
//! through two small functions and does the arithmetic around them.

use crate::digits::{
    all_digits, digit_char, digit_of, digits_value, lemma_digit_order, lemma_four_digits_value,
    lemma_padded_four, lemma_padded_two, lemma_two_digits_value, padded, push_padded, text_before,
};
use crate::error::LedgerError;
use vstd::prelude::*;

verus! {

/// How far the display clock is ahead of UTC, in seconds: eight hours.
pub const DISPLAY_OFFSET_SECS: i64 = 28_800;

/// The seconds of one day.
pub const SECS_PER_DAY: i64 = 86_400;

/// The date on which chrono's `NaiveDate::from_epoch_days` puts the day that
/// lies `day` days after 1970-01-01, as year, month and day of the month;
/// `None` where chrono has no date for it.
pub uninterp spec fn date_of_epoch_day(day: i32) -> Option<(i32, u32, u32)>;

/// The number of days from 1970-01-01 to the date that chrono's
/// `NaiveDate::from_ymd_opt` makes of a year, a month and a day of the month;
/// `None` where chrono makes no date of them.
pub uninterp spec fn epoch_day_of_date(year: i32, month: u32, day: u32) -> Option<i32>;

/// Asks chrono for the date of a day number: `NaiveDate::from_epoch_days`,
/// then the date's `year`, `month` and `day`. Nothing is claimed of the answer
/// but that it is chrono's.
#[verifier::external_body]
fn civil_date(day: i32) -> (date: Option<(i32, u32, u32)>)
    ensures
        date == date_of_epoch_day(day),
{
    match chrono::NaiveDate::from_epoch_days(day) {
        Some(d) => Some(
            (chrono::Datelike::year(&d), chrono::Datelike::month(&d), chrono::Datelike::day(&d)),
        ),
        None => None,
    }
}

/// Asks chrono for the day number of a date: `NaiveDate::from_ymd_opt`, then
/// the date's `to_epoch_days`. Nothing is claimed of the answer but that it
/// is chrono's.
#[verifier::external_body]
fn epoch_day(year: i32, month: u32, day: u32) -> (number: Option<i32>)
    ensures
        number == epoch_day_of_date(year, month, day),
{
    match chrono::NaiveDate::from_ymd_opt(year, month, day) {
        Some(d) => Some(d.to_epoch_days()),
        None => None,
    }
}

/// A point in time, in whole seconds since 1970-01-01T00:00:00Z.
#[derive(Clone, Copy, Debug, PartialEq, Eq, Structural)]
pub struct Instant {
    pub secs: i64,
}

impl Instant {
    /// The instant `secs` seconds after the epoch.
    pub fn from_unix(secs: i64) -> (t: Instant)
        ensures
            t.secs == secs,
    {
        Instant { secs }
    }

    /// Whether this instant comes strictly before `other`.
    pub fn is_before(&self, other: &Instant) -> (b: bool)
        ensures
            b == (self.secs < other.secs),
    {
        self.secs < other.secs
    }
}

/// A month of a year on the display clock.
#[derive(Clone, Copy, Debug, PartialEq, Eq, Structural)]
pub struct MonthKey {
    pub year: u32,
    pub month: u32,
}

/// A date and time of day on the display clock.
#[derive(Clone, Copy, Debug, PartialEq, Eq, Structural)]
pub struct LocalDateTime {
    pub year: u32,
    pub month: u32,
    pub day: u32,
    pub hour: u32,
    pub minute: u32,
    pub second: u32,
}

/// The text of a month: four digits of year, a hyphen, two digits of month.
pub open spec fn month_text(key: MonthKey) -> Seq<char> {
    padded(key.year as nat, 4) + seq!['-'] + padded(key.month as nat, 2)
}

/// The month that a text of the shape `YYYY-MM` names, if it names one.
pub open spec fn parse_month(s: Seq<char>) -> Option<MonthKey> {
    if s.len() == 7 && all_digits(s.subrange(0, 4)) && s[4] == '-' && all_digits(s.subrange(5, 7))
        && 1 <= digits_value(s.subrange(5, 7)) <= 12 {
        Some(
            MonthKey {
                year: digits_value(s.subrange(0, 4)) as u32,
                month: digits_value(s.subrange(5, 7)) as u32,
            },
        )
    } else {
        None
    }
}

/// The text of a date and time: `YYYY-MM-DD HH:MM:SS`.
pub open spec fn date_time_text(t: LocalDateTime) -> Seq<char> {
    padded(t.year as nat, 4) + seq!['-'] + padded(t.month as nat, 2) + seq!['-'] + padded(
        t.day as nat,
        2,
    ) + seq![' '] + padded(t.hour as nat, 2) + seq![':'] + padded(t.minute as nat, 2) + seq![':']
        + padded(t.second as nat, 2)
}

/// The month after a month, with the year carried after December.
pub open spec fn following_month(year: int, month: int) -> (int, int) {
    if month == 12 {
        (year + 1, 1)
    } else {
        (year, month + 1)
    }
}

/// The instant at which the display clock reads midnight at the start of
/// the day `day` days after 1970-01-01.
pub open spec fn local_midnight(day: int) -> int {
    day * SECS_PER_DAY - DISPLAY_OFFSET_SECS
}

/// The first instant of a month of the display clock, where chrono has the
/// month's first day.
pub open spec fn month_start(year: int, month: int) -> Option<Instant> {
    match epoch_day_of_date(year as i32, month as u32, 1) {
        Some(day) => Some(Instant { secs: local_midnight(day as int) as i64 }),
        None => None,
    }
}

/// The instants between which a month of the display clock lies: its first
/// instant, and the first instant of the month after it. There are none for
/// a key that is no month of a four-digit year.
pub open spec fn bounds_of(key: MonthKey) -> Option<(Instant, Instant)> {
    let next = following_month(key.year as int, key.month as int);
    if key.wf() {
        match (month_start(key.year as int, key.month as int), month_start(next.0, next.1)) {
            (Some(start), Some(end)) => Some((start, end)),
            _ => None,
        }
    } else {
        None
    }
}

/// The reading made of a date and a second of its day: the date must lie in
/// the years 0 to 9999 and be a plausible day of a month, and the second
/// within one day.
pub open spec fn reading_of(date: Option<(i32, u32, u32)>, second_of_day: int) -> Option<
    LocalDateTime,
> {
    match date {
        Some((year, month, day)) => {
            if 0 <= year <= 9999 && 1 <= month <= 12 && 1 <= day <= 31 && 0 <= second_of_day
                < SECS_PER_DAY {
                Some(
                    LocalDateTime {
                        year: year as u32,
                        month,
                        day,
                        hour: (second_of_day / 3600) as u32,
                        minute: ((second_of_day % 3600) / 60) as u32,
                        second: (second_of_day % 60) as u32,
                    },
                )
            } else {
                None
            }
        },
        None => None,
    }
}

/// What the display clock reads at an instant: the instant moved eight hours
/// ahead, split into its day and the second of that day, the day turned into
/// a date. `None` where the day is out of chrono's reach or the year has not
/// four digits.
pub open spec fn display_of(t: Instant) -> Option<LocalDateTime> {
    let local = t.secs + DISPLAY_OFFSET_SECS;
    let day = local / SECS_PER_DAY as int;
    if i32::MIN <= day <= i32::MAX {
        reading_of(date_of_epoch_day(day as i32), local % SECS_PER_DAY as int)
    } else {
        None
    }
}

/// The month of the display clock in which an instant falls.
pub open spec fn month_of(t: Instant) -> Option<MonthKey> {
    match display_of(t) {
        Some(reading) => Some(reading.month_key()),
        None => None,
    }
}

impl LocalDateTime {
    /// Whether the fields are those of a clock: a year of four digits, a
    /// month, a day of a month, and a time of day.
    pub open spec fn wf(self) -> bool {
        &&& self.year <= 9999
        &&& 1 <= self.month <= 12
        &&& 1 <= self.day <= 31
        &&& self.hour < 24
        &&& self.minute < 60
        &&& self.second < 60
    }

    /// The month of this reading.
    pub open spec fn month_key(self) -> MonthKey {
        MonthKey { year: self.year, month: self.month }
    }

    /// Makes the reading of a date, as chrono gave it, and a second of that
    /// day.
    pub fn assemble(date: Option<(i32, u32, u32)>, second_of_day: u32) -> (r: Option<
        LocalDateTime,
    >)
        ensures
            r == reading_of(date, second_of_day as int),
            r is Some ==> r->0.wf(),
    {
        match date {
            Some((year, month, day)) => {
                if 0 <= year && year <= 9999 && 1 <= month && month <= 12 && 1 <= day && day <= 31
                    && second_of_day < 86_400 {
                    Some(
                        LocalDateTime {
                            year: year as u32,
                            month,
                            day,
                            hour: second_of_day / 3600,
                            minute: (second_of_day % 3600) / 60,
                            second: second_of_day % 60,
                        },
                    )
                } else {
                    None
                }
            },
            None => None,
        }
    }

    /// The month of this reading.
    pub fn month(&self) -> (key: MonthKey)
        ensures
            key == self.month_key(),
    {
        MonthKey { year: self.year, month: self.month }
    }

    /// Writes the reading as `YYYY-MM-DD HH:MM:SS`.
    pub fn format(&self) -> (text: String)
        ensures
            text@ == date_time_text(*self),
    {
        proof {
            reveal_strlit("-");
            reveal_strlit(" ");
            reveal_strlit(":");
        }
        let mut text = String::new();
        push_padded(&mut text, self.year, 4);
        text.append("-");
        push_padded(&mut text, self.month, 2);
        text.append("-");
        push_padded(&mut text, self.day, 2);
        text.append(" ");
        push_padded(&mut text, self.hour, 2);
        text.append(":");
        push_padded(&mut text, self.minute, 2);
        text.append(":");
        push_padded(&mut text, self.second, 2);
        assert(text@ =~= date_time_text(*self));
        text
    }
}

impl MonthKey {
    /// Whether this is a month of a year of four digits.
    pub open spec fn wf(self) -> bool {
        self.year <= 9999 && 1 <= self.month <= 12
    }

    /// Whether this month comes before `other`.
    pub open spec fn precedes(self, other: MonthKey) -> bool {
        self.year < other.year || (self.year == other.year && self.month < other.month)
    }

    /// Whether this month comes before `other`.
    pub fn is_before(&self, other: &MonthKey) -> (b: bool)
        ensures
            b == self.precedes(*other),
    {
        self.year < other.year || (self.year == other.year && self.month < other.month)
    }

    /// Reads a month written as `YYYY-MM`. Any other shape, and a month
    /// outside 1 to 12, is rejected.
    pub fn parse(s: &str) -> (r: Result<MonthKey, LedgerError>)
        ensures
            match r {
                Ok(key) => parse_month(s@) == Some(key) && key.wf(),
                Err(e) => e == LedgerError::InvalidTime && parse_month(s@) is None,
            },
    {
        if s.unicode_len() != 7 {
            return Err(LedgerError::InvalidTime);
        }
        let ghost year_part = s@.subrange(0, 4);
        let ghost month_part = s@.subrange(5, 7);
        assert(year_part[0] == s@[0] && year_part[1] == s@[1] && year_part[2] == s@[2]
            && year_part[3] == s@[3]);
        assert(month_part[0] == s@[5] && month_part[1] == s@[6]);
        let y0 = digit_of(s.get_char(0));
        let y1 = digit_of(s.get_char(1));
        let y2 = digit_of(s.get_char(2));
        let y3 = digit_of(s.get_char(3));
        let m0 = digit_of(s.get_char(5));
        let m1 = digit_of(s.get_char(6));
        if s.get_char(4) != '-' {
            return Err(LedgerError::InvalidTime);
        }
        match (y0, y1, y2, y3, m0, m1) {
            (Some(a), Some(b), Some(c), Some(d), Some(e), Some(f)) => {
                let year: u32 = 1000 * (a as u32) + 100 * (b as u32) + 10 * (c as u32) + (d as u32);
                let month: u32 = 10 * (e as u32) + (f as u32);
                assert(all_digits(year_part));
                assert(all_digits(month_part));
                proof {
                    lemma_four_digits_value(year_part);
                    lemma_two_digits_value(month_part);
                }
                if 1 <= month && month <= 12 {
                    Ok(MonthKey { year, month })
                } else {
                    Err(LedgerError::InvalidTime)
                }
            },
            _ => {
                assert(!all_digits(year_part) || !all_digits(month_part));
                Err(LedgerError::InvalidTime)
            },
        }
    }

    /// Writes the month as `YYYY-MM`.
    pub fn format(&self) -> (text: String)
        ensures
            text@ == month_text(*self),
    {
        proof {
            reveal_strlit("-");
        }
        let mut text = String::new();
        push_padded(&mut text, self.year, 4);
        text.append("-");
        push_padded(&mut text, self.month, 2);
        assert(text@ =~= month_text(*self));
        text
    }
}

/// The instant at which the display clock reads midnight at the start of a
/// day, given as its number of days after 1970-01-01: that midnight, moved
/// eight hours back to UTC.
pub fn inverse_utc8(day: i32) -> (t: Instant)
    ensures
        t.secs == local_midnight(day as int),
{
    Instant { secs: (day as i64) * SECS_PER_DAY - DISPLAY_OFFSET_SECS }
}

/// The bounds of a month from the day numbers of its first day and of the
/// first day of the month after it, as chrono gave them.
pub fn bounds_from_days(first: Option<i32>, next_first: Option<i32>) -> (r: Option<
    (Instant, Instant),
>)
    ensures
        r == match (first, next_first) {
            (Some(a), Some(b)) => Some(
                (
                    Instant { secs: local_midnight(a as int) as i64 },
                    Instant { secs: local_midnight(b as int) as i64 },
                ),
            ),
            _ => None::<(Instant, Instant)>,
        },
{
    match (first, next_first) {
        (Some(a), Some(b)) => Some((inverse_utc8(a), inverse_utc8(b))),
        _ => None,
    }
}

/// The half-open range of instants that make up a month of the display
/// clock: from local midnight of its first day up to, and without, local
/// midnight of the first day of the next month, both as UTC instants.
pub fn month_bounds(key: MonthKey) -> (r: Option<(Instant, Instant)>)
    ensures
        r == bounds_of(key),
{
    if key.year > 9999 || key.month < 1 || key.month > 12 {
        return None;
    }
    let (next_year, next_month) = if key.month == 12 {
        (key.year + 1, 1u32)
    } else {
        (key.year, key.month + 1)
    };
    let first = epoch_day(key.year as i32, key.month, 1);
    let next_first = epoch_day(next_year as i32, next_month, 1);
    bounds_from_days(first, next_first)
}

/// What the display clock reads at an instant.
pub fn to_display(t: Instant) -> (r: Option<LocalDateTime>)
    ensures
        r == display_of(t),
        r is Some ==> r->0.wf(),
{
    // Days are counted from a shifted origin so that the division is one of
    // non-negative numbers.
    let shift: i64 = 2_147_483_648;
    if t.secs < -shift * SECS_PER_DAY - DISPLAY_OFFSET_SECS || t.secs >= shift * SECS_PER_DAY
        - DISPLAY_OFFSET_SECS {
        return None;
    }
    let shifted: i64 = t.secs + DISPLAY_OFFSET_SECS + shift * SECS_PER_DAY;
    let day: i64 = shifted / SECS_PER_DAY - shift;
    let second_of_day: i64 = shifted % SECS_PER_DAY;
    LocalDateTime::assemble(civil_date(day as i32), second_of_day as u32)
}

/// The month of the display clock in which an instant falls.
pub fn month_key_of(t: Instant) -> (r: Option<MonthKey>)
    ensures
        r == month_of(t),
        r is Some ==> r->0.wf(),
{
    match to_display(t) {
        Some(reading) => Some(reading.month()),
        None => None,
    }
}

/// The seven characters of a month's text.
proof fn lemma_month_text_shape(key: MonthKey)
    requires
        key.wf(),
    ensures
        month_text(key) == seq![
            digit_char(key.year as nat / 1000),
            digit_char((key.year as nat / 100) % 10),
            digit_char((key.year as nat / 10) % 10),
            digit_char(key.year as nat % 10),
            '-',
            digit_char(key.month as nat / 10),
            digit_char(key.month as nat % 10),
        ],
        month_text(key).subrange(0, 4) == padded(key.year as nat, 4),
        month_text(key).subrange(5, 7) == padded(key.month as nat, 2),
{
    lemma_padded_four(key.year as nat);
    lemma_padded_two(key.month as nat);
    let text = month_text(key);
    assert(text =~= seq![
        digit_char(key.year as nat / 1000),
        digit_char((key.year as nat / 100) % 10),
        digit_char((key.year as nat / 10) % 10),
        digit_char(key.year as nat % 10),
        '-',
        digit_char(key.month as nat / 10),
        digit_char(key.month as nat % 10),
    ]);
    assert(text.subrange(0, 4) =~= padded(key.year as nat, 4));
    assert(text.subrange(5, 7) =~= padded(key.month as nat, 2));
}

/// A month, once written, reads back as itself.
pub proof fn lemma_month_text_reads_back(key: MonthKey)
    requires
        key.wf(),
    ensures
        parse_month(month_text(key)) == Some(key),
{
    lemma_month_text_shape(key);
    lemma_padded_four(key.year as nat);
    lemma_padded_two(key.month as nat);
}

/// The text of a month whose digits are given.
spec fn text_of_digits(d: Seq<nat>) -> Seq<char> {
    seq![
        digit_char(d[0]),
        digit_char(d[1]),
        digit_char(d[2]),
        digit_char(d[3]),
        '-',
        digit_char(d[4]),
        digit_char(d[5]),
    ]
}

/// Whether six digits come before six others, the first digit counting
/// most.
spec fn digits_before(a: Seq<nat>, b: Seq<nat>) -> bool {
    a[0] < b[0] || (a[0] == b[0] && (a[1] < b[1] || (a[1] == b[1] && (a[2] < b[2] || (a[2] == b[2]
        && (a[3] < b[3] || (a[3] == b[3] && (a[4] < b[4] || (a[4] == b[4] && a[5] < b[5])))))))))
}

/// Where the digits of one month come before those of another, so does its
/// text.
proof fn lemma_digits_then_text(a: Seq<nat>, b: Seq<nat>)
    requires
        a.len() == 6,
        b.len() == 6,
        forall|i: int| 0 <= i < 6 ==> a[i] < 10 && b[i] < 10,
        digits_before(a, b),
    ensures
        text_before(text_of_digits(a), text_of_digits(b)),
{
    let s = text_of_digits(a);
    let t = text_of_digits(b);
    lemma_digit_order(a[0], b[0]);
    lemma_digit_order(a[1], b[1]);
    lemma_digit_order(a[2], b[2]);
    lemma_digit_order(a[3], b[3]);
    lemma_digit_order(a[4], b[4]);
    lemma_digit_order(a[5], b[5]);
    // The first place at which the digits differ.
    let k: int = if a[0] != b[0] {
        0
    } else if a[1] != b[1] {
        1
    } else if a[2] != b[2] {
        2
    } else if a[3] != b[3] {
        3
    } else if a[4] != b[4] {
        5
    } else {
        6
    };
    assert(s.take(k) =~= t.take(k));
    assert(s[k] < t[k]);
}

/// Where the text of one month comes before that of another, so do its
/// digits.
proof fn lemma_text_then_digits(a: Seq<nat>, b: Seq<nat>)
    requires
        a.len() == 6,
        b.len() == 6,
        forall|i: int| 0 <= i < 6 ==> a[i] < 10 && b[i] < 10,
        text_before(text_of_digits(a), text_of_digits(b)),
    ensures
        digits_before(a, b),
{
    let s = text_of_digits(a);
    let t = text_of_digits(b);
    lemma_digit_order(a[0], b[0]);
    lemma_digit_order(a[1], b[1]);
    lemma_digit_order(a[2], b[2]);
    lemma_digit_order(a[3], b[3]);
    lemma_digit_order(a[4], b[4]);
    lemma_digit_order(a[5], b[5]);
    let k = choose|k: int|
        0 <= k <= s.len() && k <= t.len() && #[trigger] s.take(k) == t.take(k) && (if k
            == s.len() {
            k < t.len()
        } else {
            k < t.len() && s[k] < t[k]
        });
    assert(0 <= k < 7);
    assert forall|i: int| 0 <= i < k implies s[i] == t[i] by {
        assert(s.take(k)[i] == t.take(k)[i]);
    }
    if k >= 1 {
        assert(s[0] == t[0]);
    }
    if k >= 2 {
        assert(s[1] == t[1]);
    }
    if k >= 3 {
        assert(s[2] == t[2]);
    }
    if k >= 4 {
        assert(s[3] == t[3]);
    }
    if k >= 6 {
        assert(s[5] == t[5]);
    }
}

/// The six digits of a month's text.
spec fn digits_of_month(key: MonthKey) -> Seq<nat> {
    seq![
        key.year as nat / 1000,
        (key.year as nat / 100) % 10,
        (key.year as nat / 10) % 10,
        key.year as nat % 10,
        key.month as nat / 10,
        key.month as nat % 10,
    ]
}

/// A number below ten thousand is made of its four digits.
proof fn lemma_four_digits(n: nat)
    requires
        n < 10000,
    ensures
        n == 1000 * (n / 1000) + 100 * ((n / 100) % 10) + 10 * ((n / 10) % 10) + n % 10,
        n / 1000 < 10,
{
    let h = n / 100;
    let t = n / 10;
    assert(h == 10 * (h / 10) + h % 10);
    assert(t == 10 * (t / 10) + t % 10);
    assert(n == 10 * t + n % 10);
    assert(t / 10 == h);
    assert(h / 10 == n / 1000);
}

/// Numbers of four digits come in the order of their digits, the first
/// digit counting most.
proof fn lemma_four_digit_order(a: Seq<nat>, b: Seq<nat>)
    requires
        a.len() >= 4,
        b.len() >= 4,
        forall|i: int| 0 <= i < 4 ==> a[i] < 10 && b[i] < 10,
    ensures
        (1000 * a[0] + 100 * a[1] + 10 * a[2] + a[3] < 1000 * b[0] + 100 * b[1] + 10 * b[2] + b[3])
            == (a[0] < b[0] || (a[0] == b[0] && (a[1] < b[1] || (a[1] == b[1] && (a[2] < b[2] || (
        a[2] == b[2] && a[3] < b[3])))))),
        (1000 * a[0] + 100 * a[1] + 10 * a[2] + a[3] == 1000 * b[0] + 100 * b[1] + 10 * b[2] + b[3])
            == (a[0] == b[0] && a[1] == b[1] && a[2] == b[2] && a[3] == b[3]),
{
    assert(a[0] < 10 && a[1] < 10 && a[2] < 10 && a[3] < 10);
    assert(b[0] < 10 && b[1] < 10 && b[2] < 10 && b[3] < 10);
}

/// Months come in the order of their digits.
proof fn lemma_month_order_is_digit_order(a: MonthKey, b: MonthKey)
    requires
        a.wf(),
        b.wf(),
    ensures
        a.precedes(b) == digits_before(digits_of_month(a), digits_of_month(b)),
        forall|i: int|
            0 <= i < 6 ==> (#[trigger] digits_of_month(a)[i]) < 10 && digits_of_month(b)[i] < 10,
{
    let x = digits_of_month(a);
    let y = digits_of_month(b);
    lemma_four_digits(a.year as nat);
    lemma_four_digits(b.year as nat);
    assert(x[0] < 10 && x[1] < 10 && x[2] < 10 && x[3] < 10 && x[4] < 10 && x[5] < 10);
    assert(y[0] < 10 && y[1] < 10 && y[2] < 10 && y[3] < 10 && y[4] < 10 && y[5] < 10);
    lemma_four_digit_order(x, y);
    assert(a.year == 1000 * x[0] + 100 * x[1] + 10 * x[2] + x[3]);
    assert(b.year == 1000 * y[0] + 100 * y[1] + 10 * y[2] + y[3]);
    assert(a.month == 10 * x[4] + x[5]);
    assert(b.month == 10 * y[4] + y[5]);
}

/// Months come in the order of their texts: one month is before another
/// exactly when its text comes first in the order of a dictionary.
pub proof fn lemma_month_order_is_text_order(a: MonthKey, b: MonthKey)
    requires
        a.wf(),
        b.wf(),
    ensures
        a.precedes(b) == text_before(month_text(a), month_text(b)),
{
    lemma_month_text_shape(a);
    lemma_month_text_shape(b);
    lemma_month_order_is_digit_order(a, b);
    let x = digits_of_month(a);
    let y = digits_of_month(b);
    assert(month_text(a) == text_of_digits(x));
    assert(month_text(b) == text_of_digits(y));
    if digits_before(x, y) {
        lemma_digits_then_text(x, y);
    }
    if text_before(month_text(a), month_text(b)) {
        lemma_text_then_digits(x, y);
    }
}

} // verus!
