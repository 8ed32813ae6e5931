//! Proleptic Gregorian calendar values (dates and wall-clock times) and the
//! calendar operations of `chrono` that the engine relies on.

use vstd::prelude::*;
use crate::text::{nat_digits, two_digits};

verus! {

/// Earliest year `chrono` represents.
pub const MIN_YEAR: i32 = -262143;
/// Latest year `chrono` represents.
pub const MAX_YEAR: i32 = 262142;

/// A calendar date (`chrono::NaiveDate` as plain values).
#[derive(Debug, Clone, Copy, PartialEq, Eq)]
pub struct CivilDate {
    pub year: i32,
    pub month: u32,
    pub day: u32,
}

/// A wall-clock date and time without zone (`chrono::NaiveDateTime` at whole seconds).
#[derive(Debug, Clone, Copy, PartialEq, Eq)]
pub struct LocalDateTime {
    pub date: CivilDate,
    pub hour: u32,
    pub minute: u32,
    pub second: u32,
}

pub open spec fn is_leap_year(y: int) -> bool {
    (y % 4 == 0 && y % 100 != 0) || y % 400 == 0
}

/// Number of days of month `m` of year `y`.
pub open spec fn month_length(y: int, m: int) -> int {
    if m == 2 {
        if is_leap_year(y) { 29 } else { 28 }
    } else if m == 4 || m == 6 || m == 9 || m == 11 {
        30
    } else {
        31
    }
}

/// Days from 1970-01-01 to January 1st of year `y`.
pub open spec fn days_before_year(y: int) -> int {
    365 * (y - 1970) + (y - 1) / 4 - (y - 1) / 100 + (y - 1) / 400 - 477
}

/// Days from January 1st to the first day of month `m` of year `y`.
pub open spec fn days_before_month(y: int, m: int) -> int {
    let base: int = if m == 1 { 0 } else if m == 2 { 31 } else if m == 3 { 59 } else if m == 4 { 90 }
        else if m == 5 { 120 } else if m == 6 { 151 } else if m == 7 { 181 } else if m == 8 { 212 }
        else if m == 9 { 243 } else if m == 10 { 273 } else if m == 11 { 304 } else { 334 };
    if m > 2 && is_leap_year(y) { base + 1 } else { base }
}

impl CivilDate {
    /// Month and day name a real day (the year may be any `i32`).
    pub open spec fn well_formed(self) -> bool {
        &&& 1 <= self.month <= 12
        &&& 1 <= self.day <= month_length(self.year as int, self.month as int)
    }

    /// A day that `chrono::NaiveDate` represents.
    pub open spec fn valid(self) -> bool {
        &&& self.well_formed()
        &&& MIN_YEAR <= self.year <= MAX_YEAR
    }

    /// Days since 1970-01-01 (negative before it).
    pub open spec fn days(self) -> int {
        days_before_year(self.year as int) + days_before_month(self.year as int, self.month as int)
            + self.day - 1
    }

    /// The following day, as `NaiveDate::succ_opt` gives it.
    pub open spec fn next(self) -> CivilDate {
        if self.day < month_length(self.year as int, self.month as int) {
            CivilDate { year: self.year, month: self.month, day: (self.day + 1) as u32 }
        } else if self.month < 12 {
            CivilDate { year: self.year, month: (self.month + 1) as u32, day: 1 }
        } else {
            CivilDate { year: (self.year + 1) as i32, month: 1, day: 1 }
        }
    }

    /// The last day `chrono` represents.
    pub open spec fn is_last_representable(self) -> bool {
        self.year == MAX_YEAR && self.month == 12 && self.day == 31
    }

    /// ISO weekday number, 1 = Monday … 7 = Sunday (1970-01-01 was a Thursday).
    pub open spec fn iso_weekday(self) -> int {
        (self.days() % 7 + 3) % 7 + 1
    }

    /// Chronological order.
    pub open spec fn le(self, other: CivilDate) -> bool {
        ||| self.year < other.year
        ||| (self.year == other.year && self.month < other.month)
        ||| (self.year == other.year && self.month == other.month && self.day <= other.day)
    }
}

impl LocalDateTime {
    pub open spec fn well_formed(self) -> bool {
        &&& self.date.well_formed()
        &&& self.hour < 24
        &&& self.minute < 60
        &&& self.second < 60
    }

    pub open spec fn valid(self) -> bool {
        self.well_formed() && self.date.valid()
    }

    /// Seconds into the day.
    pub open spec fn seconds_of_day(self) -> int {
        self.hour * 3600 + self.minute * 60 + self.second
    }

    /// The wall clock read as if it were UTC, in seconds since the epoch
    /// (`NaiveDateTime::and_utc().timestamp()`).
    pub open spec fn as_utc_seconds(self) -> int {
        self.date.days() * 86400 + self.seconds_of_day()
    }
}

/// Year as `chrono` prints it: four digits in 0..=9999, otherwise an explicit
/// sign followed by at least four digits.
pub open spec fn year_text(y: int) -> Seq<char> {
    if 0 <= y <= 9999 {
        zero_pad4(y as nat)
    } else if y < 0 {
        seq!['-'] + zero_pad4((-y) as nat)
    } else {
        seq!['+'] + zero_pad4(y as nat)
    }
}

/// Decimal digits left-padded with zeros to at least four characters.
pub open spec fn zero_pad4(n: nat) -> Seq<char> {
    let d = nat_digits(n);
    if d.len() >= 4 {
        d
    } else {
        Seq::new((4 - d.len()) as nat, |i: int| '0') + d
    }
}

/// `YYYY-MM-DD`, the `Display` of `NaiveDate` and its `%Y-%m-%d` format.
pub open spec fn date_text(d: CivilDate) -> Seq<char> {
    year_text(d.year as int) + seq!['-'] + two_digits(d.month as int) + seq!['-'] + two_digits(
        d.day as int,
    )
}

/// `HH:MM:SS`.
pub open spec fn hms_text(h: int, m: int, s: int) -> Seq<char> {
    two_digits(h) + seq![':'] + two_digits(m) + seq![':'] + two_digits(s)
}

/// `YYYY-MM-DD HH:MM:SS`, the `%Y-%m-%d %H:%M:%S` format.
pub open spec fn wall_text(w: LocalDateTime) -> Seq<char> {
    date_text(w.date) + seq![' '] + hms_text(w.hour as int, w.minute as int, w.second as int)
}

/// `NaiveDate::succ_opt`: the next day.
#[verifier::external_body]
pub(crate) fn next_day(d: CivilDate) -> (r: CivilDate)
    requires
        d.valid(),
        !d.is_last_representable(),
    ensures
        r == d.next(),
{
    let n = chrono::NaiveDate::from_ymd_opt(d.year, d.month, d.day).unwrap().succ_opt().unwrap();
    CivilDate {
        year: chrono::Datelike::year(&n),
        month: chrono::Datelike::month(&n),
        day: chrono::Datelike::day(&n),
    }
}

/// `NaiveDate::weekday().number_from_monday()`.
#[verifier::external_body]
pub(crate) fn iso_weekday(d: CivilDate) -> (r: u32)
    requires
        d.valid(),
    ensures
        r == d.iso_weekday(),
{
    let n = chrono::NaiveDate::from_ymd_opt(d.year, d.month, d.day).unwrap();
    chrono::Datelike::weekday(&n).number_from_monday()
}

/// `NaiveDate`'s `Display` (`%Y-%m-%d`).
#[verifier::external_body]
pub(crate) fn format_date(d: CivilDate) -> (r: String)
    requires
        d.valid(),
    ensures
        r@ == date_text(d),
{
    chrono::NaiveDate::from_ymd_opt(d.year, d.month, d.day).unwrap().to_string()
}

/// `NaiveDateTime::and_utc().timestamp()`: the wall clock read as UTC.
#[verifier::external_body]
pub(crate) fn wall_as_utc_seconds(w: LocalDateTime) -> (r: i64)
    requires
        w.valid(),
    ensures
        r == w.as_utc_seconds(),
{
    let d = w.date;
    chrono::NaiveDate::from_ymd_opt(d.year, d.month, d.day)
        .unwrap()
        .and_hms_opt(w.hour, w.minute, w.second)
        .unwrap()
        .and_utc()
        .timestamp()
}

/// Number of days in the month of `date`.
pub fn days_in_month(date: CivilDate) -> (n: u32)
    requires
        date.well_formed(),
    ensures
        n == month_length(date.year as int, date.month as int),
{
    let y = date.year;
    let leap = (y % 4 == 0 && y % 100 != 0) || y % 400 == 0;
    if date.month == 2 {
        if leap { 29 } else { 28 }
    } else if date.month == 4 || date.month == 6 || date.month == 9 || date.month == 11 {
        30
    } else {
        31
    }
}

/// Chronological `<=` on dates.
pub fn date_le(a: CivilDate, b: CivilDate) -> (r: bool)
    ensures
        r == a.le(b),
{
    a.year < b.year || (a.year == b.year && a.month < b.month) || (a.year == b.year && a.month
        == b.month && a.day <= b.day)
}

// ---------------------------------------------------------------- lemmas

pub proof fn lemma_year_step(y: int)
    ensures
        days_before_year(y + 1) == days_before_year(y) + 365 + (if is_leap_year(y) { 1int } else { 0 }),
{
}

pub proof fn lemma_years_monotone(a: int, b: int)
    requires
        a <= b,
    ensures
        days_before_year(a) + 365 * (b - a) <= days_before_year(b),
    decreases b - a,
{
    if a < b {
        lemma_years_monotone(a, b - 1);
        lemma_year_step(b - 1);
    }
}

pub proof fn lemma_days_within_year(d: CivilDate)
    requires
        d.well_formed(),
    ensures
        days_before_year(d.year as int) <= d.days() < days_before_year(d.year + 1),
{
    lemma_year_step(d.year as int);
}

/// The next day is exactly one day later.
pub proof fn lemma_next_day(d: CivilDate)
    requires
        d.well_formed(),
        d.year < i32::MAX,
    ensures
        d.next().well_formed(),
        d.next().days() == d.days() + 1,
        d.le(d.next()),
{
    lemma_year_step(d.year as int);
}

/// 1970-01-01 is day 0 and a Thursday (ISO 4); every weekday lies in
/// Monday (1) … Sunday (7), and the day after a date has the next weekday
/// of that cycle, Monday following Sunday.
pub proof fn lemma_weekday_cycle(d: CivilDate)
    requires
        d.well_formed(),
        d.year < i32::MAX,
    ensures
        (CivilDate { year: 1970, month: 1, day: 1 }).days() == 0,
        (CivilDate { year: 1970, month: 1, day: 1 }).iso_weekday() == 4,
        1 <= d.iso_weekday() <= 7,
        d.next().iso_weekday() == (if d.iso_weekday() == 7 {
            1
        } else {
            d.iso_weekday() + 1
        }),
{
    lemma_next_day(d);
    let n = d.days();
    assert((n + 1) % 7 == (if n % 7 == 6 { 0 } else { n % 7 + 1 })) by (nonlinear_arith);
    assert(((n + 1) % 7 + 3) % 7 == (if (n % 7 + 3) % 7 == 6 { 0 } else { (n % 7 + 3) % 7 + 1 })) by (nonlinear_arith)
        requires
            (n + 1) % 7 == (if n % 7 == 6 { 0 } else { n % 7 + 1 }),
            0 <= n % 7 < 7,
    ;
}

/// Order of dates agrees with the order of their day numbers.
pub proof fn lemma_le_days(a: CivilDate, b: CivilDate)
    requires
        a.well_formed(),
        b.well_formed(),
    ensures
        a.le(b) <==> a.days() <= b.days(),
{
    lemma_days_within_year(a);
    lemma_days_within_year(b);
    if a.year < b.year {
        lemma_years_monotone(a.year + 1, b.year as int);
    } else if b.year < a.year {
        lemma_years_monotone(b.year + 1, a.year as int);
    }
}

} // verus!
