//! Commit times as calendar dates.

use vstd::prelude::*;
use crate::text::{digit_char, owned};

verus! {

/// The seconds that jiff can represent as a `Timestamp`.
pub open spec fn in_jiff_range(secs: i64) -> bool {
    -377705023201 <= secs <= 253402207200
}

/// Gregorian leap years.
pub open spec fn is_leap(y: int) -> bool {
    y % 4 == 0 && (y % 100 != 0 || y % 400 == 0)
}

pub open spec fn days_in_month(y: int, m: int) -> int {
    if m == 2 {
        if is_leap(y) { 29 } else { 28 }
    } else if m == 4 || m == 6 || m == 9 || m == 11 {
        30
    } else {
        31
    }
}

/// The leap years from year 1 up to `y`, counted down for earlier years, so
/// that the difference for two years counts the leap years between them.
pub open spec fn leaps_before(y: int) -> int {
    (y - 1) / 4 - (y - 1) / 100 + (y - 1) / 400
}

/// The days of the months of year `y` before month `m`.
pub open spec fn days_before_month(y: int, m: int) -> int
    decreases m,
{
    if m <= 1 {
        0
    } else {
        days_before_month(y, m - 1) + days_in_month(y, m - 1)
    }
}

/// The number of days from 1970-01-01 to a date of the proleptic Gregorian
/// calendar (negative before it).
pub open spec fn day_number(y: int, m: int, d: int) -> int {
    365 * (y - 1970) + leaps_before(y) - leaps_before(1970) + days_before_month(y, m) + d - 1
}

/// A date of the years jiff covers.
pub open spec fn valid_date(y: int, m: int, d: int) -> bool {
    -9999 <= y <= 9999 && 1 <= m <= 12 && 1 <= d <= days_in_month(y, m)
}

/// The date of a day number: the valid date that has it.
pub open spec fn civil_date(days: int) -> (int, int, int) {
    choose|y: int, m: int, d: int| valid_date(y, m, d) && day_number(y, m, d) == days
}

/// Two decimal digits.
pub open spec fn two_digits(n: int) -> Seq<char> {
    seq![digit_char((n / 10) as nat), digit_char((n % 10) as nat)]
}

/// A year as `%Y` writes it: four digits, zero-padded; a year before 1 as
/// `-` and at least three digits.
pub open spec fn year_text(y: int) -> Seq<char> {
    if y >= 0 {
        two_digits(y / 100) + two_digits(y % 100)
    } else if -y <= 999 {
        seq!['-', digit_char((-y / 100) as nat)] + two_digits(-y % 100)
    } else {
        seq!['-'] + two_digits(-y / 100) + two_digits(-y % 100)
    }
}

/// `YYYY-MM-DD`.
pub open spec fn ymd_text(y: int, m: int, d: int) -> Seq<char> {
    year_text(y) + seq!['-'] + two_digits(m) + seq!['-'] + two_digits(d)
}

/// The UTC calendar date `YYYY-MM-DD` of a Unix time in seconds: the date of
/// its whole days since 1970-01-01, counted down before it.
pub open spec fn utc_ymd(secs: i64) -> Seq<char> {
    let (y, m, d) = civil_date(secs as int / 86400);
    ymd_text(y, m, d)
}

/// `jiff::Timestamp::from_second(secs)` then `strftime("%Y-%m-%d")`:
/// `from_second` fails exactly outside `Timestamp::MIN..=Timestamp::MAX`
/// (`-377705023201..=253402207200` seconds, the years -9999 to 9999), and the
/// text is the UTC date, the month and day zero-padded to two digits and the
/// year as `%Y` pads it.
#[verifier::external_body]
fn utc_date(secs: i64) -> (r: Option<String>)
    ensures
        r is Some <==> in_jiff_range(secs),
        r matches Some(s) ==> s@ == utc_ymd(secs),
{
    match jiff::Timestamp::from_second(secs) {
        Ok(ts) => Some(ts.strftime("%Y-%m-%d").to_string()),
        Err(_) => None,
    }
}

/// A formatted date, or `????-??-??` when there is none.
pub fn date_or_unknown(d: Option<String>) -> (s: String)
    ensures
        s@ == match d {
            Some(t) => t@,
            None => "????-??-??"@,
        },
{
    match d {
        Some(t) => t,
        None => owned("????-??-??"),
    }
}

/// The date shown for a commit time.
pub fn format_time(secs: i64) -> (s: String)
    ensures
        in_jiff_range(secs) ==> s@ == utc_ymd(secs),
        !in_jiff_range(secs) ==> s@ == "????-??-??"@,
{
    date_or_unknown(utc_date(secs))
}

} // verus!
