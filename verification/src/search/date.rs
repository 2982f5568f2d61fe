//! Calendar dates as the query language writes them (`YYYY-MM-DD`), turned
//! into seconds since the Unix epoch.

use vstd::prelude::*;
use crate::number::{i32_text, u32_text, parse_i32, parse_u32};
use crate::text::{split_by, split_chars};

verus! {

/// Days from 1970-01-01 to the proleptic Gregorian date `y-m-d`, by the
/// days-from-civil formula: the year is counted from March, so that the leap
/// day ends it, and split into 400-year eras of 146097 days. Month and day
/// are not checked against the calendar: a day past the end of its month
/// runs on into the next.
pub open spec fn civil_days(y: int, m: int, d: int) -> int {
    let yy = if m <= 2 { y - 1 } else { y };
    let era = yy / 400;
    let yoe = yy - era * 400;
    let mp = if m > 2 { m - 3 } else { m + 9 };
    let doy = (153 * mp + 2) / 5 + d - 1;
    let doe = yoe * 365 + yoe / 4 - yoe / 100 + doy;
    era * 146097 + doe - 719468
}

/// The inputs on which `days_from_civil` overflows its unsigned day-of-year
/// arithmetic: the day before 1 March, written as day 0 of March.
pub open spec fn civil_overflows(y: i32, m: u32, d: u32) -> bool {
    (y == i32::MIN && m <= 2) || (m == 3 && d == 0)
}

/// Converts year/month/day to days since the Unix epoch.
pub fn days_from_civil(y: i32, m: u32, d: u32) -> (res: i64)
    requires
        !civil_overflows(y, m, d),
    ensures
        res == civil_days(y as int, m as int, d as int),
        -1_000_000_000_000 <= res <= 1_000_000_000_000,
{
    let y: i64 = if m <= 2 { (y - 1) as i64 } else { y as i64 };
    let shifted: i64 = if y >= 0 { y } else { y - 399 };
    let era: i64 = shifted / 400;
    assert(-5_400_000 <= era <= 5_400_000);
    let yoe: u64 = (y - era * 400) as u64;
    assert(yoe < 400);
    let m: u64 = m as u64;
    let doy: u64 = if m > 2 {
        (153 * (m - 3) + 2) / 5 + d as u64 - 1
    } else {
        (153 * (m + 9) + 2) / 5 + d as u64 - 1
    };
    assert(doy <= 140_000_000_000);
    let doe: u64 = yoe * 365 + yoe / 4 - yoe / 100 + doy;
    assert(doe <= 141_000_000_000);
    era * 146097 + doe as i64 - 719468
}

/// The year, month and day that `parse_date` reads from `s`: three pieces
/// between `-` characters, read as `i32`, `u32` and `u32`.
pub open spec fn date_fields(s: Seq<char>) -> Option<(i32, u32, u32)> {
    let parts = split_by(s, seq!['-']);
    if parts.len() != 3 {
        None
    } else {
        match (i32_text(parts[0]), u32_text(parts[1]), u32_text(parts[2])) {
            (Some(y), Some(m), Some(d)) => Some((y, m, d)),
            _ => None,
        }
    }
}

/// Whether `parse_date` would overflow on `s` (a date written as day 0 of
/// March).
pub open spec fn date_overflows(s: Seq<char>) -> bool {
    match date_fields(s) {
        Some((y, m, d)) => civil_overflows(y, m, d),
        None => false,
    }
}

/// Seconds since the Unix epoch at midnight (UTC) of the date `s`, or
/// `None` when `s` is not a date.
pub open spec fn date_seconds(s: Seq<char>) -> Option<i64> {
    match date_fields(s) {
        Some((y, m, d)) => Some((civil_days(y as int, m as int, d as int) * 86400) as i64),
        None => None,
    }
}

/// Reads a date `YYYY-MM-DD` as seconds since the Unix epoch.
pub fn parse_date(date_str: &[char]) -> (res: Option<i64>)
    requires
        !date_overflows(date_str@),
    ensures
        res == date_seconds(date_str@),
{
    let parts = split_chars(date_str, &['-']);
    assert(seq!['-'] =~= [ '-' ]@);
    proof {
        assert(parts@.map_values(|p: Vec<char>| p@).len() == parts@.len());
    }
    if parts.len() != 3 {
        return None;
    }
    assert(parts@.map_values(|p: Vec<char>| p@)[0] == parts@[0]@);
    assert(parts@.map_values(|p: Vec<char>| p@)[1] == parts@[1]@);
    assert(parts@.map_values(|p: Vec<char>| p@)[2] == parts@[2]@);
    let year = match parse_i32(&parts[0]) {
        Some(v) => v,
        None => return None,
    };
    let month = match parse_u32(&parts[1]) {
        Some(v) => v,
        None => return None,
    };
    let day = match parse_u32(&parts[2]) {
        Some(v) => v,
        None => return None,
    };
    Some(days_from_civil(year, month, day) * 86400)
}

/// Whether `y` is a leap year of the Gregorian calendar.
pub open spec fn leap_year(y: int) -> bool {
    (y % 4 == 0 && y % 100 != 0) || y % 400 == 0
}

/// The number of days of month `m` (1 to 12) of year `y`.
pub open spec fn month_length(y: int, m: int) -> int {
    if m == 2 {
        if leap_year(y) { 29 } else { 28 }
    } else if m == 4 || m == 6 || m == 9 || m == 11 {
        30
    } else {
        31
    }
}

/// Days follow one another: the day after `y-m-d` is one day later.
pub proof fn lemma_next_day(y: int, m: int, d: int)
    ensures
        civil_days(y, m, d + 1) == civil_days(y, m, d) + 1,
{
}

/// Months follow one another without gap or overlap: the first of a month
/// is the day after the last day of the month before, across the end of a
/// year too.
pub proof fn lemma_next_month(y: int, m: int)
    requires
        1 <= m <= 12,
    ensures
        m < 12 ==> civil_days(y, m + 1, 1) == civil_days(y, m, month_length(y, m)) + 1,
        m == 12 ==> civil_days(y + 1, 1, 1) == civil_days(y, 12, 31) + 1,
{
    if m == 2 {
        lemma_march_follows_february(y);
    }
}

proof fn lemma_march_follows_february(y: int)
    ensures
        civil_days(y, 3, 1) == civil_days(y, 2, month_length(y, 2)) + 1,
{
    let yy = y - 1;
    let e1 = yy / 400;
    let e2 = y / 400;
    let o1 = yy - e1 * 400;
    let o2 = y - e2 * 400;
    assert(0 <= o1 < 400 && 0 <= o2 < 400);
    if o2 == 0 {
        assert(e2 == e1 + 1 && o1 == 399) by (nonlinear_arith)
            requires
                e1 == yy / 400,
                e2 == y / 400,
                yy == y - 1,
                o2 == y - e2 * 400,
                o1 == yy - e1 * 400,
                o2 == 0,
                0 <= o1 < 400,
        {
        }
        assert(y % 400 == 0);
    } else {
        assert(e2 == e1 && o2 == o1 + 1) by (nonlinear_arith)
            requires
                e1 == yy / 400,
                e2 == y / 400,
                yy == y - 1,
                o2 == y - e2 * 400,
                o1 == yy - e1 * 400,
                o2 != 0,
                0 <= o1 < 400,
                0 <= o2 < 400,
        {
        }
        assert(y % 400 == o2);
        assert(y % 4 == o2 % 4);
        assert(y % 100 == o2 % 100);
    }
}

/// Whether `parse_date` would overflow on `s`, computed.
pub fn date_overflow_check(s: &[char]) -> (res: bool)
    ensures
        res == date_overflows(s@),
{
    let parts = split_chars(s, &['-']);
    assert(seq!['-'] =~= [ '-' ]@);
    assert(parts@.map_values(|p: Vec<char>| p@).len() == parts@.len());
    if parts.len() != 3 {
        return false;
    }
    assert(parts@.map_values(|p: Vec<char>| p@)[0] == parts@[0]@);
    assert(parts@.map_values(|p: Vec<char>| p@)[1] == parts@[1]@);
    assert(parts@.map_values(|p: Vec<char>| p@)[2] == parts@[2]@);
    match (parse_i32(&parts[0]), parse_u32(&parts[1]), parse_u32(&parts[2])) {
        (Some(y), Some(m), Some(d)) => (y == i32::MIN && m <= 2) || (m == 3 && d == 0),
        _ => false,
    }
}

} // verus!
