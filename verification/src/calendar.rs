//! Proleptic Gregorian day arithmetic.
//!
//! A calendar day is represented by its day number counted from
//! January 1 of year 1 (that day is number 1), as `chrono` counts it.
//! Comparing two days is comparing their numbers.
use chrono::Datelike;
use vstd::prelude::*;

verus! {

/// Earliest year that `chrono::NaiveDate` represents.
pub const MIN_YEAR: i32 = -262143;

/// Latest year that `chrono::NaiveDate` represents.
pub const MAX_YEAR: i32 = 262142;

pub open spec fn is_leap_year(y: int) -> bool {
    y % 4 == 0 && (y % 100 != 0 || y % 400 == 0)
}

/// Number of days in month `m` of year `y` (months outside 1..=12 have none).
pub open spec fn days_in_month(y: int, m: int) -> int {
    if m == 4 || m == 6 || m == 9 || m == 11 {
        30
    } else if m == 2 {
        if is_leap_year(y) { 29 } else { 28 }
    } else if 1 <= m <= 12 {
        31
    } else {
        0
    }
}

/// Whether `(y, m, d)` names a day that `chrono::NaiveDate` can represent.
pub open spec fn civil_date_valid(y: int, m: int, d: int) -> bool {
    &&& MIN_YEAR <= y <= MAX_YEAR
    &&& 1 <= m <= 12
    &&& 1 <= d <= days_in_month(y, m)
}

/// Days of year `y` that come before the first of month `m`.
pub open spec fn days_before_month(y: int, m: int) -> int
    decreases m,
{
    if m <= 1 {
        0
    } else {
        days_before_month(y, m - 1) + days_in_month(y, m - 1)
    }
}

/// Day number of `(y, m, d)` in the proleptic Gregorian calendar,
/// with January 1 of year 1 as day 1.
pub open spec fn days_from_ce(y: int, m: int, d: int) -> int {
    365 * (y - 1) + (y - 1) / 4 - (y - 1) / 100 + (y - 1) / 400 + days_before_month(y, m) + d
}

/// Day number of the first day that `chrono` represents.
pub open spec fn min_day_number() -> int {
    days_from_ce(MIN_YEAR as int, 1, 1)
}

/// Day number of the last day that `chrono` represents.
pub open spec fn max_day_number() -> int {
    days_from_ce(MAX_YEAR as int, 12, 31)
}

/// Calls `chrono::NaiveDate::from_ymd_opt` and, on a valid date,
/// `Datelike::num_days_from_ce`. The contract claims that `from_ymd_opt`
/// accepts exactly the in-range years with a real month and day, and that the
/// day number counts days from January 1 of year 1 as day 1.
#[verifier::external_body]
pub(crate) fn day_number_of(y: i32, m: u32, d: u32) -> (r: Option<i32>)
    ensures
        r is Some <==> civil_date_valid(y as int, m as int, d as int),
        r matches Some(n) ==> n as int == days_from_ce(y as int, m as int, d as int),
{
    match chrono::NaiveDate::from_ymd_opt(y, m, d) {
        Some(date) => Some(date.num_days_from_ce()),
        None => None,
    }
}

/// The last day of a month as the executable code computes it (any month
/// number outside 4, 6, 9, 11 and 2 has 31).
pub open spec fn last_day_rule(y: int, m: int) -> int {
    if m == 4 || m == 6 || m == 9 || m == 11 {
        30
    } else if m == 2 {
        if is_leap_year(y) { 29 } else { 28 }
    } else {
        31
    }
}

pub fn last_day_of_month(y: i32, m: u32) -> (r: u32)
    ensures
        r as int == last_day_rule(y as int, m as int),
{
    if m == 4 || m == 6 || m == 9 || m == 11 {
        30
    } else if m == 2 {
        if y % 4 == 0 && (y % 100 != 0 || y % 400 == 0) {
            29
        } else {
            28
        }
    } else {
        31
    }
}

} // verus!
