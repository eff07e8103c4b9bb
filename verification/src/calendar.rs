//! Proleptic-Gregorian day counting for timestamp literals.
//!
//! Dates are mapped to signed day counts relative to the Unix epoch
//! (1970-01-01 is day 0, earlier dates are negative). A year is a leap year
//! iff it is divisible by 4 and not by 100, or divisible by 400.

use vstd::prelude::*;

verus! {

/// Whether a year is a leap year in the proleptic Gregorian calendar.
pub open spec fn spec_is_leap_year(year: int) -> bool {
    (year % 4 == 0 && year % 100 != 0) || year % 400 == 0
}

/// Length of a year in days.
pub open spec fn spec_year_days(year: int) -> int {
    if spec_is_leap_year(year) {
        366
    } else {
        365
    }
}

/// Signed number of days from 1970-01-01 to January 1st of `year`.
pub open spec fn spec_days_from_year(year: int) -> int
    decreases
            if year >= 1970 {
                year - 1970
            } else {
                1970 - year
            },
{
    if year > 1970 {
        spec_days_from_year(year - 1) + spec_year_days(year - 1)
    } else if year < 1970 {
        spec_days_from_year(year + 1) - spec_year_days(year)
    } else {
        0
    }
}

/// Days in the given month (1-based) of a common year; 0 for months out of range.
pub open spec fn spec_month_days(month: int) -> int {
    if month == 1 {
        31
    } else if month == 2 {
        28
    } else if month == 3 {
        31
    } else if month == 4 {
        30
    } else if month == 5 {
        31
    } else if month == 6 {
        30
    } else if month == 7 {
        31
    } else if month == 8 {
        31
    } else if month == 9 {
        30
    } else if month == 10 {
        31
    } else if month == 11 {
        30
    } else if month == 12 {
        31
    } else {
        0
    }
}

/// Days in the given month, with February adjusted on leap years.
pub open spec fn spec_month_days_in_year(month: int, year: int) -> int {
    if month == 2 && spec_is_leap_year(year) {
        29
    } else {
        spec_month_days(month)
    }
}

/// Days contributed by the months of `year` strictly before `month`.
pub open spec fn spec_month_prefix_days(month: int, year: int) -> int
    decreases month,
{
    if month <= 1 {
        0
    } else {
        spec_month_prefix_days(month - 1, year) + spec_month_days_in_year(month - 1, year)
    }
}

/// Whether (year, month, day) is accepted by the day counter: the month is in
/// range and the day does not exceed the month's length. A day of 0 is not
/// rejected here; callers validate the lower bound.
pub open spec fn spec_ymd_valid(year: int, month: int, day: int) -> bool {
    1 <= month <= 12 && day <= spec_month_days_in_year(month, year)
}

/// Signed day count since the epoch of the given calendar date.
pub open spec fn spec_days_from_ymd(year: int, month: int, day: int) -> int {
    spec_days_from_year(year) + spec_month_prefix_days(month, year) + day - 1
}

/// A year's day offset is bounded by 366 days per year of distance from 1970.
pub proof fn lemma_days_from_year_bound(year: int)
    ensures
        year >= 1970 ==> 0 <= spec_days_from_year(year) <= 366 * (year - 1970),
        year < 1970 ==> -366 * (1970 - year) <= spec_days_from_year(year) <= 0,
    decreases
            if year >= 1970 {
                year - 1970
            } else {
                1970 - year
            },
{
    if year > 1970 {
        lemma_days_from_year_bound(year - 1);
    } else if year < 1970 {
        lemma_days_from_year_bound(year + 1);
    }
}

/// Returns `true` iff `year` is a leap year: divisible by 4 and not by 100,
/// or divisible by 400.
pub fn is_leap_year(year: i32) -> (r: bool)
    ensures
        r == spec_is_leap_year(year as int),
{
    (year % 4 == 0 && year % 100 != 0) || (year % 400 == 0)
}

/// Signed number of days from the Unix epoch to January 1st of `year`
/// (negative for years before 1970).
pub fn days_from_year(year: i32) -> (r: i64)
    ensures
        r == spec_days_from_year(year as int),
{
    let mut days: i64 = 0;
    if year >= 1970 {
        let mut y: i32 = 1970;
        while y < year
            invariant
                1970 <= y <= year,
                days == spec_days_from_year(y as int),
            decreases year - y,
        {
            proof {
                lemma_days_from_year_bound(y as int);
                lemma_days_from_year_bound(y + 1 as int);
            }
            days = days + if is_leap_year(y) {
                366
            } else {
                365
            };
            y = y + 1;
        }
    } else {
        let mut y: i32 = 1970;
        while y > year
            invariant
                year <= y <= 1970,
                days == spec_days_from_year(y as int),
            decreases y - year,
        {
            proof {
                lemma_days_from_year_bound(y as int);
                lemma_days_from_year_bound(y - 1 as int);
            }
            days = days - if is_leap_year(y - 1) {
                366
            } else {
                365
            };
            y = y - 1;
        }
    }
    days
}

/// Length of `month` in `year`, for months 1 through 12.
fn month_days_in_year(month: u32, year: i32) -> (r: u32)
    requires
        1 <= month <= 12,
    ensures
        r == spec_month_days_in_year(month as int, year as int),
{
    if month == 2 && is_leap_year(year) {
        29
    } else if month == 1 {
        31
    } else if month == 2 {
        28
    } else if month == 3 {
        31
    } else if month == 4 {
        30
    } else if month == 5 {
        31
    } else if month == 6 {
        30
    } else if month == 7 {
        31
    } else if month == 8 {
        31
    } else if month == 9 {
        30
    } else if month == 10 {
        31
    } else if month == 11 {
        30
    } else {
        31
    }
}

/// Signed day count since the Unix epoch for a calendar date, or `None` when
/// the month is out of range or the day exceeds the month's length
/// (e.g. February 30th or month 13).
pub fn days_from_ymd(year: i32, month: u32, day: u32) -> (r: Option<i64>)
    ensures
        r is Some <==> spec_ymd_valid(year as int, month as int, day as int),
        r is Some ==> r->0 == spec_days_from_ymd(year as int, month as int, day as int),
{
    if month < 1 || month > 12 {
        return None;
    }
    let max_day = month_days_in_year(month, year);
    if day > max_day {
        return None;
    }
    proof {
        lemma_days_from_year_bound(year as int);
    }
    let mut days: i64 = days_from_year(year);
    let ghost base = days as int;
    let mut m: u32 = 1;
    while m < month
        invariant
            1 <= m <= month <= 12,
            days == base + spec_month_prefix_days(m as int, year as int),
            base == spec_days_from_year(year as int),
            -366 * 2147485618 <= base <= 366 * 2147485618,
            0 <= spec_month_prefix_days(m as int, year as int) <= 31 * (m as int),
        decreases month - m,
    {
        days = days + month_days_in_year(m, year) as i64;
        m = m + 1;
    }
    Some(days + day as i64 - 1)
}

} // verus!
