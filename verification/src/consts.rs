//! Field indices, value ranges and the small calendar helpers.
use vstd::prelude::*;

verus! {

pub const MINUTE_FIELD: usize = 0;
pub const HOUR_FIELD: usize = 1;
pub const DAY_FIELD: usize = 2;
pub const MONTH_FIELD: usize = 3;
pub const DOW_FIELD: usize = 4;
pub const SECOND_FIELD: usize = 5;
pub const YEAR_FIELD: usize = 6;

pub const UNIX_CRON_LEN: usize = 5;
pub const SECOND_CRON_LEN: usize = 6;
pub const YEAR_CRON_LEN: usize = 7;

pub const MONTHS_IN_YEAR: i64 = 12;

/// Inclusive lower bound of the values of field `i`.
pub open spec fn range_low(i: int) -> int {
    if i == 0 { 0 }
    else if i == 1 { 0 }
    else if i == 2 { 1 }
    else if i == 3 { 1 }
    else if i == 4 { 0 }
    else if i == 5 { 0 }
    else { 1970 }
}

/// Inclusive upper bound of the values of field `i`.
pub open spec fn range_high(i: int) -> int {
    if i == 0 { 59 }
    else if i == 1 { 23 }
    else if i == 2 { 31 }
    else if i == 3 { 12 }
    else if i == 4 { 6 }
    else if i == 5 { 59 }
    else { 2099 }
}

/// The inclusive `(low, high)` value range of field `i` (minute, hour, day,
/// month, day of week, second, year).
pub fn field_range(i: usize) -> (r: (i64, i64))
    requires
        i < 7,
    ensures
        r.0 == range_low(i as int),
        r.1 == range_high(i as int),
{
    if i == 0 { (0, 59) }
    else if i == 1 { (0, 23) }
    else if i == 2 { (1, 31) }
    else if i == 3 { (1, 12) }
    else if i == 4 { (0, 6) }
    else if i == 5 { (0, 59) }
    else { (1970, 2099) }
}

/// The number of distinct values of field `i`: a field holding that many
/// values is the same as `*`.
pub open spec fn len_means_all(i: int) -> int {
    range_high(i) - range_low(i) + 1
}

pub fn field_cardinality(i: usize) -> (r: usize)
    requires
        i < 7,
    ensures
        r == len_means_all(i as int),
{
    let (lo, hi) = field_range(i);
    (hi - lo + 1) as usize
}

/// Gregorian leap year.
pub open spec fn spec_is_leap(year: int) -> bool {
    year % 400 == 0 || (year % 4 == 0 && year % 100 != 0)
}

/// Length of a month in a common year.
pub open spec fn common_month_len(month: int) -> int {
    if month == 2 { 28 }
    else if month == 4 || month == 6 || month == 9 || month == 11 { 30 }
    else { 31 }
}

/// Length of `month` of `year`.
pub open spec fn days_in_month(year: int, month: int) -> int {
    if month == 2 && spec_is_leap(year) { 29 } else { common_month_len(month) }
}

/// Whether `year` is a Gregorian leap year.
pub fn is_leap(year: i64) -> (r: bool)
    ensures
        r == spec_is_leap(year as int),
{
    year % 400 == 0 || (year % 4 == 0 && year % 100 != 0)
}

/// The last day of `month` (1-based) of `year`.
pub fn last_day_of_month(year: i64, month: i64) -> (r: i64)
    requires
        1 <= month <= 12,
    ensures
        r == days_in_month(year as int, month as int),
{
    let days: [i64; 12] = [31, 28, 31, 30, 31, 30, 31, 31, 30, 31, 30, 31];
    let mut last_day = days[(month - 1) as usize];
    if month == 2 && is_leap(year) {
        last_day = last_day + 1;
    }
    last_day
}

/// The field indices in play for an expression of `n` columns.
pub open spec fn spec_cron_fields(n: int) -> Seq<usize> {
    if n == 5 {
        seq![0usize, 1, 2, 3, 4]
    } else if n == 6 {
        seq![0usize, 1, 2, 3, 4, 5]
    } else {
        seq![0usize, 1, 2, 3, 4, 5, 6]
    }
}

/// The field indices in play for an expression of `n` columns.
pub fn cron_fields(n: usize) -> (r: Vec<usize>)
    ensures
        r@ == spec_cron_fields(n as int),
{
    if n == UNIX_CRON_LEN {
        vec![MINUTE_FIELD, HOUR_FIELD, DAY_FIELD, MONTH_FIELD, DOW_FIELD]
    } else if n == SECOND_CRON_LEN {
        vec![MINUTE_FIELD, HOUR_FIELD, DAY_FIELD, MONTH_FIELD, DOW_FIELD, SECOND_FIELD]
    } else {
        vec![MINUTE_FIELD, HOUR_FIELD, DAY_FIELD, MONTH_FIELD, DOW_FIELD, SECOND_FIELD, YEAR_FIELD]
    }
}

} // verus!
