//! Wall-clock readings and their place on the proleptic Gregorian timeline.
//!
//! A `WallTime` is a calendar date plus a time of day with microsecond
//! resolution, with no time zone attached. Instants on the timeline are
//! counted in microseconds since 1970-01-01 00:00:00. The conversion between
//! day numbers and calendar dates is chrono's; the rest is arithmetic on
//! those numbers.
use vstd::prelude::*;
use crate::consts::{days_in_month, last_day_of_month, spec_is_leap};
use chrono::Datelike;

verus! {

/// The earliest and latest year chrono can represent.
pub const MIN_YEAR: i64 = -262143;
pub const MAX_YEAR: i64 = 262142;

/// chrono counts 0001-01-01 as day 1; 1970-01-01 is day 719163.
pub const CE_OFFSET: i64 = 719163;
/// chrono's day numbers of its first and last representable dates.
pub const CE_MIN: i64 = -95746129;
pub const CE_MAX: i64 = 95745399;

pub const MICROS_PER_SECOND: i64 = 1_000_000;
pub const MICROS_PER_MINUTE: i64 = 60_000_000;
pub const MICROS_PER_HOUR: i64 = 3_600_000_000;
pub const MICROS_PER_DAY: i64 = 86_400_000_000;

/// Leap days in the years `1..=n` (negative when `n < 0`).
pub open spec fn leaps_upto(n: int) -> int {
    n / 4 - n / 100 + n / 400
}

/// Days from 1970-01-01 to the first of January of `y`.
#[verifier::opaque]
pub open spec fn days_before_year(y: int) -> int {
    365 * (y - 1970) + leaps_upto(y - 1) - leaps_upto(1969)
}

/// Days from the first of January to the first of `m` in a common year.
pub open spec fn common_days_before_month(m: int) -> int {
    if m <= 1 { 0 }
    else if m == 2 { 31 }
    else if m == 3 { 59 }
    else if m == 4 { 90 }
    else if m == 5 { 120 }
    else if m == 6 { 151 }
    else if m == 7 { 181 }
    else if m == 8 { 212 }
    else if m == 9 { 243 }
    else if m == 10 { 273 }
    else if m == 11 { 304 }
    else { 334 }
}

/// Days from the first of January of `y` to the first of `m`.
pub open spec fn days_before_month(y: int, m: int) -> int {
    common_days_before_month(m) + if m > 2 && spec_is_leap(y) { 1int } else { 0int }
}

/// The day number of a date: 0 for 1970-01-01, counting backwards before it.
pub open spec fn days_from_civil(y: int, m: int, d: int) -> int {
    days_before_year(y) + days_before_month(y, m) + d - 1
}

/// A date that exists in the proleptic Gregorian calendar and that chrono can
/// represent.
pub open spec fn valid_date(y: int, m: int, d: int) -> bool {
    &&& MIN_YEAR <= y <= MAX_YEAR
    &&& 1 <= m <= 12
    &&& 1 <= d <= days_in_month(y, m)
}

/// Day of the week counted from Sunday (0) to Saturday (6);
/// 1970-01-01 was a Thursday.
pub open spec fn weekday_of(y: int, m: int, d: int) -> int {
    (days_from_civil(y, m, d) + 4) % 7
}

/// chrono's day numbers that map to a date.
pub open spec fn ce_in_range(n: int) -> bool {
    CE_MIN <= n <= CE_MAX
}

/// An instant (microseconds since the epoch) whose wall reading chrono can
/// represent.
pub open spec fn micros_in_range(us: int) -> bool {
    ce_in_range(us / (MICROS_PER_DAY as int) + CE_OFFSET)
}

/// Microseconds since the epoch of a reading given by its fields.
pub open spec fn civil_epoch(y: int, m: int, d: int, h: int, mi: int, s: int, us: int) -> int {
    days_from_civil(y, m, d) * 86_400_000_000 + h * 3_600_000_000 + mi * 60_000_000 + s * 1_000_000 + us
}

/// Fields that name an existing date and time of day.
pub open spec fn valid_civil(y: int, m: int, d: int, h: int, mi: int, s: int, us: int) -> bool {
    &&& valid_date(y, m, d)
    &&& 0 <= h < 24
    &&& 0 <= mi < 60
    &&& 0 <= s < 60
    &&& 0 <= us < 1_000_000
}

/// A wall-clock reading: a date and a time of day, with no time zone.
#[derive(Debug, Clone, Copy, PartialEq, Eq)]
pub struct WallTime {
    pub year: i64,
    pub month: i64,
    pub day: i64,
    pub hour: i64,
    pub minute: i64,
    pub second: i64,
    pub micro: i64,
}

impl WallTime {
    /// Every field within its range, and the date exists.
    pub open spec fn wf(self) -> bool {
        &&& valid_date(self.year as int, self.month as int, self.day as int)
        &&& 0 <= self.hour < 24
        &&& 0 <= self.minute < 60
        &&& 0 <= self.second < 60
        &&& 0 <= self.micro < 1_000_000
    }

    /// Microseconds since the start of the day.
    pub open spec fn time_of_day(self) -> int {
        self.hour * 3_600_000_000 + self.minute * 60_000_000 + self.second * 1_000_000 + self.micro
    }

    /// The day number of the date.
    pub open spec fn day_number(self) -> int {
        days_from_civil(self.year as int, self.month as int, self.day as int)
    }

    /// The instant of this reading read as UTC: microseconds since the epoch.
    pub open spec fn epoch(self) -> int {
        civil_epoch(self.year as int, self.month as int, self.day as int, self.hour as int,
            self.minute as int, self.second as int, self.micro as int)
    }

    /// Day of the week, Sunday = 0.
    pub open spec fn weekday(self) -> int {
        weekday_of(self.year as int, self.month as int, self.day as int)
    }

    /// Builds a reading from its fields; `None` when the fields do not name
    /// an existing date and time.
    pub fn new(year: i64, month: i64, day: i64, hour: i64, minute: i64, second: i64, micro: i64) -> (r: Option<WallTime>)
        ensures
            r matches Some(w) ==> w.wf() && w == (WallTime { year, month, day, hour, minute, second, micro }),
            r is Some <==> (WallTime { year, month, day, hour, minute, second, micro }).wf(),
    {
        if year < MIN_YEAR || year > MAX_YEAR || month < 1 || month > 12 || day < 1 {
            return None;
        }
        if day > last_day_of_month(year, month) {
            return None;
        }
        if hour < 0 || hour >= 24 || minute < 0 || minute >= 60 || second < 0 || second >= 60
            || micro < 0 || micro >= 1_000_000 {
            return None;
        }
        Some(WallTime { year, month, day, hour, minute, second, micro })
    }
}

/// chrono's day number (`NaiveDate::num_days_from_ce`) of a date, counting
/// 0001-01-01 as day 1. Claimed: chrono's proleptic Gregorian calendar agrees
/// with `days_from_civil`, shifted so that 1970-01-01 is day 719163.
#[verifier::external_body]
fn ce_day_number(year: i64, month: i64, day: i64) -> (r: Option<i64>)
    requires
        valid_date(year as int, month as int, day as int),
    ensures
        r == Some((days_from_civil(year as int, month as int, day as int) + CE_OFFSET) as i64),
{
    let date = chrono::NaiveDate::from_ymd_opt(year as i32, month as u32, day as u32)?;
    Some(date.num_days_from_ce() as i64)
}

/// The date of a chrono day number (`NaiveDate::from_num_days_from_ce_opt`).
/// Claimed: every day number between chrono's first and last date maps to
/// the one valid date whose `days_from_civil` it is.
#[verifier::external_body]
fn date_of_ce_day(n: i64) -> (r: Option<(i64, i64, i64)>)
    requires
        ce_in_range(n as int),
    ensures
        r matches Some((y, m, d)) ==> valid_date(y as int, m as int, d as int)
            && days_from_civil(y as int, m as int, d as int) + CE_OFFSET == n,
        r is Some,
{
    let date = chrono::NaiveDate::from_num_days_from_ce_opt(n as i32)?;
    Some((date.year() as i64, date.month() as i64, date.day() as i64))
}

/// chrono's day of the week of a date (`Datelike::weekday`, then
/// `num_days_from_sunday`). Claimed: it is `weekday_of`, the count of days
/// since a Thursday taken modulo 7.
#[verifier::external_body]
fn weekday_number(year: i64, month: i64, day: i64) -> (r: Option<i64>)
    requires
        valid_date(year as int, month as int, day as int),
    ensures
        r == Some(weekday_of(year as int, month as int, day as int) as i64),
{
    let date = chrono::NaiveDate::from_ymd_opt(year as i32, month as u32, day as u32)?;
    Some(date.weekday().num_days_from_sunday() as i64)
}


/// Adding one year to the first of January adds the length of that year.
pub proof fn lemma_year_length(y: int)
    ensures
        days_before_year(y + 1) == days_before_year(y) + 365 + if spec_is_leap(y) { 1int } else { 0int },
{
    reveal(days_before_year);
    assert(leaps_upto(y) - leaps_upto(y - 1) == if spec_is_leap(y) { 1int } else { 0int });
}

/// The first of January moves forward with the year.
pub proof fn lemma_years_ordered(y1: int, y2: int)
    requires
        y1 <= y2,
    ensures
        days_before_year(y1) + 365 * (y2 - y1) <= days_before_year(y2),
    decreases y2 - y1,
{
    if y1 < y2 {
        lemma_years_ordered(y1, y2 - 1);
        lemma_year_length(y2 - 1);
    }
}

/// A span of years holds at most 366 days a year.
pub proof fn lemma_years_bounded(y1: int, y2: int)
    requires
        y1 <= y2,
    ensures
        days_before_year(y2) <= days_before_year(y1) + 366 * (y2 - y1),
    decreases y2 - y1,
{
    if y1 < y2 {
        lemma_years_bounded(y1, y2 - 1);
        lemma_year_length(y2 - 1);
    }
}

/// The offsets of the months within a year grow by the length of each month.
pub proof fn lemma_month_offsets(y: int, m1: int, m2: int)
    requires
        1 <= m1 < m2 <= 12,
    ensures
        days_before_month(y, m1) + days_in_month(y, m1) <= days_before_month(y, m2),
{
}

/// The last day of a year comes right before the next first of January.
pub proof fn lemma_end_of_year(y: int, m: int, d: int)
    requires
        1 <= m <= 12,
        1 <= d <= days_in_month(y, m),
    ensures
        days_from_civil(y, m, d) < days_before_year(y + 1),
        days_from_civil(y, m, d) >= days_before_year(y),
{
    lemma_year_length(y);
}

/// Dates in calendar order have increasing day numbers.
pub proof fn lemma_date_order(y1: int, m1: int, d1: int, y2: int, m2: int, d2: int)
    requires
        1 <= m1 <= 12,
        1 <= d1 <= days_in_month(y1, m1),
        1 <= m2 <= 12,
        1 <= d2 <= days_in_month(y2, m2),
        y1 < y2 || (y1 == y2 && m1 < m2) || (y1 == y2 && m1 == m2 && d1 < d2),
    ensures
        days_from_civil(y1, m1, d1) < days_from_civil(y2, m2, d2),
{
    if y1 < y2 {
        lemma_end_of_year(y1, m1, d1);
        lemma_end_of_year(y2, m2, d2);
        lemma_years_ordered(y1 + 1, y2);
    } else if m1 < m2 {
        lemma_month_offsets(y1, m1, m2);
    }
}

/// Every representable date has a chrono day number within chrono's range,
/// and its instant fits in an `i64` of microseconds.
pub proof fn lemma_day_number_bounds(y: int, m: int, d: int)
    requires
        valid_date(y, m, d),
    ensures
        ce_in_range(days_from_civil(y, m, d) + CE_OFFSET),
{
    reveal(days_before_year);
    assert(days_from_civil(MIN_YEAR as int, 1, 1) + CE_OFFSET == CE_MIN);
    assert(days_from_civil(MAX_YEAR as int, 12, 31) + CE_OFFSET == CE_MAX);
    if y != MIN_YEAR || m != 1 || d != 1 {
        lemma_date_order(MIN_YEAR as int, 1, 1, y, m, d);
    }
    if y != MAX_YEAR || m != 12 || d != 31 {
        lemma_date_order(y, m, d, MAX_YEAR as int, 12, 31);
    }
}

/// Two readings with the same instant are the same reading.
pub proof fn lemma_epoch_injective(w: WallTime, y: int, m: int, d: int, h: int, mi: int, s: int, us: int)
    requires
        w.wf(),
        valid_civil(y, m, d, h, mi, s, us),
        w.epoch() == civil_epoch(y, m, d, h, mi, s, us),
    ensures
        w.year == y && w.month == m && w.day == d && w.hour == h && w.minute == mi
            && w.second == s && w.micro == us,
{
    let dn1 = w.day_number();
    let dn2 = days_from_civil(y, m, d);
    assert(dn1 == dn2);
    let (wy, wm, wd) = (w.year as int, w.month as int, w.day as int);
    if wy < y || (wy == y && wm < m) || (wy == y && wm == m && wd < d) {
        lemma_date_order(wy, wm, wd, y, m, d);
    } else if y < wy || (y == wy && m < wm) || (y == wy && m == wm && d < wd) {
        lemma_date_order(y, m, d, wy, wm, wd);
    }
}

/// A reading whose instant is a whole number of minutes has zero seconds
/// and microseconds.
pub proof fn lemma_minute_aligned(w: WallTime, k: int)
    requires
        w.wf(),
        w.epoch() == k * 60_000_000,
    ensures
        w.second == 0,
        w.micro == 0,
{
    let q = w.day_number() * 1440 + w.hour * 60 + w.minute;
    assert(w.epoch() == q * 60_000_000 + w.second * 1_000_000 + w.micro);
    assert((k - q) * 60_000_000 == w.second * 1_000_000 + w.micro);
}

/// A reading's instant lies within its day.
pub proof fn lemma_epoch_in_day(w: WallTime)
    requires
        w.wf(),
    ensures
        w.day_number() * 86_400_000_000 <= w.epoch() < w.day_number() * 86_400_000_000 + 86_400_000_000,
{
}

/// The instants with a reading are exactly those from `epoch_min` up to
/// `epoch_max`.
pub proof fn lemma_range_iff(us: int)
    ensures
        micros_in_range(us) <==> epoch_min() <= us < epoch_max(),
{
    let q = us / 86_400_000_000;
    assert(q * 86_400_000_000 <= us < q * 86_400_000_000 + 86_400_000_000);
    if micros_in_range(us) {
        assert((CE_MIN - CE_OFFSET) * 86_400_000_000 <= q * 86_400_000_000) by (nonlinear_arith)
            requires
                CE_MIN - CE_OFFSET <= q,
        ;
        assert(q * 86_400_000_000 + 86_400_000_000 <= (CE_MAX - CE_OFFSET + 1) * 86_400_000_000) by (nonlinear_arith)
            requires
                q <= CE_MAX - CE_OFFSET,
        ;
    }
    if epoch_min() <= us < epoch_max() {
        assert(CE_MIN - CE_OFFSET <= q) by (nonlinear_arith)
            requires
                (CE_MIN - CE_OFFSET) * 86_400_000_000 <= us,
                us < q * 86_400_000_000 + 86_400_000_000,
        ;
        assert(q <= CE_MAX - CE_OFFSET) by (nonlinear_arith)
            requires
                q * 86_400_000_000 <= us,
                us < (CE_MAX - CE_OFFSET + 1) * 86_400_000_000,
        ;
    }
}

/// The instant of a valid reading has a reading.
pub proof fn lemma_epoch_in_range(w: WallTime)
    requires
        w.wf(),
    ensures
        micros_in_range(w.epoch()),
{
    lemma_day_number_bounds(w.year as int, w.month as int, w.day as int);
    let dn = w.day_number();
    assert(w.epoch() == dn * 86_400_000_000 + w.time_of_day());
    assert(w.epoch() / 86_400_000_000 == dn) by (nonlinear_arith)
        requires
            w.epoch() == dn * 86_400_000_000 + w.time_of_day(),
            0 <= w.time_of_day() < 86_400_000_000,
    ;
}

/// Instants of representable readings lie in `[EPOCH_MIN, EPOCH_MAX)`.
pub open spec fn epoch_min() -> int {
    (CE_MIN - CE_OFFSET) * 86_400_000_000
}

pub open spec fn epoch_max() -> int {
    (CE_MAX - CE_OFFSET + 1) * 86_400_000_000
}

pub proof fn lemma_epoch_bounds(w: WallTime)
    requires
        w.wf(),
    ensures
        epoch_min() <= w.epoch() < epoch_max(),
{
    lemma_day_number_bounds(w.year as int, w.month as int, w.day as int);
}

/// The reading whose instant (taken as UTC) is `us`, when there is one.
pub open spec fn reading_at(us: int) -> WallTime {
    choose|w: WallTime| #[trigger] w.epoch() == us && w.wf()
}

/// Every day number chrono can represent is the day number of a date.
pub proof fn lemma_date_exists(n: int)
    requires
        CE_MIN - CE_OFFSET <= n <= CE_MAX - CE_OFFSET,
    ensures
        exists|y: int, m: int, d: int| valid_date(y, m, d) && #[trigger] days_from_civil(y, m, d) == n,
    decreases n - (CE_MIN - CE_OFFSET),
{
    reveal(days_before_year);
    if n == CE_MIN - CE_OFFSET {
        assert(days_from_civil(MIN_YEAR as int, 1, 1) + CE_OFFSET == CE_MIN);
        assert(valid_date(MIN_YEAR as int, 1, 1));
    } else {
        lemma_date_exists(n - 1);
        let (y, m, d) = choose|y: int, m: int, d: int| valid_date(y, m, d) && #[trigger] days_from_civil(y, m, d) == n - 1;
        if d < days_in_month(y, m) {
            assert(days_from_civil(y, m, d + 1) == n);
            assert(valid_date(y, m, d + 1));
        } else {
            lemma_year_length(y);
            if m < 12 {
                assert(days_from_civil(y, m + 1, 1) == n);
                assert(valid_date(y, m + 1, 1));
            } else {
                assert(days_from_civil(MAX_YEAR as int, 12, 31) + CE_OFFSET == CE_MAX);
                assert(y < MAX_YEAR);
                assert(days_from_civil(y + 1, 1, 1) == n);
                assert(valid_date(y + 1, 1, 1));
            }
        }
    }
}

/// Every instant in range has a reading.
pub proof fn lemma_reading_exists(us: int)
    requires
        micros_in_range(us),
    ensures
        reading_at(us).wf(),
        reading_at(us).epoch() == us,
{
    let n = us / 86_400_000_000;
    let tod = us % 86_400_000_000;
    assert(us == n * 86_400_000_000 + tod);
    lemma_date_exists(n);
    let (y, m, d) = choose|y: int, m: int, d: int| valid_date(y, m, d) && #[trigger] days_from_civil(y, m, d) == n;
    let h = tod / 3_600_000_000;
    let r1 = tod % 3_600_000_000;
    let mi = r1 / 60_000_000;
    let r2 = r1 % 60_000_000;
    let sec = r2 / 1_000_000;
    let u = r2 % 1_000_000;
    assert(tod == h * 3_600_000_000 + r1);
    assert(r1 == mi * 60_000_000 + r2);
    assert(r2 == sec * 1_000_000 + u);
    assert(0 <= h < 24);
    let w = WallTime { year: y as i64, month: m as i64, day: d as i64, hour: h as i64, minute: mi as i64,
        second: sec as i64, micro: u as i64 };
    assert(w.wf());
    assert(w.epoch() == us);
}

/// A reading is the one at its own instant.
pub proof fn lemma_reading_at(w: WallTime)
    requires
        w.wf(),
    ensures
        reading_at(w.epoch()) == w,
{
    let r = reading_at(w.epoch());
    assert(r.epoch() == w.epoch() && r.wf());
    lemma_epoch_injective(r, w.year as int, w.month as int, w.day as int, w.hour as int,
        w.minute as int, w.second as int, w.micro as int);
}

impl WallTime {
    /// The instant of this reading taken as UTC, in microseconds since the
    /// epoch.
    pub fn to_micros(&self) -> (r: i64)
        requires
            self.wf(),
        ensures
            r == self.epoch(),
    {
        proof {
            lemma_day_number_bounds(self.year as int, self.month as int, self.day as int);
        }
        let n = match ce_day_number(self.year, self.month, self.day) {
            Some(n) => n,
            None => 0,
        };
        let days = n - CE_OFFSET;
        days * MICROS_PER_DAY + self.hour * MICROS_PER_HOUR + self.minute * MICROS_PER_MINUTE
            + self.second * MICROS_PER_SECOND + self.micro
    }

    /// The reading whose instant is `us` microseconds since the epoch;
    /// `None` when it falls outside chrono's range.
    pub fn from_micros(us: i128) -> (r: Option<WallTime>)
        ensures
            r matches Some(w) ==> w.wf() && w.epoch() == us,
            r is Some <==> micros_in_range(us as int),
    {
        let (days, tod) = split_days(us);
        let n = days + CE_OFFSET as i128;
        if n < CE_MIN as i128 || n > CE_MAX as i128 {
            return None;
        }
        let (y, m, d) = match date_of_ce_day(n as i64) {
            Some(t) => t,
            None => { return None; },
        };
        let tod = tod as i64;
        let hour = tod / MICROS_PER_HOUR;
        let rest = tod % MICROS_PER_HOUR;
        let minute = rest / MICROS_PER_MINUTE;
        let rest = rest % MICROS_PER_MINUTE;
        let second = rest / MICROS_PER_SECOND;
        let micro = rest % MICROS_PER_SECOND;
        Some(WallTime { year: y, month: m, day: d, hour, minute, second, micro })
    }

    /// This reading moved by `us` microseconds (`checked_add_signed`).
    pub fn add_micros(&self, us: i64) -> (r: Option<WallTime>)
        requires
            self.wf(),
        ensures
            r matches Some(w) ==> w.wf() && w.epoch() == self.epoch() + us,
            r is Some <==> micros_in_range(self.epoch() + us),
    {
        let base = self.to_micros();
        WallTime::from_micros(base as i128 + us as i128)
    }

    /// Day of the week, Sunday = 0 (`num_days_from_sunday`).
    pub fn weekday_from_sunday(&self) -> (r: i64)
        requires
            self.wf(),
        ensures
            r == self.weekday(),
            0 <= r < 7,
    {
        match weekday_number(self.year, self.month, self.day) {
            Some(w) => w,
            None => 0,
        }
    }
}

/// Splits microseconds since the epoch into whole days and the remainder.
fn split_days(us: i128) -> (r: (i128, i128))
    ensures
        r.0 == (us as int) / (MICROS_PER_DAY as int),
        r.1 == (us as int) % (MICROS_PER_DAY as int),
        0 <= r.1 < MICROS_PER_DAY,
{
    let d: i128 = MICROS_PER_DAY as i128;
    if us >= 0 {
        (us / d, us % d)
    } else {
        let a: i128 = -(us + 1);
        let q: i128 = a / d;
        let rem: i128 = a % d;
        (-q - 1, d - 1 - rem)
    }
}


/// The calendar's tables agree with one another: each month starts where
/// the one before it ends, a year has 366 days exactly when it is a leap
/// year (else 365), the next year starts that many days later, and
/// 1 January 1970 was a Thursday.
#[verifier::spinoff_prover]
pub proof fn lemma_calendar(y: int)
    ensures
        forall|m: int| 1 <= m < 12 ==> #[trigger] days_before_month(y, m + 1) == days_before_month(y, m) + days_in_month(y, m),
        days_before_month(y, 1) == 0,
        days_before_month(y, 12) + days_in_month(y, 12) == (if spec_is_leap(y) { 366int } else { 365int }),
        days_before_year(y + 1) - days_before_year(y) == (if spec_is_leap(y) { 366int } else { 365int }),
        weekday_of(1970, 1, 1) == 4,
{
    reveal(days_before_year);
    lemma_div_step(y, 4);
    lemma_div_step(y, 100);
    lemma_div_step(y, 400);
    lemma_leap_divisors(y);
}

/// Stepping up by one passes a multiple of `c` exactly when it lands on one.
#[verifier::spinoff_prover]
proof fn lemma_div_step(y: int, c: int)
    requires
        c > 0,
    ensures
        y / c - (y - 1) / c == (if y % c == 0 { 1int } else { 0int }),
{
    vstd::arithmetic::div_mod::lemma_fundamental_div_mod(y, c);
    vstd::arithmetic::div_mod::lemma_fundamental_div_mod(y - 1, c);
    vstd::arithmetic::div_mod::lemma_mod_bound(y, c);
    vstd::arithmetic::div_mod::lemma_mod_bound(y - 1, c);
    let q = y / c;
    let r = y % c;
    assert(y == c * q + r);
    if r == 0 {
        assert(y - 1 == (q - 1) * c + (c - 1)) by (nonlinear_arith)
            requires
                y == c * q + r,
                r == 0;
        vstd::arithmetic::div_mod::lemma_fundamental_div_mod_converse(y - 1, c, q - 1, c - 1);
    } else {
        assert(y - 1 == q * c + (r - 1)) by (nonlinear_arith)
            requires
                y == c * q + r;
        vstd::arithmetic::div_mod::lemma_fundamental_div_mod_converse(y - 1, c, q, r - 1);
    }
}

/// A multiple of 400 is one of 100, and a multiple of 100 one of 4.
#[verifier::spinoff_prover]
proof fn lemma_leap_divisors(y: int)
    ensures
        y % 400 == 0 ==> y % 100 == 0,
        y % 100 == 0 ==> y % 4 == 0,
{
    if y % 400 == 0 {
        vstd::arithmetic::div_mod::lemma_fundamental_div_mod(y, 400);
        vstd::arithmetic::div_mod::lemma_fundamental_div_mod_converse(y, 100, (y / 400) * 4, 0);
    }
    if y % 100 == 0 {
        vstd::arithmetic::div_mod::lemma_fundamental_div_mod(y, 100);
        vstd::arithmetic::div_mod::lemma_fundamental_div_mod_converse(y, 4, (y / 100) * 25, 0);
    }
}

} // verus!
