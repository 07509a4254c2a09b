//! Relative date arithmetic, as far as the search engine uses it.
//!
//! Plural names are relative offsets, singular names absolute replacements.
//! Adding a delta to a reading goes:
//!
//! 1. `year = year + years`;
//! 2. `month = month_at or month`, then `+ months` with one wrap into the
//!    neighbouring year;
//! 3. `day = min(day_at or day, length of that month)`;
//! 4. the absolute hour, minute, second and microsecond replace the reading's;
//! 5. then days, hours, minutes, seconds and microseconds are added, in that
//!    order, each step failing when it leaves the representable range.
use vstd::prelude::*;
use crate::consts::{days_in_month, last_day_of_month};
use crate::datetime::{civil_epoch, epoch_max, epoch_min, lemma_epoch_in_range, lemma_range_iff, micros_in_range, valid_civil,
    WallTime, MAX_YEAR, MIN_YEAR};

verus! {

/// The largest number of seconds a chrono duration can hold (`i64::MAX`
/// milliseconds).
pub const MAX_DELTA_SECONDS: i64 = 9_223_372_036_854_775;

#[derive(Clone, Copy, Debug)]
pub struct RelDelta {
    pub years: i64,
    pub months: i64,
    pub days: i64,
    pub hours: i64,
    pub minutes: i64,
    pub seconds: i64,
    pub microseconds: i64,
    pub month: Option<u32>,
    pub day: Option<u32>,
    pub hour: Option<u32>,
    pub minute: Option<u32>,
    pub second: Option<u32>,
    pub microsecond: Option<u32>,
}

/// The delta that changes nothing.
pub open spec fn zero_delta() -> RelDelta {
    RelDelta {
        years: 0,
        months: 0,
        days: 0,
        hours: 0,
        minutes: 0,
        seconds: 0,
        microseconds: 0,
        month: None,
        day: None,
        hour: None,
        minute: None,
        second: None,
        microsecond: None,
    }
}

impl Default for RelDelta {
    fn default() -> (r: Self)
        ensures
            r == zero_delta(),
    {
        RelDelta {
            years: 0,
            months: 0,
            days: 0,
            hours: 0,
            minutes: 0,
            seconds: 0,
            microseconds: 0,
            month: None,
            day: None,
            hour: None,
            minute: None,
            second: None,
            microsecond: None,
        }
    }
}

pub open spec fn opt_or(o: Option<u32>, d: int) -> int {
    match o {
        Some(v) => v as int,
        None => d,
    }
}

/// The year and month after steps 1 and 2.
pub open spec fn target_year_month(dt: WallTime, rd: RelDelta) -> (int, int) {
    let y = dt.year + rd.years;
    let m = opt_or(rd.month, dt.month as int);
    if rd.months != 0 {
        let m2 = m + rd.months;
        if m2 > 12 {
            (y + 1, m2 - 12)
        } else if m2 < 1 {
            (y - 1, m2 + 12)
        } else {
            (y, m2)
        }
    } else {
        (y, m)
    }
}

/// The day after step 3: the wanted day, clamped to the month's length.
pub open spec fn target_day(dt: WallTime, rd: RelDelta) -> int {
    let (y, m) = target_year_month(dt, rd);
    let wanted = opt_or(rd.day, dt.day as int);
    if wanted < days_in_month(y, m) { wanted } else { days_in_month(y, m) }
}

/// The fields after step 4, before any relative time is added.
pub open spec fn replaced_fields(dt: WallTime, rd: RelDelta) -> (int, int, int, int, int, int, int) {
    let (y, m) = target_year_month(dt, rd);
    (y, m, target_day(dt, rd), opt_or(rd.hour, dt.hour as int), opt_or(rd.minute, dt.minute as int),
        opt_or(rd.second, dt.second as int), opt_or(rd.microsecond, dt.micro as int))
}

/// Whether `dt + rd` can be computed without a panic: the arithmetic does
/// not overflow, the month lands within 1..=12 after its one wrap, each
/// relative amount fits in a chrono duration.
pub open spec fn add_defined(dt: WallTime, rd: RelDelta) -> bool {
    let (y, m) = target_year_month(dt, rd);
    &&& -9_000_000_000_000_000_000 <= rd.years <= 9_000_000_000_000_000_000
    &&& -9_000_000_000_000_000_000 <= rd.months <= 9_000_000_000_000_000_000
    &&& 1 <= m <= 12
    &&& -MAX_DELTA_SECONDS <= rd.days * 86400 <= MAX_DELTA_SECONDS
    &&& -MAX_DELTA_SECONDS <= rd.hours * 3600 <= MAX_DELTA_SECONDS
    &&& -MAX_DELTA_SECONDS <= rd.minutes * 60 <= MAX_DELTA_SECONDS
    &&& -MAX_DELTA_SECONDS <= rd.seconds <= MAX_DELTA_SECONDS
}

/// The instant of `dt + rd`, or `None` when a step leaves the
/// representable range.
#[verifier::opaque]
pub open spec fn add_spec(dt: WallTime, rd: RelDelta) -> Option<int> {
    let (y, m, d, h, mi, s, us) = replaced_fields(dt, rd);
    if !valid_civil(y, m, d, h, mi, s, us) {
        None
    } else {
        let e1 = civil_epoch(y, m, d, h, mi, s, us) + rd.days * 86_400_000_000;
        let e2 = e1 + rd.hours * 3_600_000_000;
        let e3 = e2 + rd.minutes * 60_000_000;
        let e4 = e3 + rd.seconds * 1_000_000;
        let e5 = e4 + rd.microseconds;
        if micros_in_range(e1) && micros_in_range(e2) && micros_in_range(e3)
            && micros_in_range(e4) && micros_in_range(e5) {
            Some(e5)
        } else {
            None
        }
    }
}

/// Adding a delta that keeps the date before its relative part: the result
/// is the reading with its time fields replaced, then moved by the relative
/// amounts.
pub proof fn lemma_add_same_date(dt: WallTime, rd: RelDelta)
    requires
        dt.wf(),
        rd.years == 0,
        rd.months == 0,
        rd.month is None,
        rd.day is None,
        add_spec(dt, rd) is Some,
    ensures
        add_spec(dt, rd) == Some(civil_epoch(dt.year as int, dt.month as int, dt.day as int,
            opt_or(rd.hour, dt.hour as int), opt_or(rd.minute, dt.minute as int),
            opt_or(rd.second, dt.second as int), opt_or(rd.microsecond, dt.micro as int))
            + rd.days * 86_400_000_000 + rd.hours * 3_600_000_000 + rd.minutes * 60_000_000
            + rd.seconds * 1_000_000 + rd.microseconds),
{
    reveal(add_spec);
}

/// When `dt + rd` exists: the replaced fields form a valid reading and the
/// result is its instant moved by all the relative amounts.
pub proof fn lemma_add_unfold(dt: WallTime, rd: RelDelta)
    requires
        dt.wf(),
        add_spec(dt, rd) is Some,
    ensures
        ({
            let (y, m, d, h, mi, s, us) = replaced_fields(dt, rd);
            &&& valid_civil(y, m, d, h, mi, s, us)
            &&& add_spec(dt, rd) == Some(civil_epoch(y, m, d, h, mi, s, us)
                + rd.days * 86_400_000_000 + rd.hours * 3_600_000_000 + rd.minutes * 60_000_000
                + rd.seconds * 1_000_000 + rd.microseconds)
        }),
{
    reveal(add_spec);
}

/// Adding a forward delta that keeps a valid date and time of day fails
/// only past the last representable instant: the instant it aims at is at
/// least `epoch_max`.
pub proof fn lemma_add_forward_fails(dt: WallTime, rd: RelDelta)
    requires
        dt.wf(),
        add_spec(dt, rd) is None,
        rd.days >= 0,
        rd.hours >= 0,
        rd.minutes >= 0,
        rd.seconds >= 0,
        rd.microseconds >= 0,
        ({
            let (y, m, d, h, mi, s, us) = replaced_fields(dt, rd);
            valid_civil(y, m, d, h, mi, s, us)
        }),
    ensures
        ({
            let (y, m, d, h, mi, s, us) = replaced_fields(dt, rd);
            civil_epoch(y, m, d, h, mi, s, us) + rd.days * 86_400_000_000 + rd.hours * 3_600_000_000
                + rd.minutes * 60_000_000 + rd.seconds * 1_000_000 + rd.microseconds >= epoch_max()
        }),
{
    reveal(add_spec);
    let (y, m, d, h, mi, s, us) = replaced_fields(dt, rd);
    let w = WallTime { year: y as i64, month: m as i64, day: d as i64, hour: h as i64, minute: mi as i64,
        second: s as i64, micro: us as i64 };
    assert(w.wf());
    lemma_epoch_in_range(w);
    lemma_range_iff(w.epoch());
    let e0 = civil_epoch(y, m, d, h, mi, s, us);
    let e1 = e0 + rd.days * 86_400_000_000;
    let e2 = e1 + rd.hours * 3_600_000_000;
    let e3 = e2 + rd.minutes * 60_000_000;
    let e4 = e3 + rd.seconds * 1_000_000;
    let e5 = e4 + rd.microseconds;
    lemma_range_iff(e1);
    lemma_range_iff(e2);
    lemma_range_iff(e3);
    lemma_range_iff(e4);
    lemma_range_iff(e5);
}

/// Adding a backward delta that keeps a valid date and time of day fails
/// only before the first representable instant: the instant it aims at is
/// below `epoch_min`.
pub proof fn lemma_add_backward_fails(dt: WallTime, rd: RelDelta)
    requires
        dt.wf(),
        add_spec(dt, rd) is None,
        rd.days <= 0,
        rd.hours <= 0,
        rd.minutes <= 0,
        rd.seconds <= 0,
        rd.microseconds <= 0,
        ({
            let (y, m, d, h, mi, s, us) = replaced_fields(dt, rd);
            valid_civil(y, m, d, h, mi, s, us)
        }),
    ensures
        ({
            let (y, m, d, h, mi, s, us) = replaced_fields(dt, rd);
            civil_epoch(y, m, d, h, mi, s, us) + rd.days * 86_400_000_000 + rd.hours * 3_600_000_000
                + rd.minutes * 60_000_000 + rd.seconds * 1_000_000 + rd.microseconds < epoch_min()
        }),
{
    reveal(add_spec);
    let (y, m, d, h, mi, s, us) = replaced_fields(dt, rd);
    let w = WallTime { year: y as i64, month: m as i64, day: d as i64, hour: h as i64, minute: mi as i64,
        second: s as i64, micro: us as i64 };
    assert(w.wf());
    lemma_epoch_in_range(w);
    lemma_range_iff(w.epoch());
    let e0 = civil_epoch(y, m, d, h, mi, s, us);
    let e1 = e0 + rd.days * 86_400_000_000;
    let e2 = e1 + rd.hours * 3_600_000_000;
    let e3 = e2 + rd.minutes * 60_000_000;
    let e4 = e3 + rd.seconds * 1_000_000;
    let e5 = e4 + rd.microseconds;
    lemma_range_iff(e1);
    lemma_range_iff(e2);
    lemma_range_iff(e3);
    lemma_range_iff(e4);
    lemma_range_iff(e5);
}

/// Adding a delta whose replaced date is not valid fails; with the day,
/// hour, minute and second all valid and the month in range, that means
/// the year left the representable range.
pub proof fn lemma_add_invalid_year(dt: WallTime, rd: RelDelta)
    requires
        dt.wf(),
        ({
            let (y, m, d, h, mi, s, us) = replaced_fields(dt, rd);
            &&& 1 <= m <= 12
            &&& 1 <= d <= days_in_month(y, m)
            &&& 0 <= h < 24 && 0 <= mi < 60 && 0 <= s < 60 && 0 <= us < 1_000_000
        }),
        rd.days == 0 && rd.hours == 0 && rd.minutes == 0 && rd.seconds == 0 && rd.microseconds == 0,
        add_spec(dt, rd) is None,
    ensures
        target_year_month(dt, rd).0 > MAX_YEAR || target_year_month(dt, rd).0 < MIN_YEAR,
{
    reveal(add_spec);
    let (y, m, d, h, mi, s, us) = replaced_fields(dt, rd);
    if MIN_YEAR <= y <= MAX_YEAR {
        let w = WallTime { year: y as i64, month: m as i64, day: d as i64, hour: h as i64, minute: mi as i64,
            second: s as i64, micro: us as i64 };
        assert(w.wf());
        lemma_epoch_in_range(w);
    }
}

impl RelDelta {
    pub fn new() -> (r: Self)
        ensures
            r == zero_delta(),
    {
        RelDelta::default()
    }

    pub fn years(self, v: i64) -> (r: Self)
        ensures
            r == (RelDelta { years: v, ..self }),
    {
        RelDelta { years: v, ..self }
    }

    pub fn months(self, v: i64) -> (r: Self)
        ensures
            r == (RelDelta { months: v, ..self }),
    {
        RelDelta { months: v, ..self }
    }

    pub fn days(self, v: i64) -> (r: Self)
        ensures
            r == (RelDelta { days: v, ..self }),
    {
        RelDelta { days: v, ..self }
    }

    pub fn hours(self, v: i64) -> (r: Self)
        ensures
            r == (RelDelta { hours: v, ..self }),
    {
        RelDelta { hours: v, ..self }
    }

    pub fn minutes(self, v: i64) -> (r: Self)
        ensures
            r == (RelDelta { minutes: v, ..self }),
    {
        RelDelta { minutes: v, ..self }
    }

    pub fn seconds(self, v: i64) -> (r: Self)
        ensures
            r == (RelDelta { seconds: v, ..self }),
    {
        RelDelta { seconds: v, ..self }
    }

    pub fn microseconds(self, v: i64) -> (r: Self)
        ensures
            r == (RelDelta { microseconds: v, ..self }),
    {
        RelDelta { microseconds: v, ..self }
    }

    pub fn month_at(self, v: u32) -> (r: Self)
        ensures
            r == (RelDelta { month: Some(v), ..self }),
    {
        RelDelta { month: Some(v), ..self }
    }

    pub fn day_at(self, v: u32) -> (r: Self)
        ensures
            r == (RelDelta { day: Some(v), ..self }),
    {
        RelDelta { day: Some(v), ..self }
    }

    pub fn hour_at(self, v: u32) -> (r: Self)
        ensures
            r == (RelDelta { hour: Some(v), ..self }),
    {
        RelDelta { hour: Some(v), ..self }
    }

    pub fn minute_at(self, v: u32) -> (r: Self)
        ensures
            r == (RelDelta { minute: Some(v), ..self }),
    {
        RelDelta { minute: Some(v), ..self }
    }

    pub fn second_at(self, v: u32) -> (r: Self)
        ensures
            r == (RelDelta { second: Some(v), ..self }),
    {
        RelDelta { second: Some(v), ..self }
    }
}

fn or_else(o: Option<u32>, d: i64) -> (r: i64)
    ensures
        r == opt_or(o, d as int),
{
    match o {
        Some(v) => v as i64,
        None => d,
    }
}

/// One relative step: `w` moved by `us` microseconds.
fn shift(w: WallTime, us: i128) -> (r: Option<WallTime>)
    requires
        w.wf(),
        -10_000_000_000_000_000_000_000 <= us <= 10_000_000_000_000_000_000_000,
    ensures
        r matches Some(v) ==> v.wf() && v.epoch() == w.epoch() + us,
        r is Some <==> micros_in_range(w.epoch() + us),
{
    let base = w.to_micros();
    WallTime::from_micros(base as i128 + us)
}

/// `dt + rd`, in the order the module documentation gives. `None` when
/// the result, or any intermediate step, leaves the representable range,
/// and when an absolute field is out of range (an absolute microsecond of a
/// million or more among them: readings here have no leap seconds).
pub fn add(dt: WallTime, rd: &RelDelta) -> (r: Option<WallTime>)
    requires
        dt.wf(),
        add_defined(dt, *rd),
    ensures
        r matches Some(w) ==> w.wf() && add_spec(dt, *rd) == Some(w.epoch()),
        r is None <==> add_spec(dt, *rd) is None,
{
    reveal(add_spec);
    let mut year: i64 = dt.year + rd.years;
    let mut month: i64 = or_else(rd.month, dt.month);
    if rd.months != 0 {
        month = month + rd.months;
        if month > 12 {
            year = year + 1;
            month = month - 12;
        } else if month < 1 {
            year = year - 1;
            month = month + 12;
        }
    }
    let wanted_day = or_else(rd.day, dt.day);
    let last = last_day_of_month(year, month);
    let day = if wanted_day < last { wanted_day } else { last };
    let replaced = match WallTime::new(
        year,
        month,
        day,
        or_else(rd.hour, dt.hour),
        or_else(rd.minute, dt.minute),
        or_else(rd.second, dt.second),
        or_else(rd.microsecond, dt.micro),
    ) {
        Some(w) => w,
        None => { return None; },
    };
    let r1 = match shift(replaced, rd.days as i128 * 86_400_000_000) {
        Some(w) => w,
        None => { return None; },
    };
    let r2 = match shift(r1, rd.hours as i128 * 3_600_000_000) {
        Some(w) => w,
        None => { return None; },
    };
    let r3 = match shift(r2, rd.minutes as i128 * 60_000_000) {
        Some(w) => w,
        None => { return None; },
    };
    let r4 = match shift(r3, rd.seconds as i128 * 1_000_000) {
        Some(w) => w,
        None => { return None; },
    };
    shift(r4, rd.microseconds as i128)
}

} // verus!
