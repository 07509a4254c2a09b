//! The next/previous search engine and the calendar helpers it uses.
use vstd::prelude::*;
use crate::consts::{
    days_in_month, last_day_of_month, range_high, range_low, DAY_FIELD, DOW_FIELD, HOUR_FIELD,
    MINUTE_FIELD, MONTH_FIELD, SECOND_FIELD, YEAR_CRON_LEN, YEAR_FIELD,
};
use crate::datetime::{
    epoch_max, epoch_min, days_before_year, days_from_civil, lemma_date_order, lemma_end_of_year, lemma_epoch_in_day,
    lemma_epoch_injective, lemma_years_ordered, valid_date, weekday_of, WallTime, MAX_YEAR, MIN_YEAR,
};
use crate::api::{is_successor, spec_is_successor, Resolved, WallClock};
use crate::error::{CroniterError, ErrorView};
use crate::expand::{item_lt, strictly_sorted, Expanded};
use crate::item::{contains_item, Item, Nth};
use crate::reldelta::RelDelta;
use crate::skip::{from_on, in_back_span, in_span, month_before, up_to, abs_hour, abs_minute, abs_second, lemma_cycle_gap, lemma_earlier_date, lemma_not_earlier_date, lemma_scan_gap,
    lemma_unit_between, lemma_units};

verus! {

/// The value an item stands for when looking for the nearest match:
/// `Last` stands for `range_val` (the length of the month), a number larger
/// than `range_val` is skipped, and `*` is skipped.
pub open spec fn effective(item: Item, range_val: Option<i64>) -> Option<int> {
    match (item, range_val) {
        (Item::Last, Some(rv)) => Some(rv as int),
        (Item::Last, None) => None,
        (Item::Num(n), Some(rv)) => if n > rv { None } else { Some(n as int) },
        (Item::Num(n), None) => Some(n as int),
        (Item::Star, _) => None,
    }
}

/// The first value of `s`, in list order, that is at least `x`.
pub open spec fn next_scan(x: int, s: Seq<Item>, range_val: Option<i64>) -> Option<int>
    decreases s.len(),
{
    if s.len() == 0 {
        None
    } else {
        match effective(s[0], range_val) {
            Some(d) => if d >= x { Some(d) } else { next_scan(x, s.drop_first(), range_val) },
            None => next_scan(x, s.drop_first(), range_val),
        }
    }
}

/// How far forward the nearest value of `s` is from `x`; past the last value
/// it wraps round to the first one plus `range_val`, and with no
/// `range_val` (the year field) there is no wrap.
pub open spec fn spec_next_nearest_diff(x: int, s: Seq<Item>, range_val: Option<i64>) -> Option<int> {
    match next_scan(x, s, range_val) {
        Some(d) => Some(d - x),
        None => match range_val {
            None => None,
            Some(rv) => if s.len() > 0 && s[0] is Num { Some(s[0]->Num_0 - x + rv) } else { None },
        },
    }
}

/// The last number of `s`, in list order, that is at most `x`.
pub open spec fn prev_scan(x: int, s: Seq<Item>) -> Option<int>
    decreases s.len(),
{
    if s.len() == 0 {
        None
    } else {
        match s.last() {
            Item::Num(d) => if d <= x { Some(d as int) } else { prev_scan(x, s.drop_last()) },
            _ => prev_scan(x, s.drop_last()),
        }
    }
}

/// The last number of `s`, in list order, that is at most `rv`.
pub open spec fn prev_cap(rv: int, s: Seq<Item>) -> Option<int>
    decreases s.len(),
{
    if s.len() == 0 {
        None
    } else {
        match s.last() {
            Item::Num(d) => if d <= rv { Some(d as int) } else { prev_cap(rv, s.drop_last()) },
            _ => prev_cap(rv, s.drop_last()),
        }
    }
}

/// How far back (as a number at most 0) the nearest value of `s` is from
/// `x`. `Last` stands for the end of the previous month (`-x`); past the
/// first value it wraps round to the largest value that fits in `range_val`.
pub open spec fn spec_prev_nearest_diff(x: int, s: Seq<Item>, range_val: Option<i64>) -> Option<int> {
    match prev_scan(x, s) {
        Some(d) => Some(d - x),
        None => if s.contains(Item::Last) {
            Some(-x)
        } else {
            match range_val {
                None => None,
                Some(rv) => if s.len() == 0 || !(s.last() is Num) {
                    None
                } else {
                    let candidate = match prev_cap(rv as int, s) {
                        Some(c) => c,
                        None => s.last()->Num_0 as int,
                    };
                    if candidate > rv { Some(-(rv as int)) } else { Some(candidate - x - rv) }
                },
            }
        },
    }
}

/// Values and positions up to 2^61 in magnitude: sums of three of them fit
/// in an `i64`.
pub const VALUE_BOUND: i64 = 0x2000_0000_0000_0000;

/// A number item within `VALUE_BOUND` (every expanded value is).
pub open spec fn num_bounded(item: Item) -> bool {
    item matches Item::Num(n) ==> -VALUE_BOUND <= n <= VALUE_BOUND
}

pub open spec fn items_bounded(s: Seq<Item>) -> bool {
    forall|i: int| 0 <= i < s.len() ==> #[trigger] num_bounded(s[i])
}

/// The arithmetic of `next_nearest_diff` stays within `i64`: the distance
/// to the value found, or, on a wrap, the first value less `x` and that plus
/// `range_val`.
pub open spec fn next_diff_fits(x: int, s: Seq<Item>, range_val: Option<i64>) -> bool {
    match next_scan(x, s, range_val) {
        Some(d) => d - x <= i64::MAX,
        None => match range_val {
            Some(rv) => s.len() > 0 && s[0] is Num ==> i64::MIN <= s[0]->Num_0 - x <= i64::MAX
                && i64::MIN <= s[0]->Num_0 - x + rv <= i64::MAX,
            None => true,
        },
    }
}

/// The value `prev_nearest_diff` wraps round to: the last number of `s`
/// that is at most `rv`, else the last item's number.
pub open spec fn prev_candidate(rv: int, s: Seq<Item>) -> int {
    match prev_cap(rv, s) {
        Some(c) => c,
        None => s.last()->Num_0 as int,
    }
}

/// The arithmetic of `prev_nearest_diff` stays within `i64`.
pub open spec fn prev_diff_fits(x: int, s: Seq<Item>, range_val: Option<i64>) -> bool {
    match prev_scan(x, s) {
        Some(d) => i64::MIN <= d - x,
        None => if s.contains(Item::Last) {
            i64::MIN < x
        } else {
            match range_val {
                None => true,
                Some(rv) => s.len() > 0 && s.last() is Num ==> (if prev_candidate(rv as int, s) > rv {
                    i64::MIN < rv
                } else {
                    i64::MIN <= prev_candidate(rv as int, s) - x <= i64::MAX
                        && i64::MIN <= prev_candidate(rv as int, s) - x - rv <= i64::MAX
                }),
            }
        },
    }
}

/// Values within `VALUE_BOUND` keep both searches' arithmetic within `i64`.
proof fn lemma_diffs_fit(x: int, s: Seq<Item>, range_val: Option<i64>)
    requires
        items_bounded(s),
        -VALUE_BOUND <= x <= VALUE_BOUND,
        range_val matches Some(rv) ==> 0 <= rv <= VALUE_BOUND,
    ensures
        next_diff_fits(x, s, range_val),
        prev_diff_fits(x, s, range_val),
{
    lemma_next_scan(x, s, range_val);
    lemma_prev_scan(x, s);
    if let Some(d) = next_scan(x, s, range_val) {
        let i = choose|i: int| 0 <= i < s.len() && effective(s[i], range_val) == Some(d);
        assert(num_bounded(s[i]));
    }
    if s.len() > 0 {
        assert(num_bounded(s[0]));
        assert(num_bounded(s[s.len() - 1]));
    }
    if let Some(d) = prev_scan(x, s) {
        let i = choose|i: int| 0 <= i < s.len() && s[i] == Item::Num(d as i64);
        assert(num_bounded(s[i]));
    }
    if let Some(rv) = range_val {
        lemma_prev_cap(rv as int, s);
        if let Some(c) = prev_cap(rv as int, s) {
            let i = choose|i: int| 0 <= i < s.len() && s[i] == Item::Num(c as i64);
            assert(num_bounded(s[i]));
        }
    }
}

/// Distance to the nearest value of `to_check` at or after `x`
///.
pub fn next_nearest_diff(x: i64, to_check: &[Item], range_val: Option<i64>) -> (r: Option<i64>)
    requires
        next_diff_fits(x as int, to_check@, range_val),
    ensures
        r matches Some(v) ==> spec_next_nearest_diff(x as int, to_check@, range_val) == Some(v as int),
        r is None <==> spec_next_nearest_diff(x as int, to_check@, range_val) is None,
{
    let mut i: usize = 0;
    assert(to_check@.subrange(0, to_check@.len() as int) =~= to_check@);
    while i < to_check.len()
        invariant
            i <= to_check@.len(),
            next_diff_fits(x as int, to_check@, range_val),
            next_scan(x as int, to_check@, range_val) == next_scan(x as int, to_check@.subrange(i as int, to_check@.len() as int), range_val),
        decreases to_check.len() - i,
    {
        let ghost rest = to_check@.subrange(i as int, to_check@.len() as int);
        assert(rest.drop_first() =~= to_check@.subrange(i + 1, to_check@.len() as int));
        let d: Option<i64> = match (to_check[i], range_val) {
            (Item::Last, Some(rv)) => Some(rv),
            (Item::Last, None) => None,
            (Item::Num(n), Some(rv)) => if n > rv { None } else { Some(n) },
            (Item::Num(n), None) => Some(n),
            (Item::Star, _) => None,
        };
        if let Some(d) = d {
            if d >= x {
                return Some(d - x);
            }
        }
        i = i + 1;
    }
    assert(to_check@.subrange(i as int, to_check@.len() as int).len() == 0);
    match range_val {
        None => None,
        Some(rv) => {
            if to_check.len() > 0 {
                match to_check[0] {
                    Item::Num(first) => Some(first - x + rv),
                    _ => None,
                }
            } else {
                None
            }
        },
    }
}

/// Distance (zero or negative) to the nearest value of `to_check` at or
/// before `x`.
pub fn prev_nearest_diff(x: i64, to_check: &[Item], range_val: Option<i64>) -> (r: Option<i64>)
    requires
        prev_diff_fits(x as int, to_check@, range_val),
    ensures
        r matches Some(v) ==> spec_prev_nearest_diff(x as int, to_check@, range_val) == Some(v as int),
        r is None <==> spec_prev_nearest_diff(x as int, to_check@, range_val) is None,
{
    let n = to_check.len();
    let mut i: usize = n;
    let mut has_last = false;
    assert(to_check@.subrange(0, n as int) =~= to_check@);
    while i > 0
        invariant
            i <= n == to_check@.len(),
            prev_diff_fits(x as int, to_check@, range_val),
            prev_scan(x as int, to_check@) == prev_scan(x as int, to_check@.subrange(0, i as int)),
            has_last == to_check@.subrange(i as int, n as int).contains(Item::Last),
        decreases i,
    {
        let ghost pre = to_check@.subrange(0, i as int);
        assert(pre.drop_last() =~= to_check@.subrange(0, i - 1));
        let ghost tail = to_check@.subrange(i as int, n as int);
        let ghost tail2 = to_check@.subrange(i - 1, n as int);
        assert(tail2 =~= seq![to_check@[i - 1]] + tail);
        assert(tail2[0] == to_check@[i - 1]);
        assert(forall|k: int| 0 <= k < tail.len() ==> tail2[k + 1] == tail[k]);
        assert(tail2.contains(Item::Last) == (to_check@[i - 1] == Item::Last || tail.contains(Item::Last))) by {
            if tail.contains(Item::Last) {
                let k = choose|k: int| 0 <= k < tail.len() && tail[k] == Item::Last;
                assert(tail2[k + 1] == Item::Last);
            }
            if tail2.contains(Item::Last) {
                let k = choose|k: int| 0 <= k < tail2.len() && tail2[k] == Item::Last;
                if k > 0 {
                    assert(tail[k - 1] == Item::Last);
                }
            }
        }
        match to_check[i - 1] {
            Item::Num(d) => {
                if d <= x {
                    return Some(d - x);
                }
            },
            Item::Last => {
                has_last = true;
            },
            Item::Star => {},
        }
        i = i - 1;
    }
    assert(to_check@.subrange(0, n as int) =~= to_check@);
    if has_last {
        return Some(-x);
    }
    let rv = match range_val {
        Some(rv) => rv,
        None => { return None; },
    };
    if n == 0 {
        return None;
    }
    let mut candidate = match to_check[n - 1] {
        Item::Num(v) => v,
        _ => { return None; },
    };
    let mut j: usize = n;
    while j > 0
        invariant_except_break
            candidate == to_check@.last()->Num_0,
            prev_cap(rv as int, to_check@) == prev_cap(rv as int, to_check@.subrange(0, j as int)),
        invariant
            j <= n == to_check@.len(),
            n > 0,
            to_check@.last() is Num,
        ensures
            candidate == prev_candidate(rv as int, to_check@),
        decreases j,
    {
        let ghost pre = to_check@.subrange(0, j as int);
        assert(pre.drop_last() =~= to_check@.subrange(0, j - 1));
        if let Item::Num(v) = to_check[j - 1] {
            if v <= rv {
                candidate = v;
                break;
            }
        }
        j = j - 1;
    }
    assert(to_check@.len() > 0);
    if candidate > rv {
        return Some(-rv);
    }
    Some(candidate - x - rv)
}

/// Whether `days` lists, in increasing order, exactly the days of `month` of
/// `year` that fall on `day_of_week` (Sunday = 0).
pub open spec fn lists_weekdays(days: Seq<i64>, year: int, month: int, day_of_week: int) -> bool {
    &&& forall|i: int, j: int| 0 <= i < j < days.len() ==> days[i] < days[j]
    &&& forall|i: int| 0 <= i < days.len() ==> 1 <= #[trigger] days[i] <= days_in_month(year, month)
        && weekday_of(year, month, days[i] as int) == day_of_week
    &&& forall|d: int| 1 <= d <= days_in_month(year, month) && weekday_of(year, month, d) == day_of_week
        ==> #[trigger] days.contains(d as i64)
}

/// Every day of `month` of `year` whose weekday is `day_of_week`
/// (Sunday = 0), in increasing order. Empty
/// when the year is outside chrono's range.
pub fn nth_weekday_of_month(year: i64, month: i64, day_of_week: i64) -> (r: Vec<i64>)
    requires
        1 <= month <= 12,
        i32::MIN <= year <= i32::MAX,
    ensures
        valid_date(year as int, month as int, 1) ==> lists_weekdays(r@, year as int, month as int, day_of_week as int),
        !valid_date(year as int, month as int, 1) ==> r@.len() == 0,
{
    let last = last_day_of_month(year, month);
    let mut out: Vec<i64> = Vec::new();
    if WallTime::new(year, month, 1, 0, 0, 0, 0).is_none() {
        return out;
    }
    let mut d: i64 = 1;
    while d <= last
        invariant
            1 <= d <= last + 1,
            last == days_in_month(year as int, month as int),
            valid_date(year as int, month as int, 1),
            forall|i: int, j: int| 0 <= i < j < out@.len() ==> out@[i] < out@[j],
            forall|i: int| 0 <= i < out@.len() ==> 1 <= #[trigger] out@[i] < d
                && weekday_of(year as int, month as int, out@[i] as int) == day_of_week,
            forall|e: int| 1 <= e < d && weekday_of(year as int, month as int, e) == day_of_week
                ==> #[trigger] out@.contains(e as i64),
        decreases last + 1 - d,
    {
        let w = match WallTime::new(year, month, d, 0, 0, 0, 0) {
            Some(t) => t.weekday_from_sunday(),
            None => -1,
        };
        let ghost before = out@;
        if w == day_of_week {
            out.push(d);
            assert(out@[out@.len() - 1] == d);
        }
        assert forall|e: int| 1 <= e < d + 1 && weekday_of(year as int, month as int, e) == day_of_week
            implies #[trigger] out@.contains(e as i64) by {
            if e == d {
                assert(out@[out@.len() - 1] == d);
            } else {
                assert(before.contains(e as i64));
                let k = choose|k: int| 0 <= k < before.len() && before[k] == e as i64;
                assert(out@[k] == e as i64);
            }
        }
        d = d + 1;
    }
    out
}

/// Day of the week counted from Monday (0) to Sunday (6).
pub open spec fn weekday_from_monday(y: int, m: int, d: int) -> int {
    (weekday_of(y, m, d) + 6) % 7
}

/// The `W` rule: the weekday nearest to `day` within the month. A Saturday
/// moves to the Friday before and a Sunday to the Monday after, unless that
/// would leave the month, in which case they move the other way.
pub open spec fn spec_nearest_weekday(year: int, month: int, day: int) -> int {
    let last = days_in_month(year, month);
    let day = if day < last { day } else { last };
    let weekday = if valid_date(year, month, day) { weekday_from_monday(year, month, day) } else { 0 };
    if weekday < 5 {
        day
    } else if weekday == 5 {
        if day > 1 { day - 1 } else { day + 2 }
    } else if day < last {
        day + 1
    } else {
        day - 2
    }
}

/// Days of a month step through the week one day at a time.
proof fn lemma_weekday_shift(y: int, m: int, a: int, b: int)
    ensures
        weekday_from_monday(y, m, b) == (weekday_from_monday(y, m, a) + (b - a)) % 7,
{
    let k = days_before_year(y) + crate::datetime::days_before_month(y, m) - 1 + 4 + 6;
    assert(weekday_of(y, m, a) == (k - 6 + a) % 7);
    assert(weekday_from_monday(y, m, a) == (k + a) % 7) by {
        assert(((k - 6 + a) % 7 + 6) % 7 == (k + a) % 7);
    }
    assert(weekday_from_monday(y, m, b) == (k + b) % 7) by {
        assert(((k - 6 + b) % 7 + 6) % 7 == (k + b) % 7);
    }
    assert(((k + a) % 7 + (b - a)) % 7 == (k + b) % 7);
}

/// The `W` rule picks the weekday (Monday to Friday) of the month nearest
/// to the asked-for day (the month's last day when the day lies beyond
/// it): the day it picks lies in the month, falls on a weekday, and every
/// other weekday of the month lies farther from the asked-for day.
pub proof fn lemma_nearest_weekday_is_nearest(year: int, month: int, day: int)
    requires
        MIN_YEAR <= year <= MAX_YEAR,
        1 <= month <= 12,
        1 <= day,
    ensures
        ({
            let last = days_in_month(year, month);
            let d0 = if day < last { day } else { last };
            let r = spec_nearest_weekday(year, month, day);
            &&& 1 <= r <= last
            &&& weekday_from_monday(year, month, r) < 5
            &&& forall|e: int| 1 <= e <= last && #[trigger] weekday_from_monday(year, month, e) < 5 && e != r
                ==> (if e < d0 { d0 - e } else { e - d0 }) > (if r < d0 { d0 - r } else { r - d0 })
        }),
{
    let last = days_in_month(year, month);
    let d0 = if day < last { day } else { last };
    assert(28 <= last <= 31);
    assert(valid_date(year, month, d0));
    let w0 = weekday_from_monday(year, month, d0);
    assert(0 <= w0 < 7);
    let r = spec_nearest_weekday(year, month, day);
    lemma_weekday_shift(year, month, d0, r);
    assert forall|e: int| 1 <= e <= last && #[trigger] weekday_from_monday(year, month, e) < 5 && e != r
        implies (if e < d0 { d0 - e } else { e - d0 }) > (if r < d0 { d0 - r } else { r - d0 }) by {
        lemma_weekday_shift(year, month, d0, e);
    }
}

/// The ranges of the clock and calendar fields are exactly the values a
/// reading takes: every reading's minute, hour, day, month, second and day
/// of the week lie in their field's range, and the first and last readings
/// of 2023 (a year starting on a Sunday) together with its first Saturday
/// reach both ends of each range.
pub proof fn lemma_field_ranges(w: WallTime)
    requires
        w.wf(),
    ensures
        range_low(MINUTE_FIELD as int) <= w.minute <= range_high(MINUTE_FIELD as int),
        range_low(HOUR_FIELD as int) <= w.hour <= range_high(HOUR_FIELD as int),
        range_low(DAY_FIELD as int) <= w.day <= range_high(DAY_FIELD as int),
        range_low(MONTH_FIELD as int) <= w.month <= range_high(MONTH_FIELD as int),
        range_low(SECOND_FIELD as int) <= w.second <= range_high(SECOND_FIELD as int),
        range_low(DOW_FIELD as int) <= weekday_of(w.year as int, w.month as int, w.day as int) <= range_high(DOW_FIELD as int),
        ({
            let first = WallTime { year: 2023, month: 1, day: 1, hour: 0, minute: 0, second: 0, micro: 0 };
            let last = WallTime { year: 2023, month: 12, day: 31, hour: 23, minute: 59, second: 59, micro: 0 };
            &&& first.wf() && last.wf()
            &&& first.minute == range_low(MINUTE_FIELD as int) && last.minute == range_high(MINUTE_FIELD as int)
            &&& first.hour == range_low(HOUR_FIELD as int) && last.hour == range_high(HOUR_FIELD as int)
            &&& first.day == range_low(DAY_FIELD as int) && last.day == range_high(DAY_FIELD as int)
            &&& first.month == range_low(MONTH_FIELD as int) && last.month == range_high(MONTH_FIELD as int)
            &&& first.second == range_low(SECOND_FIELD as int) && last.second == range_high(SECOND_FIELD as int)
            &&& weekday_of(2023, 1, 1) == range_low(DOW_FIELD as int)
            &&& weekday_of(2023, 1, 7) == range_high(DOW_FIELD as int)
        }),
{
    reveal(days_before_year);
    assert(days_from_civil(2023, 1, 1) == 19358);
}

/// Days of a month step through the week one day at a time (Sunday 0).
proof fn lemma_weekday_of_shift(y: int, m: int, a: int, b: int)
    ensures
        weekday_of(y, m, b) == (weekday_of(y, m, a) + (b - a)) % 7,
{
    let k = days_before_year(y) + crate::datetime::days_before_month(y, m) - 1 + 4;
    assert(weekday_of(y, m, a) == (k + a) % 7);
    assert(weekday_of(y, m, b) == (k + b) % 7);
    assert(((k + a) % 7 + (b - a)) % 7 == (k + b) % 7);
}

/// What `#k` and `l` mean, stated over the calendar: a day is the first of
/// its weekday in the month when no earlier day of the month falls on that
/// weekday; the `(k+1)`-th is the day a week after the `k`-th; the last is
/// the one with no later day of the month on that weekday.
pub proof fn lemma_nth_days(year: int, month: int, w: int, d: int, k: int)
    requires
        MIN_YEAR <= year <= MAX_YEAR,
        1 <= month <= 12,
        1 <= k <= 5,
    ensures
        nth_is_day(year, month, w, Nth::Num(1), d) <==> (1 <= d <= days_in_month(year, month)
            && weekday_of(year, month, d) == w
            && forall|e: int| 1 <= e < d ==> #[trigger] weekday_of(year, month, e) != w),
        d >= 8 ==> (nth_is_day(year, month, w, Nth::Num((k + 1) as i64), d) <==> (d <= days_in_month(year, month)
            && nth_is_day(year, month, w, Nth::Num(k as i64), d - 7))),
        nth_is_day(year, month, w, Nth::Last, d) <==> (1 <= d <= days_in_month(year, month)
            && weekday_of(year, month, d) == w
            && forall|e: int| d < e <= days_in_month(year, month) ==> #[trigger] weekday_of(year, month, e) != w),
{
    let last = days_in_month(year, month);
    assert(28 <= last <= 31);
    lemma_weekday_of_shift(year, month, d, d - 7);
    lemma_weekday_of_shift(year, month, d, d + 7);
    if d >= 8 {
        assert((d - 1) / 7 == (d - 8) / 7 + 1);
    }
    if 1 <= d <= last && weekday_of(year, month, d) == w && d <= 7 {
        assert forall|e: int| 1 <= e < d implies #[trigger] weekday_of(year, month, e) != w by {
            lemma_weekday_of_shift(year, month, d, e);
        }
    }
    if 1 <= d <= last && weekday_of(year, month, d) == w && d + 7 > last {
        assert forall|e: int| d < e <= last implies #[trigger] weekday_of(year, month, e) != w by {
            lemma_weekday_of_shift(year, month, d, e);
        }
    }
    if 1 <= d <= last && weekday_of(year, month, d) == w && d > 7 {
        assert(weekday_of(year, month, d - 7) == w);
    }
    if 1 <= d <= last && weekday_of(year, month, d) == w && d + 7 <= last {
        assert(weekday_of(year, month, d + 7) == w);
    }
}

/// The day that `day` with the `W` qualifier fires on in `month` of `year`
///.
pub fn nearest_weekday(year: i64, month: i64, day: i64) -> (r: i64)
    requires
        1 <= month <= 12,
        -VALUE_BOUND <= day <= VALUE_BOUND,
    ensures
        r == spec_nearest_weekday(year as int, month as int, day as int),
{
    let last_day = last_day_of_month(year, month);
    let day = if day < last_day { day } else { last_day };
    let weekday = match WallTime::new(year, month, day, 0, 0, 0, 0) {
        Some(t) => (t.weekday_from_sunday() + 6) % 7,
        None => 0,
    };
    if weekday < 5 {
        return day;
    }
    if weekday == 5 {
        return if day > 1 { day - 1 } else { day + 2 };
    }
    if day < last_day {
        day + 1
    } else {
        day - 2
    }
}

/// An item that can stand in field `f`: `*`, a number within the field's
/// range, or (in the day-of-month field) `l`.
pub open spec fn item_in_field(item: Item, f: int) -> bool {
    match item {
        Item::Star => true,
        Item::Num(n) => range_low(f) <= n <= range_high(f),
        Item::Last => f == DAY_FIELD,
    }
}

/// A non-empty list of items that can stand in field `f`.
pub open spec fn field_wf(items: Seq<Item>, f: int) -> bool {
    &&& items.len() > 0
    &&& forall|i: int| 0 <= i < items.len() ==> #[trigger] item_in_field(items[i], f)
}

/// The expanded fields of a 5-, 6- or 7-column expression, each in
/// increasing order.
pub open spec fn expanded_wf(e: Seq<Vec<Item>>) -> bool {
    &&& 5 <= e.len() <= 7
    &&& forall|f: int| 0 <= f < e.len() ==> #[trigger] field_wf(e[f]@, f)
    &&& forall|f: int| 0 <= f < e.len() ==> #[trigger] strictly_sorted(e[f]@)
}

/// A field accepts value `v`.
pub open spec fn field_accepts(items: Seq<Item>, v: int) -> bool {
    items.contains(Item::Star) || items.contains(Item::Num(v as i64))
}

/// The day-of-month field accepts day `d` of `month` of `year`.
pub open spec fn day_accepts(items: Seq<Item>, year: int, month: int, d: int) -> bool {
    items.contains(Item::Star) || items.contains(Item::Num(d as i64))
        || (items.contains(Item::Last) && d == days_in_month(year, month))
}

/// Whether moving from `a` to `b` goes in the direction of the search.
pub open spec fn moved(a: WallTime, b: WallTime, is_prev: bool) -> bool {
    if is_prev { b.epoch() < a.epoch() } else { b.epoch() > a.epoch() }
}

/// What one step of the search pass reports.
pub enum Proc {
    /// The field already matches.
    Unchanged,
    /// The candidate moved; the pass restarts.
    Changed,
    /// No further match can exist (the year field is exhausted).
    Stop,
}

/// The error reported when no match is found in the direction of travel.
#[verifier::opaque]
pub open spec fn bad_date_view(is_prev: bool) -> ErrorView {
    ErrorView::BadDate(if is_prev { "failed to find prev date"@ } else { "failed to find next date"@ })
}

/// The error reported when no match is found.
pub fn bad_date(is_prev: bool) -> (r: CroniterError)
    ensures
        r is BadDate,
        r@ == bad_date_view(is_prev),
{
    proof {
        reveal(bad_date_view);
    }
    if is_prev {
        CroniterError::BadDate(String::from_str("failed to find prev date"))
    } else {
        CroniterError::BadDate(String::from_str("failed to find next date"))
    }
}

/// Value `v` is listed in `s`, or lies one cycle of `rv` after a listed
/// value.
pub open spec fn listed_ahead(s: Seq<Item>, v: int, rv: int) -> bool {
    exists|i: int| 0 <= i < s.len() && #[trigger] s[i] is Num && (s[i]->Num_0 == v || s[i]->Num_0 + rv == v)
}

/// Value `v` is listed in `s`, or lies one cycle of `rv` before a listed
/// value.
pub open spec fn listed_behind(s: Seq<Item>, v: int, rv: int) -> bool {
    exists|i: int| 0 <= i < s.len() && #[trigger] s[i] is Num && (s[i]->Num_0 == v || s[i]->Num_0 - rv == v)
}

/// A list of numbers within `[0, rv]`, in increasing order.
pub open spec fn cycle_list(s: Seq<Item>, rv: int) -> bool {
    &&& strictly_sorted(s)
    &&& s.len() > 0
    &&& forall|i: int| 0 <= i < s.len() ==> #[trigger] s[i] is Num && 0 <= s[i]->Num_0 <= rv
}

proof fn lemma_next_scan_first(x: int, s: Seq<Item>, rv: Option<i64>)
    ensures
        next_scan(x, s, rv) matches Some(d) ==> exists|i: int| 0 <= i < s.len() && effective(s[i], rv) == Some(d)
            && forall|j: int| 0 <= j < i ==> (#[trigger] effective(s[j], rv) matches Some(e) ==> e < x),
    decreases s.len(),
{
    if s.len() > 0 {
        lemma_next_scan_first(x, s.drop_first(), rv);
        assert forall|i: int| 0 < i < s.len() implies s[i] == s.drop_first()[i - 1] by {}
        match effective(s[0], rv) {
            Some(d) => {
                if d >= x {
                    assert(effective(s[0], rv) == Some(d));
                } else if let Some(d2) = next_scan(x, s.drop_first(), rv) {
                    let i = choose|i: int| 0 <= i < s.drop_first().len() && effective(s.drop_first()[i], rv) == Some(d2)
                        && forall|j: int| 0 <= j < i ==> (#[trigger] effective(s.drop_first()[j], rv) matches Some(e) ==> e < x);
                    assert(effective(s[i + 1], rv) == Some(d2));
                    assert forall|j: int| 0 <= j < i + 1 implies (#[trigger] effective(s[j], rv) matches Some(e) ==> e < x) by {
                        if j > 0 {
                            assert(s[j] == s.drop_first()[j - 1]);
                        }
                    }
                }
            },
            None => {
                if let Some(d2) = next_scan(x, s.drop_first(), rv) {
                    let i = choose|i: int| 0 <= i < s.drop_first().len() && effective(s.drop_first()[i], rv) == Some(d2)
                        && forall|j: int| 0 <= j < i ==> (#[trigger] effective(s.drop_first()[j], rv) matches Some(e) ==> e < x);
                    assert(effective(s[i + 1], rv) == Some(d2));
                    assert forall|j: int| 0 <= j < i + 1 implies (#[trigger] effective(s[j], rv) matches Some(e) ==> e < x) by {
                        if j > 0 {
                            assert(s[j] == s.drop_first()[j - 1]);
                        }
                    }
                }
            },
        }
    }
}

/// On an increasing list of numbers within `[0, rv]`, the distance
/// `spec_next_nearest_diff` gives from `x` (within `[0, rv]` too) is the
/// distance forward to the nearest listed value, wrapping round after `rv`:
/// the value it reaches is listed, and none before it is.
#[verifier::spinoff_prover]
#[verifier::rlimit(40)]
pub proof fn lemma_next_nearest(x: int, s: Seq<Item>, rv: i64)
    requires
        cycle_list(s, rv as int),
        0 <= x <= rv,
    ensures
        spec_next_nearest_diff(x, s, Some(rv)) matches Some(d) && 0 <= d <= rv
            && listed_ahead(s, x + d, rv as int)
            && forall|k: int| 0 <= k < d ==> !#[trigger] listed_ahead(s, x + k, rv as int),
{
    lemma_next_scan(x, s, Some(rv));
    lemma_next_scan_first(x, s, Some(rv));
    assert forall|i: int| 0 <= i < s.len() implies #[trigger] effective(s[i], Some(rv)) == Some(s[i]->Num_0 as int) by {
        assert(s[i] is Num && 0 <= s[i]->Num_0 <= rv);
    }
    match next_scan(x, s, Some(rv)) {
        Some(n) => {
            let i0 = choose|i: int| 0 <= i < s.len() && effective(s[i], Some(rv)) == Some(n)
                && forall|j: int| 0 <= j < i ==> (#[trigger] effective(s[j], Some(rv)) matches Some(e) ==> e < x);
            let d = n - x;
            assert(s[i0] is Num && s[i0]->Num_0 == n);
            assert(listed_ahead(s, x + d, rv as int));
            assert forall|k: int| 0 <= k < d implies !#[trigger] listed_ahead(s, x + k, rv as int) by {
                if listed_ahead(s, x + k, rv as int) {
                    let i = choose|i: int| 0 <= i < s.len() && #[trigger] s[i] is Num
                        && (s[i]->Num_0 == x + k || s[i]->Num_0 + rv == x + k);
                    assert(s[i] is Num && 0 <= s[i]->Num_0 <= rv);
                    if s[i]->Num_0 == x + k {
                        if i < i0 {
                            assert(effective(s[i], Some(rv)) == Some(s[i]->Num_0 as int));
                        } else if i > i0 {
                            assert(item_lt(s[i0], s[i]));
                        }
                    }
                }
            }
        },
        None => {
            let f = s[0]->Num_0 as int;
            assert(s[0] is Num && 0 <= f <= rv);
            assert(effective(s[0], Some(rv)) == Some(f));
            let d = f - x + rv;
            assert(listed_ahead(s, x + d, rv as int));
            assert forall|k: int| 0 <= k < d implies !#[trigger] listed_ahead(s, x + k, rv as int) by {
                if listed_ahead(s, x + k, rv as int) {
                    let i = choose|i: int| 0 <= i < s.len() && #[trigger] s[i] is Num
                        && (s[i]->Num_0 == x + k || s[i]->Num_0 + rv == x + k);
                    assert(s[i] is Num && 0 <= s[i]->Num_0 <= rv);
                    assert(effective(s[i], Some(rv)) == Some(s[i]->Num_0 as int));
                    if i > 0 {
                        assert(item_lt(s[0], s[i]));
                    }
                }
            }
        },
    }
}

proof fn lemma_prev_scan_last(x: int, s: Seq<Item>)
    ensures
        prev_scan(x, s) matches Some(d) ==> exists|i: int| 0 <= i < s.len() && s[i] == Item::Num(d as i64)
            && forall|j: int| i < j < s.len() ==> (#[trigger] s[j] matches Item::Num(e) ==> e > x),
    decreases s.len(),
{
    if s.len() > 0 {
        let p = s.drop_last();
        lemma_prev_scan_last(x, p);
        lemma_prev_scan(x, s);
        assert forall|i: int| 0 <= i < s.len() - 1 implies s[i] == p[i] by {}
        match s.last() {
            Item::Num(d) => {
                if d <= x {
                    assert(s[s.len() - 1] == Item::Num(d));
                } else if let Some(d2) = prev_scan(x, p) {
                    let i = choose|i: int| 0 <= i < p.len() && p[i] == Item::Num(d2 as i64)
                        && forall|j: int| i < j < p.len() ==> (#[trigger] p[j] matches Item::Num(e) ==> e > x);
                    assert(s[i] == Item::Num(d2 as i64));
                    assert forall|j: int| i < j < s.len() implies (#[trigger] s[j] matches Item::Num(e) ==> e > x) by {
                        if j < s.len() - 1 {
                            assert(s[j] == p[j]);
                        }
                    }
                }
            },
            _ => {
                if let Some(d2) = prev_scan(x, p) {
                    let i = choose|i: int| 0 <= i < p.len() && p[i] == Item::Num(d2 as i64)
                        && forall|j: int| i < j < p.len() ==> (#[trigger] p[j] matches Item::Num(e) ==> e > x);
                    assert(s[i] == Item::Num(d2 as i64));
                    assert forall|j: int| i < j < s.len() implies (#[trigger] s[j] matches Item::Num(e) ==> e > x) by {
                        if j < s.len() - 1 {
                            assert(s[j] == p[j]);
                        }
                    }
                }
            },
        }
    }
}

/// On an increasing list of numbers within `[0, rv]`, the distance
/// `spec_prev_nearest_diff` gives from `x` (within `[0, rv]` too) is the
/// distance back to the nearest listed value, wrapping round before 0: the
/// value it reaches is listed, and none after it is.
#[verifier::spinoff_prover]
#[verifier::rlimit(40)]
pub proof fn lemma_prev_nearest(x: int, s: Seq<Item>, rv: i64)
    requires
        cycle_list(s, rv as int),
        0 <= x <= rv,
    ensures
        spec_prev_nearest_diff(x, s, Some(rv)) matches Some(d) && -rv <= d <= 0
            && listed_behind(s, x + d, rv as int)
            && forall|k: int| d < k <= 0 ==> !#[trigger] listed_behind(s, x + k, rv as int),
{
    lemma_prev_scan(x, s);
    lemma_prev_scan_last(x, s);
    match prev_scan(x, s) {
        Some(n) => {
            let i0 = choose|i: int| 0 <= i < s.len() && s[i] == Item::Num(n as i64)
                && forall|j: int| i < j < s.len() ==> (#[trigger] s[j] matches Item::Num(e) ==> e > x);
            assert(s[i0] is Num && 0 <= s[i0]->Num_0 <= rv);
            let d = n - x;
            assert(listed_behind(s, x + d, rv as int));
            assert forall|k: int| d < k <= 0 implies !#[trigger] listed_behind(s, x + k, rv as int) by {
                if listed_behind(s, x + k, rv as int) {
                    let i = choose|i: int| 0 <= i < s.len() && #[trigger] s[i] is Num
                        && (s[i]->Num_0 == x + k || s[i]->Num_0 - rv == x + k);
                    assert(s[i] is Num && 0 <= s[i]->Num_0 <= rv);
                    if s[i]->Num_0 == x + k {
                        if i < i0 {
                            assert(item_lt(s[i], s[i0]));
                        }
                    }
                }
            }
        },
        None => {
            assert(!s.contains(Item::Last)) by {
                if s.contains(Item::Last) {
                    let i = choose|i: int| 0 <= i < s.len() && s[i] == Item::Last;
                    assert(s[i] is Num);
                }
            }
            let l = s.len() - 1;
            assert(s[l] is Num && 0 <= s[l]->Num_0 <= rv);
            assert(s.last() == s[l]);
            assert(prev_cap(rv as int, s) == Some(s[l]->Num_0 as int));
            let c = s[l]->Num_0 as int;
            assert(prev_candidate(rv as int, s) == c);
            assert(c > x);
            let d = c - x - rv;
            assert(listed_behind(s, x + d, rv as int));
            assert forall|k: int| d < k <= 0 implies !#[trigger] listed_behind(s, x + k, rv as int) by {
                if listed_behind(s, x + k, rv as int) {
                    let i = choose|i: int| 0 <= i < s.len() && #[trigger] s[i] is Num
                        && (s[i]->Num_0 == x + k || s[i]->Num_0 - rv == x + k);
                    assert(s[i] is Num && 0 <= s[i]->Num_0 <= rv);
                    if i < l {
                        assert(item_lt(s[i], s[l]));
                    }
                }
            }
        },
    }
}

/// `next_nearest_diff` or `prev_nearest_diff` depending on the direction.
pub fn nearest_diff(is_prev: bool, x: i64, to_check: &[Item], range_val: Option<i64>) -> (r: Option<i64>)
    requires
        items_bounded(to_check@),
        -VALUE_BOUND <= x <= VALUE_BOUND,
        range_val matches Some(rv) ==> 0 <= rv <= VALUE_BOUND,
    ensures
        r matches Some(v) ==> (if is_prev {
            spec_prev_nearest_diff(x as int, to_check@, range_val)
        } else {
            spec_next_nearest_diff(x as int, to_check@, range_val)
        }) == Some(v as int),
        r is None <==> (if is_prev {
            spec_prev_nearest_diff(x as int, to_check@, range_val)
        } else {
            spec_next_nearest_diff(x as int, to_check@, range_val)
        }) is None,
{
    proof {
        lemma_diffs_fit(x as int, to_check@, range_val);
    }
    if is_prev {
        prev_nearest_diff(x, to_check, range_val)
    } else {
        next_nearest_diff(x, to_check, range_val)
    }
}

proof fn lemma_next_scan(x: int, s: Seq<Item>, rv: Option<i64>)
    ensures
        next_scan(x, s, rv) matches Some(d) ==> d >= x && exists|i: int| 0 <= i < s.len() && effective(s[i], rv) == Some(d),
        next_scan(x, s, rv) is None ==> forall|i: int| 0 <= i < s.len() ==> (#[trigger] effective(s[i], rv) matches Some(e) ==> e < x),
    decreases s.len(),
{
    if s.len() > 0 {
        lemma_next_scan(x, s.drop_first(), rv);
        assert forall|i: int| 0 < i < s.len() implies s[i] == s.drop_first()[i - 1] by {}
        if let Some(d) = next_scan(x, s, rv) {
            if effective(s[0], rv) != Some(d) || d < x {
                let i = choose|i: int| 0 <= i < s.drop_first().len() && effective(s.drop_first()[i], rv) == Some(d);
                assert(effective(s[i + 1], rv) == Some(d));
            }
        }
        if next_scan(x, s, rv) is None {
            assert forall|i: int| 0 <= i < s.len() implies (#[trigger] effective(s[i], rv) matches Some(e) ==> e < x) by {
                if i > 0 {
                    assert(s[i] == s.drop_first()[i - 1]);
                }
            }
        }
    }
}

proof fn lemma_prev_scan(x: int, s: Seq<Item>)
    ensures
        prev_scan(x, s) matches Some(d) ==> d <= x && i64::MIN <= d <= i64::MAX && s.contains(Item::Num(d as i64)),
        prev_scan(x, s) is None ==> forall|i: int| 0 <= i < s.len() ==> (#[trigger] s[i] matches Item::Num(e) ==> e > x),
    decreases s.len(),
{
    if s.len() > 0 {
        lemma_prev_scan(x, s.drop_last());
        assert forall|i: int| 0 <= i < s.len() - 1 implies s[i] == s.drop_last()[i] by {}
        if let Some(d) = prev_scan(x, s) {
            if !(s.last() == Item::Num(d as i64)) {
                let i = choose|i: int| 0 <= i < s.drop_last().len() && s.drop_last()[i] == Item::Num(d as i64);
                assert(s[i] == Item::Num(d as i64));
            } else {
                assert(s[s.len() - 1] == Item::Num(d as i64));
            }
        }
        if prev_scan(x, s) is None {
            assert forall|i: int| 0 <= i < s.len() implies (#[trigger] s[i] matches Item::Num(e) ==> e > x) by {
                if i < s.len() - 1 {
                    assert(s[i] == s.drop_last()[i]);
                }
            }
        }
    }
}

/// What `prev_scan` finds is listed and at most `x`; when it finds
/// nothing, every listed number is above `x`.
pub proof fn lemma_prev_scan_pub(x: int, s: Seq<Item>)
    ensures
        prev_scan(x, s) matches Some(d) ==> d <= x && i64::MIN <= d <= i64::MAX && s.contains(Item::Num(d as i64)),
        prev_scan(x, s) is None ==> forall|i: int| 0 <= i < s.len() ==> (#[trigger] s[i] matches Item::Num(e) ==> e > x),
{
    lemma_prev_scan(x, s);
}

proof fn lemma_prev_cap(rv: int, s: Seq<Item>)
    ensures
        prev_cap(rv, s) matches Some(d) ==> d <= rv && i64::MIN <= d <= i64::MAX && s.contains(Item::Num(d as i64)),
    decreases s.len(),
{
    if s.len() > 0 {
        lemma_prev_cap(rv, s.drop_last());
        if let Some(d) = prev_cap(rv, s) {
            if !(s.last() == Item::Num(d as i64)) {
                let i = choose|i: int| 0 <= i < s.drop_last().len() && s.drop_last()[i] == Item::Num(d as i64);
                assert(s[i] == Item::Num(d as i64));
            } else {
                assert(s[s.len() - 1] == Item::Num(d as i64));
            }
        }
    }
}

/// Looking forward in a field with a wrap-around (`range_val` = `r`), the
/// distance is never negative, a distance of zero means the field accepts
/// `x`, and it is at most one full cycle.
proof fn lemma_next_diff(x: int, s: Seq<Item>, r: i64, f: int)
    requires
        0 <= f < 7,
        field_wf(s, f),
        !s.contains(Item::Star),
        0 <= x <= r,
        1 <= r <= 60,
        x < r || range_low(f) >= 1,
        range_high(f) <= 59,
    ensures
        spec_next_nearest_diff(x, s, Some(r)) matches Some(d) && 0 <= d <= range_high(f) + r - x
            && (d == 0 ==> s.contains(Item::Num(x as i64)) || (s.contains(Item::Last) && x == r)),
{
    lemma_next_scan(x, s, Some(r));
    assert(item_in_field(s[0], f));
    match next_scan(x, s, Some(r)) {
        Some(d) => {
            let i = choose|i: int| 0 <= i < s.len() && effective(s[i], Some(r)) == Some(d);
            assert(item_in_field(s[i], f));
            if d == x {
                if s[i] is Last {
                    assert(s.contains(Item::Last));
                } else {
                    assert(s[i] == Item::Num(x as i64));
                    assert(s.contains(Item::Num(x as i64)));
                }
            }
        },
        None => {
            if s[0] is Last {
                assert(effective(s[0], Some(r)) == Some(r as int));
            }
            if s[0] is Star {
                assert(s.contains(Item::Star));
            }
            if let Item::Num(first) = s[0] {
                if first <= r {
                    assert(effective(s[0], Some(r)) == Some(first as int));
                }
            }
        },
    }
}

/// Looking backward in a field with a wrap-around (`range_val` = `r`), the
/// distance is never positive, zero only when the field accepts `x`, and
/// at most one full cycle.
proof fn lemma_prev_diff(x: int, s: Seq<Item>, r: i64, f: int)
    requires
        0 <= f < 7,
        field_wf(s, f),
        !s.contains(Item::Star),
        0 <= x <= 59,
        1 <= r <= 60,
        range_high(f) < r || x >= 1,
        s.contains(Item::Last) ==> x >= 1,
        range_high(f) <= 59,
        x >= range_low(f),
    ensures
        spec_prev_nearest_diff(x, s, Some(r)) matches Some(d) && range_low(f) - x - r <= d <= 0
            && (d == 0 ==> s.contains(Item::Num(x as i64))),
{
    lemma_prev_scan(x, s);
    lemma_prev_cap(r as int, s);
    assert(item_in_field(s[s.len() - 1], f));
    assert(s.last() == s[s.len() - 1]);
    match prev_scan(x, s) {
        Some(d) => {
            let i = choose|i: int| 0 <= i < s.len() && s[i] == Item::Num(d as i64);
            assert(item_in_field(s[i], f));
            assert(spec_prev_nearest_diff(x, s, Some(r)) == Some(d - x));
        },
        None => {
            if !s.contains(Item::Last) {
                if s.last() is Last {
                    assert(s[s.len() - 1] == Item::Last);
                }
                if s.last() is Star {
                    assert(s[s.len() - 1] == Item::Star);
                }
                if let Some(c) = prev_cap(r as int, s) {
                    let i = choose|i: int| 0 <= i < s.len() && s[i] == Item::Num(c as i64);
                    assert(item_in_field(s[i], f));
                }
                assert(s.last() is Num);
                let cand = match prev_cap(r as int, s) {
                    Some(c) => c,
                    None => s.last()->Num_0 as int,
                };
                assert(0 <= cand <= range_high(f));
                assert(spec_prev_nearest_diff(x, s, Some(r)) == (if cand > r { Some(-(r as int)) } else { Some(cand - x - r) }));
            } else {
                assert(spec_prev_nearest_diff(x, s, Some(r)) == Some(-x));
            }
        },
    }
}

proof fn lemma_field_bounded(s: Seq<Item>, f: int)
    requires
        0 <= f < 7,
        field_wf(s, f),
    ensures
        items_bounded(s),
{
    assert forall|i: int| 0 <= i < s.len() implies #[trigger] num_bounded(s[i]) by {
        assert(item_in_field(s[i], f));
    }
}

proof fn lemma_no_last(s: Seq<Item>, f: int)
    requires
        0 <= f < 7,
        f != DAY_FIELD,
        field_wf(s, f),
    ensures
        !s.contains(Item::Last),
{
    if s.contains(Item::Last) {
        let i = choose|i: int| 0 <= i < s.len() && s[i] == Item::Last;
        assert(item_in_field(s[i], f));
    }
}

/// What a step of the pass promises: unchanged only when its field already
/// matches (`accepts`), changed only by moving the candidate in the direction
/// of the search, and failing only for lack of a representable date.
pub open spec fn proc_post(r: Result<Proc, CroniterError>, before: WallTime, after: WallTime, is_prev: bool, accepts: bool) -> bool {
    match r {
        Ok(Proc::Unchanged) => after == before && accepts,
        Ok(Proc::Changed) => after.wf() && after.micro == 0 && moved(before, after, is_prev)
            && (!is_prev ==> after.second == 0),
        Ok(Proc::Stop) => false,
        Err(e) => e is BadDate && e@ == bad_date_view(is_prev),
    }
}

/// `proc_post` for the second step, which may land on any second.
pub open spec fn proc_post_seconds(r: Result<Proc, CroniterError>, before: WallTime, after: WallTime, is_prev: bool, accepts: bool) -> bool {
    match r {
        Ok(Proc::Unchanged) => after == before && accepts,
        Ok(Proc::Changed) => after.wf() && after.micro == 0 && moved(before, after, is_prev),
        Ok(Proc::Stop) => false,
        Err(e) => e is BadDate && e@ == bad_date_view(is_prev),
    }
}

/// Moves `t` by `rd`, or reports that no date is left.
fn apply(t: &mut WallTime, rd: &RelDelta, is_prev: bool) -> (r: Result<Proc, CroniterError>)
    requires
        old(t).wf(),
        crate::reldelta::add_defined(*old(t), *rd),
    ensures
        r matches Ok(p) ==> p is Changed && final(t).wf()
            && crate::reldelta::add_spec(*old(t), *rd) == Some(final(t).epoch()),
        r matches Err(e) ==> e is BadDate && e@ == bad_date_view(is_prev),
        r is Err ==> crate::reldelta::add_spec(*old(t), *rd) is None,
{
    match crate::reldelta::add(*t, rd) {
        Some(n) => {
            *t = n;
            Ok(Proc::Changed)
        },
        None => Err(bad_date(is_prev)),
    }
}

/// The numbers a field lists lie between 0 and `r`.
proof fn lemma_values_within(s: Seq<Item>, f: int, r: int)
    requires
        0 <= f < 7,
        field_wf(s, f),
        range_low(f) >= 0,
        range_high(f) <= r,
    ensures
        forall|i: int| 0 <= i < s.len() ==> (#[trigger] s[i] matches Item::Num(n) ==> 0 <= n <= r),
{
    assert forall|i: int| 0 <= i < s.len() implies (#[trigger] s[i] matches Item::Num(n) ==> 0 <= n <= r) by {
        assert(item_in_field(s[i], f));
    }
}

/// The hour step: move to the nearest listed hour. Moving forward, it
/// passes over no reading whose hour is listed.
#[verifier::spinoff_prover]
#[verifier::rlimit(40)]
fn proc_hour(t: &mut WallTime, items: &Vec<Item>, is_prev: bool) -> (r: Result<Proc, CroniterError>)
    requires
        old(t).wf(),
        old(t).micro == 0,
        field_wf(items@, HOUR_FIELD as int),
        strictly_sorted(items@),
    ensures
        proc_post(r, *old(t), *final(t), is_prev, field_accepts(items@, old(t).hour as int)),
        (!is_prev && r matches Ok(Proc::Changed)) ==> forall|x: WallTime| x.wf()
            && old(t).epoch() <= x.epoch() < final(t).epoch() ==> !#[trigger] field_accepts(items@, x.hour as int),
        (!is_prev && r is Err) ==> forall|x: WallTime| #[trigger] from_on(*old(t), x)
            ==> !field_accepts(items@, x.hour as int),
        (is_prev && r matches Ok(Proc::Changed)) ==> forall|x: WallTime| #[trigger] in_back_span(*final(t), *old(t), x)
            ==> !field_accepts(items@, x.hour as int),
        (is_prev && r is Err) ==> forall|x: WallTime| #[trigger] up_to(*old(t), x)
            ==> !field_accepts(items@, x.hour as int),
{
    if contains_item(items, Item::Star) {
        return Ok(Proc::Unchanged);
    }
    proof {
        lemma_field_bounded(items@, HOUR_FIELD as int);
        lemma_no_last(items@, HOUR_FIELD as int);
        if is_prev {
            lemma_prev_diff(t.hour as int, items@, 24, HOUR_FIELD as int);
        } else {
            lemma_next_diff(t.hour as int, items@, 24, HOUR_FIELD as int);
        }
    }
    let diff = match nearest_diff(is_prev, t.hour, items.as_slice(), Some(24)) {
        Some(d) => d,
        None => { return Ok(Proc::Unchanged); },
    };
    if diff == 0 {
        return Ok(Proc::Unchanged);
    }
    let rd = if is_prev {
        RelDelta::new().hours(diff).minute_at(59).second_at(59)
    } else {
        RelDelta::new().hours(diff).minute_at(0).second_at(0)
    };
    let ghost before = *t;
    let r = apply(t, &rd, is_prev);
    proof {
        if r is Ok {
            crate::reldelta::lemma_add_same_date(before, rd);
            if !is_prev {
                let after = *t;
                assert(after.epoch() == (abs_hour(before) + diff) * 3_600_000_000);
                assert forall|x: WallTime| x.wf() && before.epoch() <= x.epoch() < after.epoch()
                    implies !#[trigger] field_accepts(items@, x.hour as int) by {
                    lemma_hour_skip(items@, before, x, diff as int);
                }
            }
        } else if !is_prev {
            crate::reldelta::lemma_add_forward_fails(before, rd);
            lemma_units(before);
            assert forall|x: WallTime| #[trigger] from_on(before, x) implies !field_accepts(items@, x.hour as int) by {
                crate::datetime::lemma_epoch_bounds(x);
                lemma_hour_skip(items@, before, x, diff as int);
            }
        }
        if is_prev {
            lemma_units(before);
            if r is Ok {
                let after = *t;
                assert(after.epoch() == (abs_hour(before) + diff) * 3_600_000_000 + 3_599_000_000);
                assert forall|x: WallTime| #[trigger] in_back_span(after, before, x) implies !field_accepts(items@, x.hour as int) by {
                    crate::skip::lemma_whole_seconds(after, x);
                    lemma_hour_skip_back(items@, before, x, diff as int);
                }
            } else {
                crate::reldelta::lemma_add_backward_fails(before, rd);
                assert forall|x: WallTime| #[trigger] up_to(before, x) implies !field_accepts(items@, x.hour as int) by {
                    crate::datetime::lemma_epoch_bounds(x);
                    lemma_hour_skip_back(items@, before, x, diff as int);
                }
            }
        }
    }
    r
}

/// The minute step: move to the nearest listed minute. Moving forward, it
/// passes over no reading whose minute is listed.
#[verifier::spinoff_prover]
#[verifier::rlimit(40)]
fn proc_minute(t: &mut WallTime, items: &Vec<Item>, is_prev: bool) -> (r: Result<Proc, CroniterError>)
    requires
        old(t).wf(),
        old(t).micro == 0,
        field_wf(items@, MINUTE_FIELD as int),
        strictly_sorted(items@),
    ensures
        proc_post(r, *old(t), *final(t), is_prev, field_accepts(items@, old(t).minute as int)),
        (!is_prev && r matches Ok(Proc::Changed)) ==> forall|x: WallTime| x.wf()
            && old(t).epoch() <= x.epoch() < final(t).epoch() ==> !#[trigger] field_accepts(items@, x.minute as int),
        (!is_prev && r is Err) ==> forall|x: WallTime| #[trigger] from_on(*old(t), x)
            ==> !field_accepts(items@, x.minute as int),
        (is_prev && r matches Ok(Proc::Changed)) ==> forall|x: WallTime| #[trigger] in_back_span(*final(t), *old(t), x)
            ==> !field_accepts(items@, x.minute as int),
        (is_prev && r is Err) ==> forall|x: WallTime| #[trigger] up_to(*old(t), x)
            ==> !field_accepts(items@, x.minute as int),
{
    if contains_item(items, Item::Star) {
        return Ok(Proc::Unchanged);
    }
    proof {
        lemma_field_bounded(items@, MINUTE_FIELD as int);
        lemma_no_last(items@, MINUTE_FIELD as int);
        if is_prev {
            lemma_prev_diff(t.minute as int, items@, 60, MINUTE_FIELD as int);
        } else {
            lemma_next_diff(t.minute as int, items@, 60, MINUTE_FIELD as int);
        }
    }
    let diff = match nearest_diff(is_prev, t.minute, items.as_slice(), Some(60)) {
        Some(d) => d,
        None => { return Ok(Proc::Unchanged); },
    };
    if diff == 0 {
        return Ok(Proc::Unchanged);
    }
    let ghost before = *t;
    let r = move_minutes(t, diff, is_prev);
    proof {
        if !is_prev && r matches Ok(Proc::Changed) {
            let after = *t;
            lemma_values_within(items@, MINUTE_FIELD as int, 60);
            lemma_units(before);
            assert forall|x: WallTime| x.wf() && before.epoch() <= x.epoch() < after.epoch()
                implies !#[trigger] field_accepts(items@, x.minute as int) by {
                lemma_minute_skip(items@, before, x, diff as int);
            }
        }
        if !is_prev && r is Err {
            assert forall|x: WallTime| #[trigger] from_on(before, x) implies !field_accepts(items@, x.minute as int) by {
                crate::datetime::lemma_epoch_bounds(x);
                lemma_minute_skip(items@, before, x, diff as int);
            }
        }
        if is_prev {
            if r is Ok {
                let after = *t;
                assert forall|x: WallTime| #[trigger] in_back_span(after, before, x) implies !field_accepts(items@, x.minute as int) by {
                    crate::skip::lemma_whole_seconds(after, x);
                    lemma_minute_skip_back(items@, before, x, diff as int);
                }
            } else {
                assert forall|x: WallTime| #[trigger] up_to(before, x) implies !field_accepts(items@, x.minute as int) by {
                    crate::datetime::lemma_epoch_bounds(x);
                    lemma_minute_skip_back(items@, before, x, diff as int);
                }
            }
        }
    }
    r
}

/// A reading from `before` up to `diff` hours on has an hour the field
/// does not list, when `diff` is the distance to the nearest listed hour.
#[verifier::spinoff_prover]
#[verifier::rlimit(30)]
proof fn lemma_hour_skip(items: Seq<Item>, before: WallTime, x: WallTime, diff: int)
    requires
        before.wf(),
        x.wf(),
        strictly_sorted(items),
        field_wf(items, HOUR_FIELD as int),
        !items.contains(Item::Star),
        spec_next_nearest_diff(before.hour as int, items, Some(24)) == Some(diff),
        0 < diff <= 47,
        before.epoch() <= x.epoch() < (abs_hour(before) + diff) * 3_600_000_000,
    ensures
        !field_accepts(items, x.hour as int),
{
    lemma_no_last(items, HOUR_FIELD as int);
    lemma_values_within(items, HOUR_FIELD as int, 24);
    lemma_units(before);
    lemma_units(x);
    lemma_unit_between(abs_hour(before), abs_hour(x), before.epoch(), x.epoch(),
        abs_hour(before) + diff, 3_600_000_000);
    lemma_cycle_gap(before.hour as int, items, 24, diff, x.hour);
}

/// A reading with no microseconds from the start of the hour after the
/// one `-diff` hours back up to `before` has an hour the field does not
/// list, when `diff` is the distance back to the nearest listed hour.
#[verifier::spinoff_prover]
#[verifier::rlimit(30)]
proof fn lemma_hour_skip_back(items: Seq<Item>, before: WallTime, x: WallTime, diff: int)
    requires
        before.wf(),
        x.wf(),
        strictly_sorted(items),
        field_wf(items, HOUR_FIELD as int),
        !items.contains(Item::Star),
        spec_prev_nearest_diff(before.hour as int, items, Some(24)) == Some(diff),
        -47 <= diff < 0,
        (abs_hour(before) + diff + 1) * 3_600_000_000 <= x.epoch() <= before.epoch(),
    ensures
        !field_accepts(items, x.hour as int),
{
    lemma_no_last(items, HOUR_FIELD as int);
    lemma_values_within(items, HOUR_FIELD as int, 24);
    lemma_units(before);
    lemma_units(x);
    crate::skip::lemma_unit_between_back(abs_hour(before), abs_hour(x), before.epoch(), x.epoch(),
        abs_hour(before) + diff + 1, 3_600_000_000);
    crate::skip::lemma_cycle_gap_back(before.hour as int, items, 24, diff, x.hour);
}

/// A reading with no microseconds from the start of the minute after the
/// one `-diff` minutes back up to `before` has a minute the field does
/// not list, when `diff` is the distance back to the nearest listed minute.
#[verifier::spinoff_prover]
#[verifier::rlimit(30)]
proof fn lemma_minute_skip_back(items: Seq<Item>, before: WallTime, x: WallTime, diff: int)
    requires
        before.wf(),
        x.wf(),
        strictly_sorted(items),
        field_wf(items, MINUTE_FIELD as int),
        !items.contains(Item::Star),
        spec_prev_nearest_diff(before.minute as int, items, Some(60)) == Some(diff),
        -119 <= diff < 0,
        (abs_minute(before) + diff + 1) * 60_000_000 <= x.epoch() <= before.epoch(),
    ensures
        !field_accepts(items, x.minute as int),
{
    lemma_no_last(items, MINUTE_FIELD as int);
    lemma_values_within(items, MINUTE_FIELD as int, 60);
    lemma_units(before);
    lemma_units(x);
    crate::skip::lemma_unit_between_back(abs_minute(before), abs_minute(x), before.epoch(), x.epoch(),
        abs_minute(before) + diff + 1, 60_000_000);
    crate::skip::lemma_cycle_gap_back(before.minute as int, items, 60, diff, x.minute);
}

/// A reading with no microseconds after the second `-diff` seconds back
/// and up to `before` has a second the field does not list, when `diff` is
/// the distance back to the nearest listed second.
#[verifier::spinoff_prover]
#[verifier::rlimit(30)]
proof fn lemma_second_skip_back(items: Seq<Item>, before: WallTime, x: WallTime, diff: int)
    requires
        before.wf(),
        x.wf(),
        strictly_sorted(items),
        field_wf(items, SECOND_FIELD as int),
        !items.contains(Item::Star),
        spec_prev_nearest_diff(before.second as int, items, Some(60)) == Some(diff),
        -119 <= diff < 0,
        (abs_second(before) + diff + 1) * 1_000_000 <= x.epoch() <= before.epoch(),
    ensures
        !field_accepts(items, x.second as int),
{
    lemma_no_last(items, SECOND_FIELD as int);
    lemma_values_within(items, SECOND_FIELD as int, 60);
    lemma_units(before);
    lemma_units(x);
    crate::skip::lemma_unit_between_back(abs_second(before), abs_second(x), before.epoch(), x.epoch(),
        abs_second(before) + diff + 1, 1_000_000);
    crate::skip::lemma_cycle_gap_back(before.second as int, items, 60, diff, x.second);
}

/// A reading from `before` up to `diff` minutes on has a minute the field
/// does not list, when `diff` is the distance to the nearest listed minute.
#[verifier::spinoff_prover]
#[verifier::rlimit(30)]
proof fn lemma_minute_skip(items: Seq<Item>, before: WallTime, x: WallTime, diff: int)
    requires
        before.wf(),
        x.wf(),
        strictly_sorted(items),
        field_wf(items, MINUTE_FIELD as int),
        !items.contains(Item::Star),
        spec_next_nearest_diff(before.minute as int, items, Some(60)) == Some(diff),
        0 < diff <= 119,
        before.epoch() <= x.epoch() < (abs_minute(before) + diff) * 60_000_000,
    ensures
        !field_accepts(items, x.minute as int),
{
    lemma_no_last(items, MINUTE_FIELD as int);
    lemma_values_within(items, MINUTE_FIELD as int, 60);
    lemma_units(before);
    lemma_units(x);
    lemma_unit_between(abs_minute(before), abs_minute(x), before.epoch(), x.epoch(),
        abs_minute(before) + diff, 60_000_000);
    lemma_cycle_gap(before.minute as int, items, 60, diff, x.minute);
}

/// A reading from `before` up to `diff` seconds on has a second the field
/// does not list, when `diff` is the distance to the nearest listed second.
#[verifier::spinoff_prover]
#[verifier::rlimit(80)]
proof fn lemma_second_skip(items: Seq<Item>, before: WallTime, x: WallTime, diff: int)
    requires
        before.wf(),
        x.wf(),
        before.micro == 0,
        strictly_sorted(items),
        field_wf(items, SECOND_FIELD as int),
        !items.contains(Item::Star),
        spec_next_nearest_diff(before.second as int, items, Some(60)) == Some(diff),
        0 < diff <= 119,
        before.second + diff <= 119,
        before.epoch() <= x.epoch() < (abs_second(before) + diff) * 1_000_000,
    ensures
        !field_accepts(items, x.second as int),
{
    lemma_no_last(items, SECOND_FIELD as int);
    lemma_values_within(items, SECOND_FIELD as int, 60);
    lemma_units(before);
    lemma_units(x);
    lemma_unit_between(abs_second(before), abs_second(x), before.epoch(), x.epoch(),
        abs_second(before) + diff, 1_000_000);
    lemma_unit_between(abs_minute(before), abs_minute(x), before.epoch(), x.epoch(),
        abs_minute(before) + 2, 60_000_000);
    let j = abs_second(x) - abs_second(before);
    if abs_minute(x) == abs_minute(before) {
        assert(x.second == before.second + j);
    } else {
        assert(abs_minute(x) == abs_minute(before) + 1);
        assert(x.second + 60 == before.second + j);
    }
    lemma_cycle_gap(before.second as int, items, 60, diff, x.second);
}

/// Moving a whole number of minutes, to the start or end of the target
/// minute, moves the reading in the direction of the minutes.
fn move_minutes(t: &mut WallTime, diff: i64, is_prev: bool) -> (r: Result<Proc, CroniterError>)
    requires
        old(t).wf(),
        old(t).micro == 0,
        -200 <= diff <= 200,
        is_prev ==> diff < 0,
        !is_prev ==> diff > 0,
    ensures
        proc_post(r, *old(t), *final(t), is_prev, false),
        (!is_prev && r is Ok) ==> final(t).epoch() == (abs_minute(*old(t)) + diff) * 60_000_000,
        (!is_prev && r is Err) ==> (abs_minute(*old(t)) + diff) * 60_000_000 >= epoch_max(),
        (is_prev && r is Ok) ==> final(t).epoch() == (abs_minute(*old(t)) + diff) * 60_000_000 + 59_000_000,
        (is_prev && r is Err) ==> (abs_minute(*old(t)) + diff) * 60_000_000 + 59_000_000 < epoch_min(),
{
    let rd = if is_prev {
        RelDelta::new().minutes(diff).second_at(59)
    } else {
        RelDelta::new().minutes(diff).second_at(0)
    };
    let ghost before = *t;
    let r = apply(t, &rd, is_prev);
    proof {
        if r is Ok {
            crate::reldelta::lemma_add_same_date(before, rd);
            if !is_prev {
                crate::datetime::lemma_minute_aligned(*t,
                    before.day_number() * 1440 + before.hour * 60 + before.minute + diff);
            }
        } else if !is_prev {
            crate::reldelta::lemma_add_forward_fails(before, rd);
        } else {
            crate::reldelta::lemma_add_backward_fails(before, rd);
        }
    }
    r
}

/// The second step. Without a seconds field the seconds are zeroed and the
/// step always reports that its field matches.
#[verifier::spinoff_prover]
#[verifier::rlimit(40)]
fn proc_second(t: &mut WallTime, items: &Vec<Item>, has_seconds: bool, is_prev: bool) -> (r: Result<Proc, CroniterError>)
    requires
        old(t).wf(),
        old(t).micro == 0,
        has_seconds ==> field_wf(items@, SECOND_FIELD as int),
        has_seconds ==> strictly_sorted(items@),
    ensures
        has_seconds ==> proc_post_seconds(r, *old(t), *final(t), is_prev, field_accepts(items@, old(t).second as int)),
        !has_seconds ==> r is Ok && r->Ok_0 is Unchanged && *final(t) == (WallTime { second: 0, ..*old(t) }),
        (has_seconds && !is_prev && r matches Ok(Proc::Changed)) ==> forall|x: WallTime| x.wf()
            && old(t).epoch() <= x.epoch() < final(t).epoch() ==> !#[trigger] field_accepts(items@, x.second as int),
        (!is_prev && r is Err) ==> forall|x: WallTime| #[trigger] from_on(*old(t), x)
            ==> !field_accepts(items@, x.second as int),
        (has_seconds && is_prev && r matches Ok(Proc::Changed)) ==> forall|x: WallTime|
            #[trigger] in_back_span(*final(t), *old(t), x) ==> !field_accepts(items@, x.second as int),
        (is_prev && r is Err) ==> forall|x: WallTime| #[trigger] up_to(*old(t), x)
            ==> !field_accepts(items@, x.second as int),
{
    if !has_seconds {
        let z = WallTime { second: 0, ..*t };
        *t = z;
        return Ok(Proc::Unchanged);
    }
    if contains_item(items, Item::Star) {
        return Ok(Proc::Unchanged);
    }
    proof {
        lemma_field_bounded(items@, SECOND_FIELD as int);
        lemma_no_last(items@, SECOND_FIELD as int);
        if is_prev {
            lemma_prev_diff(t.second as int, items@, 60, SECOND_FIELD as int);
        } else {
            lemma_next_diff(t.second as int, items@, 60, SECOND_FIELD as int);
        }
    }
    let diff = match nearest_diff(is_prev, t.second, items.as_slice(), Some(60)) {
        Some(d) => d,
        None => { return Ok(Proc::Unchanged); },
    };
    if diff == 0 {
        return Ok(Proc::Unchanged);
    }
    let rd = RelDelta::new().seconds(diff);
    let ghost before = *t;
    let r = apply(t, &rd, is_prev);
    proof {
        if r is Ok {
            crate::reldelta::lemma_add_same_date(before, rd);
            if !is_prev {
                let after = *t;
                lemma_values_within(items@, SECOND_FIELD as int, 60);
                lemma_units(before);
                assert(after.epoch() == (abs_second(before) + diff) * 1_000_000);
                assert forall|x: WallTime| x.wf() && before.epoch() <= x.epoch() < after.epoch()
                    implies !#[trigger] field_accepts(items@, x.second as int) by {
                    lemma_second_skip(items@, before, x, diff as int);
                }
            }
        } else if !is_prev {
            crate::reldelta::lemma_add_forward_fails(before, rd);
            lemma_units(before);
            assert forall|x: WallTime| #[trigger] from_on(before, x) implies !field_accepts(items@, x.second as int) by {
                crate::datetime::lemma_epoch_bounds(x);
                lemma_second_skip(items@, before, x, diff as int);
            }
        }
        if is_prev {
            lemma_units(before);
            if r is Ok {
                let after = *t;
                assert(after.epoch() == (abs_second(before) + diff) * 1_000_000);
                assert forall|x: WallTime| #[trigger] in_back_span(after, before, x) implies !field_accepts(items@, x.second as int) by {
                    crate::skip::lemma_whole_seconds(after, x);
                    lemma_second_skip_back(items@, before, x, diff as int);
                }
            } else {
                crate::reldelta::lemma_add_backward_fails(before, rd);
                assert forall|x: WallTime| #[trigger] up_to(before, x) implies !field_accepts(items@, x.second as int) by {
                    crate::datetime::lemma_epoch_bounds(x);
                    lemma_second_skip_back(items@, before, x, diff as int);
                }
            }
        }
    }
    r
}

/// Move by `diff_day` days to the start (forward) or the end (backward) of
/// that day.
fn shift_day(diff_day: i64, is_prev: bool) -> (r: RelDelta)
    ensures
        r == (if is_prev {
            RelDelta { days: diff_day, hour: Some(23), minute: Some(59), second: Some(59), ..crate::reldelta::zero_delta() }
        } else {
            RelDelta { days: diff_day, hour: Some(0), minute: Some(0), second: Some(0), ..crate::reldelta::zero_delta() }
        }),
{
    if is_prev {
        RelDelta::new().days(diff_day).hour_at(23).minute_at(59).second_at(59)
    } else {
        RelDelta::new().days(diff_day).hour_at(0).minute_at(0).second_at(0)
    }
}

/// Moving a whole number of days, to the start or end of the target day,
/// moves the reading in the direction of the days.
fn move_days(t: &mut WallTime, diff: i64, is_prev: bool) -> (r: Result<Proc, CroniterError>)
    requires
        old(t).wf(),
        old(t).micro == 0,
        -200 <= diff <= 200,
        is_prev ==> diff < 0,
        !is_prev ==> diff > 0,
    ensures
        proc_post(r, *old(t), *final(t), is_prev, false),
        (!is_prev && r is Ok) ==> final(t).epoch() == (old(t).day_number() + diff) * 86_400_000_000,
        (!is_prev && r is Err) ==> (old(t).day_number() + diff) * 86_400_000_000 >= epoch_max(),
        (is_prev && r is Ok) ==> final(t).epoch() == (old(t).day_number() + diff + 1) * 86_400_000_000 - 1_000_000,
        (is_prev && r is Err) ==> (old(t).day_number() + diff + 1) * 86_400_000_000 - 1_000_000 < epoch_min(),
{
    let rd = shift_day(diff, is_prev);
    let ghost before = *t;
    let r = apply(t, &rd, is_prev);
    proof {
        if r is Ok {
            crate::reldelta::lemma_add_same_date(before, rd);
        } else if !is_prev {
            crate::reldelta::lemma_add_forward_fails(before, rd);
        } else {
            crate::reldelta::lemma_add_backward_fails(before, rd);
        }
    }
    r
}

/// The day-of-month step: move to the nearest listed day of this month
/// (or of a later/earlier one).
#[verifier::spinoff_prover]
#[verifier::rlimit(40)]
fn proc_day_of_month(t: &mut WallTime, items: &Vec<Item>, year: i64, month: i64, is_prev: bool) -> (r: Result<Proc, CroniterError>)
    requires
        old(t).wf(),
        old(t).micro == 0,
        year == old(t).year,
        month == old(t).month,
        field_wf(items@, DAY_FIELD as int),
        strictly_sorted(items@),
    ensures
        proc_post(r, *old(t), *final(t), is_prev,
            day_accepts(items@, year as int, month as int, old(t).day as int)),
        (!is_prev && r matches Ok(Proc::Changed)) ==> forall|x: WallTime| x.wf()
            && old(t).epoch() <= x.epoch() < final(t).epoch()
            ==> !#[trigger] day_accepts(items@, x.year as int, x.month as int, x.day as int),
        (!is_prev && r is Err) ==> forall|x: WallTime| #[trigger] from_on(*old(t), x)
            ==> !day_accepts(items@, x.year as int, x.month as int, x.day as int),
        (is_prev && r matches Ok(Proc::Changed)) ==> forall|x: WallTime| #[trigger] in_back_span(*final(t), *old(t), x)
            ==> !day_accepts(items@, x.year as int, x.month as int, x.day as int),
        (is_prev && r is Err) ==> forall|x: WallTime| #[trigger] up_to(*old(t), x)
            ==> !day_accepts(items@, x.year as int, x.month as int, x.day as int),
{
    if contains_item(items, Item::Star) {
        return Ok(Proc::Unchanged);
    }
    let days = last_day_of_month(year, month);
    if contains_item(items, Item::Last) && days == t.day {
        return Ok(Proc::Unchanged);
    }
    proof {
        lemma_field_bounded(items@, DAY_FIELD as int);
    }
    let diff = if is_prev {
        let prev_month = if month == 1 { 12 } else { month - 1 };
        let prev_year = if month == 1 { year - 1 } else { year };
        let days_in_prev_month = last_day_of_month(prev_year, prev_month);
        proof {
            lemma_prev_diff(t.day as int, items@, days_in_prev_month, DAY_FIELD as int);
        }
        nearest_diff(true, t.day, items.as_slice(), Some(days_in_prev_month))
    } else {
        proof {
            lemma_next_diff(t.day as int, items@, days, DAY_FIELD as int);
        }
        nearest_diff(false, t.day, items.as_slice(), Some(days))
    };
    let diff = match diff {
        Some(d) => d,
        None => { return Ok(Proc::Unchanged); },
    };
    if diff == 0 {
        return Ok(Proc::Unchanged);
    }
    let ghost before = *t;
    let r = move_days(t, diff, is_prev);
    proof {
        if !is_prev && r matches Ok(Proc::Changed) {
            let after = *t;
            assert forall|x: WallTime| x.wf() && before.epoch() <= x.epoch() < after.epoch()
                implies !#[trigger] day_accepts(items@, x.year as int, x.month as int, x.day as int) by {
                lemma_dom_skip(items@, before, x, diff as int, days as int);
            }
        }
        if !is_prev && r is Err {
            assert forall|x: WallTime| #[trigger] from_on(before, x)
                implies !day_accepts(items@, x.year as int, x.month as int, x.day as int) by {
                crate::datetime::lemma_epoch_bounds(x);
                lemma_dom_skip(items@, before, x, diff as int, days as int);
            }
        }
        if is_prev {
            let (py, pm) = month_before(year as int, month as int);
            let rv = days_in_month(py, pm);
            if r is Ok {
                let after = *t;
                assert forall|x: WallTime| #[trigger] in_back_span(after, before, x)
                    implies !day_accepts(items@, x.year as int, x.month as int, x.day as int) by {
                    crate::skip::lemma_whole_seconds(after, x);
                    lemma_dom_skip_back(items@, before, x, diff as int, rv);
                }
            } else {
                assert forall|x: WallTime| #[trigger] up_to(before, x)
                    implies !day_accepts(items@, x.year as int, x.month as int, x.day as int) by {
                    crate::datetime::lemma_epoch_bounds(x);
                    lemma_units(x);
                    lemma_dom_skip_back(items@, before, x, diff as int, rv);
                }
            }
        }
    }
    r
}

/// A reading from `before` up to the start of the day `diff` days on falls
/// on a day of its month the field does not accept, when `diff` is the
/// distance to the nearest accepted day (`days` being the length of
/// `before`'s month).
#[verifier::spinoff_prover]
#[verifier::rlimit(30)]
proof fn lemma_dom_skip(items: Seq<Item>, before: WallTime, x: WallTime, diff: int, days: int)
    requires
        before.wf(),
        x.wf(),
        strictly_sorted(items),
        field_wf(items, DAY_FIELD as int),
        !items.contains(Item::Star),
        days == days_in_month(before.year as int, before.month as int),
        spec_next_nearest_diff(before.day as int, items, Some(days as i64)) == Some(diff),
        diff > 0,
        before.epoch() <= x.epoch() < (before.day_number() + diff) * 86_400_000_000,
    ensures
        !day_accepts(items, x.year as int, x.month as int, x.day as int),
{
    let (y, m, d) = (before.year as int, before.month as int, before.day as int);
    lemma_units(before);
    lemma_units(x);
    lemma_unit_between(before.day_number(), x.day_number(), before.epoch(), x.epoch(),
        before.day_number() + diff, 86_400_000_000);
    lemma_not_earlier_date(before, x);
    lemma_next_scan(d, items, Some(days as i64));
    match next_scan(d, items, Some(days as i64)) {
        Some(tgt) => {
            crate::skip::lemma_scan_bound(d, items, Some(days as i64), tgt);
            lemma_earlier_date(x, y, m, tgt);
            lemma_scan_gap(d, items, Some(days as i64), tgt, x.day);
        },
        None => {
            if items.contains(Item::Last) {
                let i = choose|i: int| 0 <= i < items.len() && items[i] == Item::Last;
                assert(effective(items[i], Some(days as i64)) == Some(days));
            }
            assert(item_in_field(items[0], DAY_FIELD as int));
            if x.year == y && x.month == m {
                crate::skip::lemma_scan_none(d, items, Some(days as i64), x.day);
            } else {
                let s0 = items[0]->Num_0;
                crate::skip::lemma_next_month_start(y, m);
                let (ny, nm) = if m < 12 { (y, m + 1) } else { (y + 1, 1int) };
                if x.year != ny || x.month != nm {
                    lemma_date_order(ny, nm, 1, x.year as int, x.month as int, 1);
                }
                assert(x.day < s0);
                crate::skip::lemma_below_first(items, s0, x.day);
            }
        },
    }
}

/// A reading from the start of the day after the one `-diff` days back up
/// to `before` falls on a day the field does not accept, when `diff` is the
/// distance back to the nearest accepted day (`rv` being the length of the
/// month before `before`'s).
#[verifier::spinoff_prover]
#[verifier::rlimit(40)]
proof fn lemma_dom_skip_back(items: Seq<Item>, before: WallTime, x: WallTime, diff: int, rv: int)
    requires
        before.wf(),
        x.wf(),
        strictly_sorted(items),
        field_wf(items, DAY_FIELD as int),
        !items.contains(Item::Star),
        rv == days_in_month(month_before(before.year as int, before.month as int).0,
            month_before(before.year as int, before.month as int).1),
        !(items.contains(Item::Last) && before.day == days_in_month(before.year as int, before.month as int)),
        spec_prev_nearest_diff(before.day as int, items, Some(rv as i64)) == Some(diff),
        diff < 0,
        (before.day_number() + diff + 1) * 86_400_000_000 <= x.epoch() <= before.epoch(),
    ensures
        !day_accepts(items, x.year as int, x.month as int, x.day as int),
{
    let (y, m, d) = (before.year as int, before.month as int, before.day as int);
    let (py, pm) = month_before(y, m);
    let dn = before.day_number();
    lemma_units(before);
    lemma_units(x);
    lemma_prev_scan(d, items);
    lemma_prev_cap(rv, items);
    crate::skip::lemma_next_month_start(py, pm);
    assert(days_from_civil(y, m, 1) == dn - d + 1);
    assert(days_from_civil(py, pm, 1) == dn - d + 1 - rv);
    match prev_scan(d, items) {
        Some(p) => {
            let i = choose|i: int| 0 <= i < items.len() && items[i] == Item::Num(p as i64);
            assert(item_in_field(items[i], DAY_FIELD as int));
        },
        None => {
            if !items.contains(Item::Last) {
                if let Some(c) = prev_cap(rv, items) {
                    let i = choose|i: int| 0 <= i < items.len() && items[i] == Item::Num(c as i64);
                    assert(item_in_field(items[i], DAY_FIELD as int));
                }
            }
        },
    }
    assert(x.day_number() >= days_from_civil(py, pm, 1));
    crate::skip::lemma_within_prev_month(before, x);
    let xd = x.day;
    if x.year == y && x.month == m {
        assert(x.day_number() == dn - d + xd);
        match prev_scan(d, items) {
            Some(p) => {
                crate::skip::lemma_prev_scan_gap(d, items, p, xd);
            },
            None => {
                crate::skip::lemma_prev_scan_none(d, items, xd);
            },
        }
    } else {
        assert(x.day_number() == dn - d + 1 - rv + xd - 1);
        assert(prev_scan(d, items) is None);
        assert(!items.contains(Item::Last));
        crate::skip::lemma_prev_cap_gap(rv, items, xd);
    }
}

/// The day-of-week step: move to the nearest listed weekday.
#[verifier::spinoff_prover]
#[verifier::rlimit(40)]
fn proc_day_of_week(t: &mut WallTime, items: &Vec<Item>, is_prev: bool) -> (r: Result<Proc, CroniterError>)
    requires
        old(t).wf(),
        old(t).micro == 0,
        field_wf(items@, DOW_FIELD as int),
        strictly_sorted(items@),
    ensures
        proc_post(r, *old(t), *final(t), is_prev, field_accepts(items@, old(t).weekday())),
        (!is_prev && r matches Ok(Proc::Changed)) ==> forall|x: WallTime| x.wf()
            && old(t).epoch() <= x.epoch() < final(t).epoch() ==> !#[trigger] field_accepts(items@, x.weekday()),
        (!is_prev && r is Err) ==> forall|x: WallTime| #[trigger] from_on(*old(t), x)
            ==> !field_accepts(items@, x.weekday()),
        (is_prev && r matches Ok(Proc::Changed)) ==> forall|x: WallTime| #[trigger] in_back_span(*final(t), *old(t), x)
            ==> !field_accepts(items@, x.weekday()),
        (is_prev && r is Err) ==> forall|x: WallTime| #[trigger] up_to(*old(t), x)
            ==> !field_accepts(items@, x.weekday()),
{
    if contains_item(items, Item::Star) {
        return Ok(Proc::Unchanged);
    }
    let dow = t.weekday_from_sunday();
    proof {
        lemma_field_bounded(items@, DOW_FIELD as int);
        lemma_no_last(items@, DOW_FIELD as int);
        if is_prev {
            lemma_prev_diff(dow as int, items@, 7, DOW_FIELD as int);
        } else {
            lemma_next_diff(dow as int, items@, 7, DOW_FIELD as int);
        }
    }
    let diff = match nearest_diff(is_prev, dow, items.as_slice(), Some(7)) {
        Some(d) => d,
        None => { return Ok(Proc::Unchanged); },
    };
    if diff == 0 {
        return Ok(Proc::Unchanged);
    }
    let ghost before = *t;
    let r = move_days(t, diff, is_prev);
    proof {
        if !is_prev && r matches Ok(Proc::Changed) {
            let after = *t;
            assert forall|x: WallTime| x.wf() && before.epoch() <= x.epoch() < after.epoch()
                implies !#[trigger] field_accepts(items@, x.weekday()) by {
                lemma_weekday_skip(items@, before, x, diff as int);
            }
        }
        if !is_prev && r is Err {
            assert forall|x: WallTime| #[trigger] from_on(before, x) implies !field_accepts(items@, x.weekday()) by {
                crate::datetime::lemma_epoch_bounds(x);
                lemma_weekday_skip(items@, before, x, diff as int);
            }
        }
        if is_prev {
            if r is Ok {
                let after = *t;
                assert forall|x: WallTime| #[trigger] in_back_span(after, before, x) implies !field_accepts(items@, x.weekday()) by {
                    crate::skip::lemma_whole_seconds(after, x);
                    lemma_weekday_skip_back(items@, before, x, diff as int);
                }
            } else {
                assert forall|x: WallTime| #[trigger] up_to(before, x) implies !field_accepts(items@, x.weekday()) by {
                    crate::datetime::lemma_epoch_bounds(x);
                    lemma_weekday_skip_back(items@, before, x, diff as int);
                }
            }
        }
    }
    r
}

/// A reading with no microseconds from the start of the day after the one
/// `-diff` days back up to `before` has a weekday the field does not list,
/// when `diff` is the distance back to the nearest listed weekday.
#[verifier::spinoff_prover]
#[verifier::rlimit(30)]
proof fn lemma_weekday_skip_back(items: Seq<Item>, before: WallTime, x: WallTime, diff: int)
    requires
        before.wf(),
        x.wf(),
        strictly_sorted(items),
        field_wf(items, DOW_FIELD as int),
        !items.contains(Item::Star),
        spec_prev_nearest_diff(before.weekday(), items, Some(7)) == Some(diff),
        -13 <= diff < 0,
        before.weekday() + diff >= -7,
        (before.day_number() + diff + 1) * 86_400_000_000 <= x.epoch() <= before.epoch(),
    ensures
        !field_accepts(items, x.weekday()),
{
    lemma_no_last(items, DOW_FIELD as int);
    lemma_values_within(items, DOW_FIELD as int, 7);
    lemma_units(before);
    lemma_units(x);
    crate::skip::lemma_unit_between_back(before.day_number(), x.day_number(), before.epoch(), x.epoch(),
        before.day_number() + diff + 1, 86_400_000_000);
    let a = before.day_number() + 4;
    let j = before.day_number() - x.day_number();
    assert(before.weekday() == a % 7);
    assert(x.weekday() == (a - j) % 7);
    assert(x.weekday() == before.weekday() - j || x.weekday() - 7 == before.weekday() - j);
    crate::skip::lemma_cycle_gap_back(before.weekday(), items, 7, diff, x.weekday() as i64);
}

/// A reading from `before` up to the start of the day `diff` days on has
/// a weekday the field does not list, when `diff` is the distance to the
/// nearest listed weekday.
#[verifier::spinoff_prover]
#[verifier::rlimit(30)]
proof fn lemma_weekday_skip(items: Seq<Item>, before: WallTime, x: WallTime, diff: int)
    requires
        before.wf(),
        x.wf(),
        strictly_sorted(items),
        field_wf(items, DOW_FIELD as int),
        !items.contains(Item::Star),
        spec_next_nearest_diff(before.weekday(), items, Some(7)) == Some(diff),
        0 < diff <= 13,
        before.epoch() <= x.epoch() < (before.day_number() + diff) * 86_400_000_000,
    ensures
        !field_accepts(items, x.weekday()),
{
    lemma_no_last(items, DOW_FIELD as int);
    lemma_values_within(items, DOW_FIELD as int, 7);
    lemma_units(before);
    lemma_units(x);
    lemma_unit_between(before.day_number(), x.day_number(), before.epoch(), x.epoch(),
        before.day_number() + diff, 86_400_000_000);
    let a = before.day_number() + 4;
    let j = x.day_number() - before.day_number();
    assert(before.weekday() == a % 7);
    assert(x.weekday() == (a + j) % 7);
    assert(x.weekday() == before.weekday() + j || x.weekday() + 7 == before.weekday() + j
        || x.weekday() + 14 == before.weekday() + j);
    lemma_cycle_gap(before.weekday(), items, 7, diff, x.weekday() as i64);
}

/// Forward to the first of the month `diff` months ahead (with one wrap
/// into the next year).
fn month_forward(t: &mut WallTime, diff: i64) -> (r: Result<Proc, CroniterError>)
    requires
        old(t).wf(),
        old(t).micro == 0,
        1 <= diff,
        old(t).month + diff <= 24,
    ensures
        proc_post(r, *old(t), *final(t), false, false),
        r is Ok ==> final(t).year * 12 + final(t).month == old(t).year * 12 + old(t).month + diff
            && final(t).day == 1 && final(t).hour == 0 && final(t).minute == 0 && final(t).second == 0,
        r is Err ==> forall|x: WallTime| #[trigger] x.wf() ==> x.year * 12 + x.month < old(t).year * 12 + old(t).month + diff,
{
    let rd = RelDelta::new().months(diff).day_at(1).hour_at(0).minute_at(0).second_at(0);
    let ghost before = *t;
    let r = apply(t, &rd, false);
    proof {
        if r is Ok {
            crate::reldelta::lemma_add_unfold(before, rd);
            let (y2, m2) = crate::reldelta::target_year_month(before, rd);
            lemma_date_order(before.year as int, before.month as int, before.day as int, y2, m2, 1);
            lemma_epoch_in_day(before);
            lemma_epoch_injective(*t, y2, m2, 1, 0, 0, 0, 0);
        } else {
            crate::reldelta::lemma_add_invalid_year(before, rd);
        }
    }
    r
}

/// Back to the last second of the month `diff` months before (with one
/// wrap into the previous year).
fn month_backward(t: &mut WallTime, diff: i64) -> (r: Result<Proc, CroniterError>)
    requires
        old(t).wf(),
        old(t).micro == 0,
        diff <= -1,
        old(t).month + diff >= -11,
    ensures
        proc_post(r, *old(t), *final(t), true, false),
        r is Ok ==> final(t).year * 12 + final(t).month == old(t).year * 12 + old(t).month + diff
            && final(t).day == days_in_month(final(t).year as int, final(t).month as int)
            && final(t).hour == 23 && final(t).minute == 59 && final(t).second == 59,
        r is Err ==> forall|x: WallTime| #[trigger] x.wf() ==> x.year * 12 + x.month > old(t).year * 12 + old(t).month + diff,
{
    let ghost before = *t;
    let rd1 = RelDelta::new().months(diff);
    let r1 = apply(t, &rd1, true);
    if r1.is_err() {
        proof {
            crate::reldelta::lemma_add_invalid_year(before, rd1);
        }
        return r1;
    }
    let ghost mid = *t;
    proof {
        crate::reldelta::lemma_add_unfold(before, rd1);
        let (y, m, d, h, mi, s, us) = crate::reldelta::replaced_fields(before, rd1);
        lemma_epoch_injective(mid, y, m, d, h, mi, s, us);
    }
    let reset_day = last_day_of_month(t.year, t.month);
    let rd2 = RelDelta::new().day_at(reset_day as u32).hour_at(23).minute_at(59).second_at(59);
    let r = apply(t, &rd2, true);
    proof {
        if r is Ok {
            crate::reldelta::lemma_add_unfold(mid, rd2);
            lemma_date_order(mid.year as int, mid.month as int, reset_day as int,
                before.year as int, before.month as int, before.day as int);
            lemma_epoch_in_day(before);
            lemma_epoch_injective(*t, mid.year as int, mid.month as int, reset_day as int, 23, 59, 59, 0);
        } else {
            crate::reldelta::lemma_add_invalid_year(mid, rd2);
        }
    }
    r
}

/// The month step: move to the nearest listed month.
#[verifier::spinoff_prover]
#[verifier::rlimit(40)]
fn proc_month(t: &mut WallTime, items: &Vec<Item>, is_prev: bool) -> (r: Result<Proc, CroniterError>)
    requires
        old(t).wf(),
        old(t).micro == 0,
        field_wf(items@, MONTH_FIELD as int),
        strictly_sorted(items@),
    ensures
        proc_post(r, *old(t), *final(t), is_prev, field_accepts(items@, old(t).month as int)),
        (!is_prev && r matches Ok(Proc::Changed)) ==> forall|x: WallTime| x.wf()
            && old(t).epoch() <= x.epoch() < final(t).epoch() ==> !#[trigger] field_accepts(items@, x.month as int),
        (!is_prev && r is Err) ==> forall|x: WallTime| #[trigger] from_on(*old(t), x)
            ==> !field_accepts(items@, x.month as int),
        (is_prev && r matches Ok(Proc::Changed)) ==> forall|x: WallTime| #[trigger] in_back_span(*final(t), *old(t), x)
            ==> !field_accepts(items@, x.month as int),
        (is_prev && r is Err) ==> forall|x: WallTime| #[trigger] up_to(*old(t), x)
            ==> !field_accepts(items@, x.month as int),
        (!is_prev && r matches Ok(Proc::Changed)) ==> (spec_next_nearest_diff(old(t).month as int, items@, Some(12i64)) matches Some(d)
            && final(t).year * 12 + final(t).month == old(t).year * 12 + old(t).month + d
            && final(t).day == 1 && final(t).hour == 0 && final(t).minute == 0 && final(t).second == 0),
        (is_prev && r matches Ok(Proc::Changed)) ==> (spec_prev_nearest_diff(old(t).month as int, items@, Some(12i64)) matches Some(d)
            && final(t).year * 12 + final(t).month == old(t).year * 12 + old(t).month + d
            && final(t).day == days_in_month(final(t).year as int, final(t).month as int)
            && final(t).hour == 23 && final(t).minute == 59 && final(t).second == 59),
{
    if contains_item(items, Item::Star) {
        return Ok(Proc::Unchanged);
    }
    proof {
        lemma_field_bounded(items@, MONTH_FIELD as int);
        lemma_no_last(items@, MONTH_FIELD as int);
        if is_prev {
            lemma_prev_diff(t.month as int, items@, 12, MONTH_FIELD as int);
        } else {
            lemma_next_diff(t.month as int, items@, 12, MONTH_FIELD as int);
        }
    }
    let diff = match nearest_diff(is_prev, t.month, items.as_slice(), Some(12)) {
        Some(d) => d,
        None => { return Ok(Proc::Unchanged); },
    };
    if diff == 0 {
        return Ok(Proc::Unchanged);
    }
    if is_prev {
        let ghost before = *t;
        let r = month_backward(t, diff);
        proof {
            if r is Ok {
                let after = *t;
                assert forall|x: WallTime| #[trigger] in_back_span(after, before, x)
                    implies !field_accepts(items@, x.month as int) by {
                    lemma_after_month_end(after, x);
                    lemma_month_skip_back(items@, before, x, diff as int);
                }
            } else {
                assert forall|x: WallTime| #[trigger] up_to(before, x) implies !field_accepts(items@, x.month as int) by {
                    assert(x.wf());
                    lemma_month_skip_back(items@, before, x, diff as int);
                }
            }
        }
        r
    } else {
        let ghost before = *t;
        let r = month_forward(t, diff);
        proof {
            if r is Ok {
                let after = *t;
                assert forall|x: WallTime| x.wf() && before.epoch() <= x.epoch() < after.epoch()
                    implies !#[trigger] field_accepts(items@, x.month as int) by {
                    lemma_earlier_date(x, after.year as int, after.month as int, 1);
                    lemma_month_skip(items@, before, x, diff as int);
                }
            } else {
                assert forall|x: WallTime| #[trigger] from_on(before, x) implies !field_accepts(items@, x.month as int) by {
                    assert(x.wf());
                    lemma_month_skip(items@, before, x, diff as int);
                }
            }
        }
        r
    }
}

/// A reading from `before` up to the first of the month `diff` months on
/// falls in a month the field does not list, when `diff` is the distance to
/// the nearest listed month.
#[verifier::spinoff_prover]
#[verifier::rlimit(30)]
proof fn lemma_month_skip(items: Seq<Item>, before: WallTime, x: WallTime, diff: int)
    requires
        before.wf(),
        x.wf(),
        strictly_sorted(items),
        field_wf(items, MONTH_FIELD as int),
        !items.contains(Item::Star),
        spec_next_nearest_diff(before.month as int, items, Some(12)) == Some(diff),
        0 < diff <= 23,
        x.year * 12 + x.month < before.year * 12 + before.month + diff,
        before.epoch() <= x.epoch(),
    ensures
        !field_accepts(items, x.month as int),
{
    lemma_no_last(items, MONTH_FIELD as int);
    lemma_values_within(items, MONTH_FIELD as int, 12);
    lemma_not_earlier_date(before, x);
    lemma_cycle_gap(before.month as int, items, 12, diff, x.month);
}

/// A reading with no microseconds after the last second of the month
/// `-diff` months back and at or before `before` falls in a month the
/// field does not list, when `diff` is the distance back to the nearest
/// listed month.
#[verifier::spinoff_prover]
#[verifier::rlimit(30)]
proof fn lemma_month_skip_back(items: Seq<Item>, before: WallTime, x: WallTime, diff: int)
    requires
        before.wf(),
        x.wf(),
        strictly_sorted(items),
        field_wf(items, MONTH_FIELD as int),
        !items.contains(Item::Star),
        spec_prev_nearest_diff(before.month as int, items, Some(12)) == Some(diff),
        diff < 0,
        before.month + diff >= -11,
        x.year * 12 + x.month > before.year * 12 + before.month + diff,
        x.epoch() <= before.epoch(),
    ensures
        !field_accepts(items, x.month as int),
{
    lemma_no_last(items, MONTH_FIELD as int);
    lemma_values_within(items, MONTH_FIELD as int, 12);
    lemma_not_earlier_date(x, before);
    crate::skip::lemma_cycle_gap_back(before.month as int, items, 12, diff, x.month);
}

/// A reading with no microseconds after the last second of month `(y, m)`
/// lies in a later month.
proof fn lemma_after_month_end(a: WallTime, x: WallTime)
    requires
        a.wf(),
        x.wf(),
        x.micro == 0,
        a.day == days_in_month(a.year as int, a.month as int),
        a.hour == 23 && a.minute == 59 && a.second == 59,
        a.epoch() < x.epoch(),
    ensures
        x.year * 12 + x.month > a.year * 12 + a.month,
{
    crate::skip::lemma_units(a);
    crate::skip::lemma_units(x);
    let (xy, xm, xd) = (x.year as int, x.month as int, x.day as int);
    if x.year * 12 + x.month <= a.year * 12 + a.month {
        assert(xy < a.year || (xy == a.year && xm <= a.month));
        if xy != a.year || xm != a.month || xd != a.day {
            lemma_date_order(xy, xm, xd, a.year as int, a.month as int, a.day as int);
        }
    }
}

/// Whether the year field (if there is one) accepts year `y`.
pub open spec fn year_accepts(e: Seq<Vec<Item>>, y: int) -> bool {
    e.len() != 7 || field_accepts(e[YEAR_FIELD as int]@, y)
}

/// No listed year lies at or beyond `y` in the direction of the search.
pub open spec fn years_exhausted(e: Seq<Vec<Item>>, y: int, is_prev: bool) -> bool {
    &&& e.len() == 7
    &&& !e[YEAR_FIELD as int]@.contains(Item::Star)
    &&& forall|i: int| 0 <= i < e[YEAR_FIELD as int]@.len() ==>
        (#[trigger] e[YEAR_FIELD as int]@[i] matches Item::Num(v) ==> if is_prev { v > y } else { v < y })
}

proof fn lemma_year_diff(x: int, s: Seq<Item>, is_prev: bool)
    requires
        field_wf(s, YEAR_FIELD as int),
        !s.contains(Item::Star),
    ensures
        ({
            let r = if is_prev { spec_prev_nearest_diff(x, s, None) } else { spec_next_nearest_diff(x, s, None) };
            &&& r matches Some(d) ==> (if is_prev { 1970 - x <= d <= 0 } else { 0 <= d <= 2099 - x })
                && (d == 0 ==> s.contains(Item::Num(x as i64)))
            &&& r is None ==> forall|i: int| 0 <= i < s.len() ==>
                (#[trigger] s[i] matches Item::Num(v) ==> if is_prev { v > x } else { v < x })
        }),
{
    lemma_next_scan(x, s, None);
    lemma_prev_scan(x, s);
    if s.contains(Item::Last) {
        let i = choose|i: int| 0 <= i < s.len() && s[i] == Item::Last;
        assert(item_in_field(s[i], YEAR_FIELD as int));
    }
    if !is_prev {
        if let Some(d) = next_scan(x, s, None) {
            let i = choose|i: int| 0 <= i < s.len() && effective(s[i], None) == Some(d);
            assert(item_in_field(s[i], YEAR_FIELD as int));
            if d == x {
                assert(s[i] == Item::Num(x as i64));
            }
        } else {
            assert forall|i: int| 0 <= i < s.len() implies
                (#[trigger] s[i] matches Item::Num(v) ==> v < x) by {
                assert(item_in_field(s[i], YEAR_FIELD as int));
                if let Item::Num(v) = s[i] {
                    assert(effective(s[i], None) == Some(v as int));
                }
            }
        }
    } else {
        if let Some(d) = prev_scan(x, s) {
            let i = choose|i: int| 0 <= i < s.len() && s[i] == Item::Num(d as i64);
            assert(item_in_field(s[i], YEAR_FIELD as int));
        }
    }
}

/// The year step (seven-column expressions only): move to the nearest
/// listed year, or stop when none is left in the direction of the search.
#[verifier::spinoff_prover]
#[verifier::rlimit(40)]
fn proc_year(t: &mut WallTime, expanded: &Vec<Vec<Item>>, is_prev: bool) -> (r: Result<Proc, CroniterError>)
    requires
        old(t).wf(),
        old(t).micro == 0,
        expanded_wf(expanded@),
    ensures
        match r {
            Ok(Proc::Unchanged) => *final(t) == *old(t) && year_accepts(expanded@, old(t).year as int),
            Ok(Proc::Changed) => final(t).wf() && final(t).micro == 0 && moved(*old(t), *final(t), is_prev)
                && (!is_prev ==> final(t).second == 0),
            Ok(Proc::Stop) => *final(t) == *old(t) && years_exhausted(expanded@, old(t).year as int, is_prev),
            Err(e) => e is BadDate && e@ == bad_date_view(is_prev),
        },
        (!is_prev && r matches Ok(Proc::Changed)) ==> forall|x: WallTime| x.wf()
            && old(t).epoch() <= x.epoch() < final(t).epoch() ==> !#[trigger] year_accepts(expanded@, x.year as int),
        (!is_prev && r is Err) ==> forall|x: WallTime| #[trigger] from_on(*old(t), x)
            ==> !year_accepts(expanded@, x.year as int),
        (is_prev && r matches Ok(Proc::Changed)) ==> forall|x: WallTime| #[trigger] in_back_span(*final(t), *old(t), x)
            ==> !year_accepts(expanded@, x.year as int),
        (is_prev && r is Err) ==> forall|x: WallTime| #[trigger] up_to(*old(t), x)
            ==> !year_accepts(expanded@, x.year as int),
{
    if expanded.len() != YEAR_CRON_LEN {
        return Ok(Proc::Unchanged);
    }
    let items = &expanded[YEAR_FIELD];
    assert(field_wf(expanded@[YEAR_FIELD as int]@, YEAR_FIELD as int));
    if contains_item(items, Item::Star) {
        return Ok(Proc::Unchanged);
    }
    proof {
        lemma_field_bounded(items@, YEAR_FIELD as int);
        lemma_year_diff(t.year as int, items@, is_prev);
    }
    let diff = match nearest_diff(is_prev, t.year, items.as_slice(), None) {
        Some(d) => d,
        None => { return Ok(Proc::Stop); },
    };
    if diff == 0 {
        return Ok(Proc::Unchanged);
    }
    let ghost before = *t;
    if is_prev {
        let rd = RelDelta::new().years(diff).month_at(12).day_at(31).hour_at(23).minute_at(59).second_at(59);
        let r = apply(t, &rd, true);
        proof {
            if r is Ok {
                crate::reldelta::lemma_add_unfold(before, rd);
                let y2 = before.year + diff;
                lemma_end_of_year(y2, 12, 31);
                lemma_years_ordered(y2 + 1, before.year as int);
                lemma_end_of_year(before.year as int, before.month as int, before.day as int);
                lemma_epoch_in_day(before);
                lemma_epoch_injective(*t, y2, 12, 31, 23, 59, 59, 0);
                let after = *t;
                assert forall|x: WallTime| #[trigger] in_back_span(after, before, x)
                    implies !year_accepts(expanded@, x.year as int) by {
                    lemma_after_month_end(after, x);
                    lemma_not_earlier_date(x, before);
                    crate::skip::lemma_prev_scan_gap(before.year as int, items@, y2, x.year);
                }
            } else {
                crate::reldelta::lemma_add_invalid_year(before, rd);
                assert forall|x: WallTime| #[trigger] up_to(before, x)
                    implies !year_accepts(expanded@, x.year as int) by {
                    lemma_not_earlier_date(x, before);
                    crate::skip::lemma_prev_scan_gap(before.year as int, items@, before.year + diff, x.year);
                }
            }
        }
        r
    } else {
        let rd = RelDelta::new().years(diff).month_at(1).day_at(1).hour_at(0).minute_at(0).second_at(0);
        let r = apply(t, &rd, false);
        proof {
            if r is Ok {
                crate::reldelta::lemma_add_unfold(before, rd);
                let y2 = before.year + diff;
                lemma_end_of_year(before.year as int, before.month as int, before.day as int);
                lemma_years_ordered(before.year + 1, y2);
                lemma_epoch_in_day(before);
                lemma_epoch_injective(*t, y2, 1, 1, 0, 0, 0, 0);
                let after = *t;
                assert forall|x: WallTime| x.wf() && before.epoch() <= x.epoch() < after.epoch()
                    implies !#[trigger] year_accepts(expanded@, x.year as int) by {
                    lemma_not_earlier_date(before, x);
                    lemma_earlier_date(x, y2, 1, 1);
                    let d = next_scan(before.year as int, items@, None)->0;
                    lemma_scan_gap(before.year as int, items@, None, d, x.year);
                }
            } else {
                crate::reldelta::lemma_add_invalid_year(before, rd);
            }
        }
        r
    }
}

/// The days of a month share the weekday cycle: a day's weekday moves by
/// one with each day.
proof fn lemma_weekday_in_month(y: int, m: int, d: int)
    ensures
        weekday_of(y, m, d) == (days_from_civil(y, m, 1) + 3 + d) % 7,
{
}

/// A complete increasing list of the days of a month on one weekday holds
/// the first such day (within days 1..=7) and then every seventh day: its
/// `k`-th entry lies in days `7k+1..=7k+7`, and its last entry is within the
/// final week of the month.
#[verifier::spinoff_prover]
#[verifier::rlimit(40)]
proof fn lemma_weekday_list(c: Seq<i64>, y: int, m: int, w: int)
    requires
        lists_weekdays(c, y, m, w),
        valid_date(y, m, 1),
        0 <= w < 7,
    ensures
        c.len() > 0,
        forall|k: int| 0 <= k < c.len() ==> (#[trigger] c[k] - 1) / 7 == k,
        c[c.len() - 1] + 7 > days_in_month(y, m),
{
    let base = days_from_civil(y, m, 1) + 3;
    let d0 = ((w - base - 1) % 7) + 1;
    lemma_weekday_in_month(y, m, d0);
    assert(weekday_of(y, m, d0) == w);
    assert(c.contains(d0 as i64));
    let j0 = choose|j: int| 0 <= j < c.len() && c[j] == d0 as i64;
    assert(c[0] <= 7) by {
        if j0 > 0 {
            assert(c[0] < c[j0]);
        }
    }
    assert forall|k: int| 0 <= k < c.len() implies #[trigger] c[k] == c[0] + 7 * k by {
        lemma_weekday_list_step(c, y, m, w, k);
    }
    let last = c.len() - 1;
    let e = c[last] + 7;
    if e <= days_in_month(y, m) {
        lemma_weekday_in_month(y, m, c[last] as int);
        lemma_weekday_in_month(y, m, e);
        assert(c.contains(e as i64));
        let j = choose|j: int| 0 <= j < c.len() && c[j] == e as i64;
        if j < last {
            assert(c[j] < c[last]);
        }
    }
}

#[verifier::spinoff_prover]
#[verifier::rlimit(30)]
proof fn lemma_weekday_list_step(c: Seq<i64>, y: int, m: int, w: int, k: int)
    requires
        lists_weekdays(c, y, m, w),
        valid_date(y, m, 1),
        0 <= k < c.len(),
    ensures
        c[k] == c[0] + 7 * k,
    decreases k,
{
    if k > 0 {
        lemma_weekday_list_step(c, y, m, w, k - 1);
        let a = c[k - 1];
        let b = c[k];
        assert(a < b);
        lemma_weekday_in_month(y, m, a as int);
        lemma_weekday_in_month(y, m, b as int);
        assert(b >= a + 7);
        let e = a + 7;
        lemma_weekday_in_month(y, m, e as int);
        assert(c.contains(e as i64));
        let j = choose|j: int| 0 <= j < c.len() && c[j] == e as i64;
        if j < k {
            if j < k - 1 {
                assert(c[j] < c[k - 1]);
            }
        } else if j > k {
            assert(c[k] < c[j]);
        }
    }
}

/// Whether day `d` of `month` of `year` is the `n`-th (or last) of its
/// weekday `w` in that month.
pub open spec fn nth_is_day(year: int, month: int, w: int, n: Nth, d: int) -> bool {
    &&& 1 <= d <= days_in_month(year, month)
    &&& weekday_of(year, month, d) == w
    &&& match n {
        Nth::Num(k) => (d - 1) / 7 == k - 1,
        Nth::Last => d + 7 > days_in_month(year, month),
    }
}

/// The `#`/`l` qualifiers accept day `d`: it is the chosen occurrence of one
/// of the listed weekdays.
pub open spec fn nth_accepts(nth: Seq<Vec<Nth>>, year: int, month: int, d: int) -> bool {
    exists|w: int, k: int| 0 <= w < nth.len() && 0 <= k < nth[w]@.len()
        && #[trigger] nth_is_day(year, month, w, nth[w]@[k], d)
}

/// Whether any weekday carries a `#`/`l` qualifier.
pub open spec fn nth_in_use(nth: Seq<Vec<Nth>>) -> bool {
    exists|w: int| 0 <= w < nth.len() && #[trigger] nth[w]@.len() > 0
}

/// Seven lists (one per weekday, Sunday first) of qualifiers `1..=5` or `l`.
pub open spec fn nth_wf(nth: Seq<Vec<Nth>>) -> bool {
    &&& nth.len() == 7
    &&& forall|w: int, k: int| 0 <= w < 7 && 0 <= k < nth[w]@.len() ==>
        (#[trigger] nth[w]@[k] matches Nth::Num(n) ==> 1 <= n <= 5)
}

/// The `W` qualifier accepts day `d`.
pub open spec fn nearest_accepts(nw: Seq<i64>, year: int, month: int, d: int) -> bool {
    exists|i: int| 0 <= i < nw.len() && spec_nearest_weekday(year, month, #[trigger] nw[i] as int) == d
}

/// Days `1..=31` carrying the `W` qualifier.
pub open spec fn nearest_wf(nw: Seq<i64>) -> bool {
    forall|i: int| 0 <= i < nw.len() ==> 1 <= #[trigger] nw[i] <= 31
}

/// Day `d2` lies on the side of `day` that the search moves to (or is
/// `day` itself).
pub open spec fn on_side(is_prev: bool, day: int, d2: int) -> bool {
    if is_prev { d2 <= day } else { day <= d2 }
}

/// The shared tail of the `#` and `W` steps: stay when today is a
/// candidate, otherwise move to the nearest candidate, or past the end (start)
/// of the month when there is none.
#[verifier::spinoff_prover]
#[verifier::rlimit(40)]
fn finish_day_candidates(t: &mut WallTime, candidates: Vec<i64>, year: i64, month: i64, is_prev: bool) -> (r: Result<Proc, CroniterError>)
    requires
        old(t).wf(),
        old(t).micro == 0,
        year == old(t).year,
        month == old(t).month,
        forall|i: int| 0 <= i < candidates@.len() ==> 1 <= #[trigger] candidates@[i] <= 31,
        forall|i: int| 0 <= i < candidates@.len() ==> #[trigger] candidates@[i] <= days_in_month(year as int, month as int),
        forall|i: int| 0 <= i < candidates@.len() ==>
            (if is_prev { #[trigger] candidates@[i] <= old(t).day } else { old(t).day <= candidates@[i] }),
    ensures
        proc_post(r, *old(t), *final(t), is_prev, candidates@.contains(old(t).day)),
        (!is_prev && r matches Ok(Proc::Changed)) ==> forall|x: WallTime| #[trigger] in_span(*old(t), *final(t), x)
            ==> x.year == old(t).year && x.month == old(t).month && old(t).day <= x.day && !candidates@.contains(x.day),
        (!is_prev && r is Err) ==> forall|x: WallTime| #[trigger] from_on(*old(t), x)
            ==> x.year == old(t).year && x.month == old(t).month && old(t).day <= x.day && !candidates@.contains(x.day),
        (is_prev && r matches Ok(Proc::Changed)) ==> forall|x: WallTime| #[trigger] in_back_span(*final(t), *old(t), x)
            ==> x.year == old(t).year && x.month == old(t).month && x.day <= old(t).day && !candidates@.contains(x.day),
        (is_prev && r is Err) ==> forall|x: WallTime| #[trigger] up_to(*old(t), x)
            ==> x.year == old(t).year && x.month == old(t).month && x.day <= old(t).day && !candidates@.contains(x.day),
{
    let ghost before = *t;
    if candidates.len() == 0 {
        if is_prev {
            let r = move_days(t, -t.day, true);
            proof {
                lemma_units(before);
                if r is Ok {
                    assert forall|x: WallTime| #[trigger] in_back_span(*t, before, x)
                        implies x.year == before.year && x.month == before.month && x.day <= before.day
                        && !candidates@.contains(x.day) by {
                        crate::skip::lemma_whole_seconds(*t, x);
                        lemma_units(x);
                        crate::skip::lemma_within_month_back(before, x);
                    }
                } else {
                    assert forall|x: WallTime| #[trigger] up_to(before, x)
                        implies x.year == before.year && x.month == before.month && x.day <= before.day
                        && !candidates@.contains(x.day) by {
                        crate::datetime::lemma_epoch_bounds(x);
                        lemma_units(x);
                        crate::skip::lemma_within_month_back(before, x);
                    }
                }
            }
            return r;
        } else {
            let days = last_day_of_month(year, month);
            let r = move_days(t, days - t.day + 1, false);
            proof {
                if r is Ok {
                    assert forall|x: WallTime| #[trigger] in_span(before, *t, x)
                        implies x.year == before.year && x.month == before.month && before.day <= x.day
                        && !candidates@.contains(x.day) by {
                        crate::skip::lemma_within_month(before, x);
                    }
                } else {
                    assert forall|x: WallTime| #[trigger] from_on(before, x)
                        implies x.year == before.year && x.month == before.month && before.day <= x.day
                        && !candidates@.contains(x.day) by {
                        crate::datetime::lemma_epoch_bounds(x);
                        crate::skip::lemma_within_month(before, x);
                    }
                }
            }
            return r;
        }
    }
    let mut chosen = candidates[0];
    let mut i: usize = 1;
    while i < candidates.len()
        invariant
            1 <= i <= candidates@.len(),
            candidates@.contains(chosen),
            forall|j: int| 0 <= j < candidates@.len() ==> 1 <= #[trigger] candidates@[j] <= 31,
            forall|j: int| 0 <= j < candidates@.len() ==>
                (if is_prev { #[trigger] candidates@[j] <= old(t).day } else { old(t).day <= candidates@[j] }),
            !is_prev ==> forall|j: int| 0 <= j < i ==> chosen <= #[trigger] candidates@[j],
            is_prev ==> forall|j: int| 0 <= j < i ==> #[trigger] candidates@[j] <= chosen,
        decreases candidates.len() - i,
    {
        let c = candidates[i];
        if (is_prev && c > chosen) || (!is_prev && c < chosen) {
            chosen = c;
        }
        i = i + 1;
    }
    proof {
        let j = choose|j: int| 0 <= j < candidates@.len() && candidates@[j] == chosen;
        assert(1 <= candidates@[j] <= 31);
    }
    let diff_day = chosen - t.day;
    if diff_day == 0 {
        return Ok(Proc::Unchanged);
    }
    let r = move_days(t, diff_day, is_prev);
    proof {
        if !is_prev && r is Ok {
            let after = *t;
            let j = choose|j: int| 0 <= j < candidates@.len() && candidates@[j] == chosen;
            assert(chosen <= days_in_month(year as int, month as int));
            assert forall|x: WallTime| #[trigger] in_span(before, *t, x)
                implies x.year == before.year && x.month == before.month && before.day <= x.day
                && !candidates@.contains(x.day) by {
                lemma_not_earlier_date(before, x);
                lemma_earlier_date(x, year as int, month as int, chosen as int);
                if candidates@.contains(x.day) {
                    let k = choose|k: int| 0 <= k < candidates@.len() && candidates@[k] == x.day;
                    assert(chosen <= candidates@[k]);
                }
            }
        }
        if !is_prev && r is Err {
            let j = choose|j: int| 0 <= j < candidates@.len() && candidates@[j] == chosen;
            assert(chosen <= days_in_month(year as int, month as int));
            assert forall|x: WallTime| #[trigger] from_on(before, x)
                implies x.year == before.year && x.month == before.month && before.day <= x.day
                && !candidates@.contains(x.day) by {
                crate::datetime::lemma_epoch_bounds(x);
                lemma_not_earlier_date(before, x);
                lemma_earlier_date(x, year as int, month as int, chosen as int);
                if candidates@.contains(x.day) {
                    let k = choose|k: int| 0 <= k < candidates@.len() && candidates@[k] == x.day;
                    assert(chosen <= candidates@[k]);
                }
            }
        }
        if is_prev {
            let j = choose|j: int| 0 <= j < candidates@.len() && candidates@[j] == chosen;
            lemma_units(before);
            if r is Ok {
                assert forall|x: WallTime| #[trigger] in_back_span(*t, before, x)
                    implies x.year == before.year && x.month == before.month && x.day <= before.day
                    && !candidates@.contains(x.day) by {
                    crate::skip::lemma_whole_seconds(*t, x);
                    lemma_units(x);
                    crate::skip::lemma_within_month_back(before, x);
                    if candidates@.contains(x.day) {
                        let k = choose|k: int| 0 <= k < candidates@.len() && candidates@[k] == x.day;
                        assert(candidates@[k] <= chosen);
                    }
                }
            } else {
                assert forall|x: WallTime| #[trigger] up_to(before, x)
                    implies x.year == before.year && x.month == before.month && x.day <= before.day
                    && !candidates@.contains(x.day) by {
                    crate::datetime::lemma_epoch_bounds(x);
                    lemma_units(x);
                    crate::skip::lemma_within_month_back(before, x);
                    if candidates@.contains(x.day) {
                        let k = choose|k: int| 0 <= k < candidates@.len() && candidates@[k] == x.day;
                        assert(candidates@[k] <= chosen);
                    }
                }
            }
        }
    }
    r
}

/// The `#`/`l` step: the chosen occurrences of the qualified weekdays in
/// this month are the candidate days.
#[verifier::spinoff_prover]
#[verifier::rlimit(40)]
fn proc_day_of_week_nth(t: &mut WallTime, nth: &Vec<Vec<Nth>>, year: i64, month: i64, is_prev: bool) -> (r: Result<Proc, CroniterError>)
    requires
        old(t).wf(),
        old(t).micro == 0,
        year == old(t).year,
        month == old(t).month,
        nth_wf(nth@),
    ensures
        proc_post(r, *old(t), *final(t), is_prev, nth_accepts(nth@, year as int, month as int, old(t).day as int)),
        (!is_prev && r matches Ok(Proc::Changed)) ==> forall|x: WallTime| #[trigger] in_span(*old(t), *final(t), x)
            ==> !nth_accepts(nth@, x.year as int, x.month as int, x.day as int),
        (!is_prev && r is Err) ==> forall|x: WallTime| #[trigger] from_on(*old(t), x)
            ==> !nth_accepts(nth@, x.year as int, x.month as int, x.day as int),
        (is_prev && r matches Ok(Proc::Changed)) ==> forall|x: WallTime| #[trigger] in_back_span(*final(t), *old(t), x)
            ==> !nth_accepts(nth@, x.year as int, x.month as int, x.day as int),
        (is_prev && r is Err) ==> forall|x: WallTime| #[trigger] up_to(*old(t), x)
            ==> !nth_accepts(nth@, x.year as int, x.month as int, x.day as int),
{
    let mut candidates: Vec<i64> = Vec::new();
    let day = t.day;
    let ghost y = year as int;
    let ghost m = month as int;
    let mut w: usize = 0;
    while w < 7
        invariant
            w <= 7,
            y == year as int,
            m == month as int,
            nth_wf(nth@),
            t.wf(),
            year == t.year,
            month == t.month,
            day == t.day,
            forall|i: int| 0 <= i < candidates@.len() ==> 1 <= #[trigger] candidates@[i] <= 31,
            forall|i: int| 0 <= i < candidates@.len() ==>
                (if is_prev { #[trigger] candidates@[i] <= day } else { day <= candidates@[i] }),
            forall|i: int| 0 <= i < candidates@.len() ==> nth_accepts(nth@, y, m, #[trigger] candidates@[i] as int),
            forall|w2: int, k: int| 0 <= w2 < w && 0 <= k < nth@[w2]@.len()
                && #[trigger] nth_is_day(y, m, w2, nth@[w2]@[k], day as int) ==> candidates@.contains(day),
            forall|i: int| 0 <= i < candidates@.len() ==> #[trigger] candidates@[i] <= days_in_month(y, m),
            forall|w2: int, k: int, d2: int| 0 <= w2 < w && 0 <= k < nth@[w2]@.len() && on_side(is_prev, day as int, d2)
                && #[trigger] nth_is_day(y, m, w2, nth@[w2]@[k], d2) ==> candidates@.contains(d2 as i64),
        decreases 7 - w,
    {
        let nths = &nth[w];
        if nths.len() > 0 {
            let c = nth_weekday_of_month(t.year, t.month, w as i64);
            proof {
                assert(valid_date(y, m, 1));
                assert(lists_weekdays(c@, y, m, w as int));
                lemma_weekday_list(c@, y, m, w as int);
            }
            let mut k: usize = 0;
            while k < nths.len()
                invariant
                    k <= nths@.len(),
                    y == year as int,
                    m == month as int,
                    nths@ == nth@[w as int]@,
                    w < 7,
                    nth_wf(nth@),
                    lists_weekdays(c@, y, m, w as int),
                    c@.len() > 0,
                    forall|k2: int| 0 <= k2 < c@.len() ==> (#[trigger] c@[k2] - 1) / 7 == k2,
                    c@[c@.len() - 1] + 7 > days_in_month(y, m),
                    t.wf(),
                    year == t.year,
                    month == t.month,
                    day == t.day,
                    forall|i: int| 0 <= i < candidates@.len() ==> 1 <= #[trigger] candidates@[i] <= 31,
                    forall|i: int| 0 <= i < candidates@.len() ==>
                        (if is_prev { #[trigger] candidates@[i] <= day } else { day <= candidates@[i] }),
                    forall|i: int| 0 <= i < candidates@.len() ==> nth_accepts(nth@, y, m, #[trigger] candidates@[i] as int),
                    forall|w2: int, k3: int| 0 <= w2 < w && 0 <= k3 < nth@[w2]@.len()
                        && #[trigger] nth_is_day(y, m, w2, nth@[w2]@[k3], day as int) ==> candidates@.contains(day),
                    forall|k3: int| 0 <= k3 < k
                        && #[trigger] nth_is_day(y, m, w as int, nth@[w as int]@[k3], day as int) ==> candidates@.contains(day),
                    forall|i: int| 0 <= i < candidates@.len() ==> #[trigger] candidates@[i] <= days_in_month(y, m),
                    forall|w2: int, k3: int, d2: int| 0 <= w2 < w && 0 <= k3 < nth@[w2]@.len() && on_side(is_prev, day as int, d2)
                        && #[trigger] nth_is_day(y, m, w2, nth@[w2]@[k3], d2) ==> candidates@.contains(d2 as i64),
                    forall|k3: int, d2: int| 0 <= k3 < k && on_side(is_prev, day as int, d2)
                        && #[trigger] nth_is_day(y, m, w as int, nth@[w as int]@[k3], d2) ==> candidates@.contains(d2 as i64),
                decreases nths.len() - k,
            {
                let n = nths[k];
                assert(nth@[w as int]@[k as int] == n);
                let cand: Option<i64> = match n {
                    Nth::Last => Some(c[c.len() - 1]),
                    Nth::Num(q) => {
                        if (c.len() as i64) < q {
                            None
                        } else {
                            Some(c[(q - 1) as usize])
                        }
                    },
                };
                let ghost before = candidates@;
                if let Some(v) = cand {
                    proof {
                        if let Nth::Num(q) = n {
                            assert((c@[q - 1] - 1) / 7 == q - 1);
                        }
                        assert(nth_is_day(y, m, w as int, n, v as int));
                    }
                    if (is_prev && v <= day) || (!is_prev && day <= v) {
                        candidates.push(v);
                        proof {
                            assert(candidates@[candidates@.len() - 1] == v);
                            assert forall|i: int| 0 <= i < candidates@.len() implies
                                nth_accepts(nth@, y, m, #[trigger] candidates@[i] as int) by {
                                if i < candidates@.len() - 1 {
                                    assert(candidates@[i] == before[i]);
                                } else {
                                    assert(nth_is_day(y, m, w as int, nth@[w as int]@[k as int], candidates@[i] as int));
                                }
                            }
                        }
                    }
                }
                proof {
                    assert forall|w2: int, k3: int| 0 <= w2 < w && 0 <= k3 < nth@[w2]@.len()
                        && #[trigger] nth_is_day(y, m, w2, nth@[w2]@[k3], day as int) implies candidates@.contains(day) by {
                        assert(before.contains(day));
                        let i = choose|i: int| 0 <= i < before.len() && before[i] == day;
                        assert(candidates@[i] == day);
                    }
                    assert forall|k3: int| 0 <= k3 < k + 1
                        && #[trigger] nth_is_day(y, m, w as int, nth@[w as int]@[k3], day as int) implies candidates@.contains(day) by {
                        if k3 < k {
                            assert(before.contains(day));
                            let i = choose|i: int| 0 <= i < before.len() && before[i] == day;
                            assert(candidates@[i] == day);
                        } else {
                            lemma_nth_day_unique(c@, y, m, w as int, n, day as int);
                            assert(candidates@[candidates@.len() - 1] == day);
                        }
                    }
                    assert forall|i: int| 0 <= i < candidates@.len() implies #[trigger] candidates@[i] <= days_in_month(y, m) by {
                        if i < before.len() {
                            assert(candidates@[i] == before[i]);
                        } else {
                            assert(nth_is_day(y, m, w as int, n, candidates@[i] as int));
                        }
                    }
                    assert forall|w2: int, k3: int, d2: int| 0 <= w2 < w && 0 <= k3 < nth@[w2]@.len() && on_side(is_prev, day as int, d2)
                        && #[trigger] nth_is_day(y, m, w2, nth@[w2]@[k3], d2) implies candidates@.contains(d2 as i64) by {
                        assert(before.contains(d2 as i64));
                        let i = choose|i: int| 0 <= i < before.len() && before[i] == d2 as i64;
                        assert(candidates@[i] == d2 as i64);
                    }
                    assert forall|k3: int, d2: int| 0 <= k3 < k + 1 && on_side(is_prev, day as int, d2)
                        && #[trigger] nth_is_day(y, m, w as int, nth@[w as int]@[k3], d2) implies candidates@.contains(d2 as i64) by {
                        if k3 < k {
                            assert(before.contains(d2 as i64));
                            let i = choose|i: int| 0 <= i < before.len() && before[i] == d2 as i64;
                            assert(candidates@[i] == d2 as i64);
                        } else {
                            lemma_nth_day_unique(c@, y, m, w as int, n, d2);
                            assert(candidates@[candidates@.len() - 1] == d2 as i64);
                        }
                    }
                }
                k = k + 1;
            }
        }
        w = w + 1;
    }
    let ghost t0 = *t;
    let ghost cands = candidates@;
    let r = finish_day_candidates(t, candidates, year, month, is_prev);
    proof {
        if r matches Ok(Proc::Unchanged) {
            let i = choose|i: int| 0 <= i < candidates@.len() && candidates@[i] == day;
            assert(nth_accepts(nth@, y, m, candidates@[i] as int));
        }
        if !is_prev && r matches Ok(Proc::Changed) {
            assert forall|x: WallTime| #[trigger] in_span(t0, *t, x)
                implies !nth_accepts(nth@, x.year as int, x.month as int, x.day as int) by {
                if nth_accepts(nth@, x.year as int, x.month as int, x.day as int) {
                    let (w2, k3) = choose|w2: int, k3: int| 0 <= w2 < nth@.len() && 0 <= k3 < nth@[w2]@.len()
                        && #[trigger] nth_is_day(x.year as int, x.month as int, w2, nth@[w2]@[k3], x.day as int);
                    assert(cands.contains(x.day));
                }
            }
        }
        if !is_prev && r is Err {
            assert forall|x: WallTime| #[trigger] from_on(t0, x)
                implies !nth_accepts(nth@, x.year as int, x.month as int, x.day as int) by {
                if nth_accepts(nth@, x.year as int, x.month as int, x.day as int) {
                    let (w2, k3) = choose|w2: int, k3: int| 0 <= w2 < nth@.len() && 0 <= k3 < nth@[w2]@.len()
                        && #[trigger] nth_is_day(x.year as int, x.month as int, w2, nth@[w2]@[k3], x.day as int);
                    assert(cands.contains(x.day));
                }
            }
        }
        if is_prev && r matches Ok(Proc::Changed) {
            assert forall|x: WallTime| #[trigger] in_back_span(*t, t0, x)
                implies !nth_accepts(nth@, x.year as int, x.month as int, x.day as int) by {
                if nth_accepts(nth@, x.year as int, x.month as int, x.day as int) {
                    let (w2, k3) = choose|w2: int, k3: int| 0 <= w2 < nth@.len() && 0 <= k3 < nth@[w2]@.len()
                        && #[trigger] nth_is_day(x.year as int, x.month as int, w2, nth@[w2]@[k3], x.day as int);
                    assert(cands.contains(x.day));
                }
            }
        }
        if is_prev && r is Err {
            assert forall|x: WallTime| #[trigger] up_to(t0, x)
                implies !nth_accepts(nth@, x.year as int, x.month as int, x.day as int) by {
                if nth_accepts(nth@, x.year as int, x.month as int, x.day as int) {
                    let (w2, k3) = choose|w2: int, k3: int| 0 <= w2 < nth@.len() && 0 <= k3 < nth@[w2]@.len()
                        && #[trigger] nth_is_day(x.year as int, x.month as int, w2, nth@[w2]@[k3], x.day as int);
                    assert(cands.contains(x.day));
                }
            }
        }
    }
    r
}

/// The occurrence that a qualifier picks is the list entry the step reads.
proof fn lemma_nth_day_unique(c: Seq<i64>, y: int, m: int, w: int, n: Nth, d: int)
    requires
        lists_weekdays(c, y, m, w),
        c.len() > 0,
        forall|k2: int| 0 <= k2 < c.len() ==> (#[trigger] c[k2] - 1) / 7 == k2,
        c[c.len() - 1] + 7 > days_in_month(y, m),
        nth_is_day(y, m, w, n, d),
        n matches Nth::Num(q) ==> 1 <= q <= 5,
    ensures
        match n {
            Nth::Last => c[c.len() - 1] == d,
            Nth::Num(q) => c.len() >= q && c[q - 1] == d,
        },
{
    assert(c.contains(d as i64));
    let j = choose|j: int| 0 <= j < c.len() && c[j] == d as i64;
    assert((c[j] - 1) / 7 == j);
    match n {
        Nth::Last => {
            let last = c.len() - 1;
            if j < last {
                assert((c[last] - 1) / 7 == last);
            }
        },
        Nth::Num(q) => {},
    }
}

proof fn lemma_nearest_in_month(y: int, m: int, d: int)
    requires
        1 <= m <= 12,
        1 <= d <= 31,
    ensures
        1 <= spec_nearest_weekday(y, m, d) <= days_in_month(y, m),
{
}

/// The `W` step: the nearest weekdays to the listed days are the candidate
/// days.
#[verifier::spinoff_prover]
#[verifier::rlimit(40)]
fn proc_nearest_weekday(t: &mut WallTime, nw: &Vec<i64>, year: i64, month: i64, is_prev: bool) -> (r: Result<Proc, CroniterError>)
    requires
        old(t).wf(),
        old(t).micro == 0,
        year == old(t).year,
        month == old(t).month,
        nearest_wf(nw@),
    ensures
        proc_post(r, *old(t), *final(t), is_prev, nearest_accepts(nw@, year as int, month as int, old(t).day as int)),
        (!is_prev && r matches Ok(Proc::Changed)) ==> forall|x: WallTime| #[trigger] in_span(*old(t), *final(t), x)
            ==> !nearest_accepts(nw@, x.year as int, x.month as int, x.day as int),
        (!is_prev && r is Err) ==> forall|x: WallTime| #[trigger] from_on(*old(t), x)
            ==> !nearest_accepts(nw@, x.year as int, x.month as int, x.day as int),
        (is_prev && r matches Ok(Proc::Changed)) ==> forall|x: WallTime| #[trigger] in_back_span(*final(t), *old(t), x)
            ==> !nearest_accepts(nw@, x.year as int, x.month as int, x.day as int),
        (is_prev && r is Err) ==> forall|x: WallTime| #[trigger] up_to(*old(t), x)
            ==> !nearest_accepts(nw@, x.year as int, x.month as int, x.day as int),
{
    let mut candidates: Vec<i64> = Vec::new();
    let day = t.day;
    let mut i: usize = 0;
    while i < nw.len()
        invariant
            i <= nw@.len(),
            nearest_wf(nw@),
            1 <= month <= 12,
            forall|j: int| 0 <= j < candidates@.len() ==> 1 <= #[trigger] candidates@[j] <= 31,
            forall|j: int| 0 <= j < candidates@.len() ==> #[trigger] candidates@[j] <= days_in_month(year as int, month as int),
            forall|j: int| 0 <= j < i && on_side(is_prev, day as int, spec_nearest_weekday(year as int, month as int, #[trigger] nw@[j] as int))
                ==> candidates@.contains(spec_nearest_weekday(year as int, month as int, nw@[j] as int) as i64),
            forall|j: int| 0 <= j < candidates@.len() ==>
                (if is_prev { #[trigger] candidates@[j] <= day } else { day <= candidates@[j] }),
            forall|j: int| 0 <= j < candidates@.len() ==> nearest_accepts(nw@, year as int, month as int, #[trigger] candidates@[j] as int),
            forall|j: int| 0 <= j < i && spec_nearest_weekday(year as int, month as int, #[trigger] nw@[j] as int) == day
                ==> candidates@.contains(day),
        decreases nw.len() - i,
    {
        let w_day = nw[i];
        assert(1 <= nw@[i as int] <= 31);
        proof {
            lemma_nearest_in_month(year as int, month as int, w_day as int);
        }
        let candidate = nearest_weekday(year, month, w_day);
        let ghost before = candidates@;
        if (is_prev && candidate <= day) || (!is_prev && day <= candidate) {
            candidates.push(candidate);
            proof {
                assert(candidates@[candidates@.len() - 1] == candidate);
                assert forall|j: int| 0 <= j < candidates@.len() implies
                    nearest_accepts(nw@, year as int, month as int, #[trigger] candidates@[j] as int) by {
                    if j < candidates@.len() - 1 {
                        assert(candidates@[j] == before[j]);
                    } else {
                        assert(spec_nearest_weekday(year as int, month as int, nw@[i as int] as int) == candidate);
                    }
                }
            }
        }
        proof {
            assert forall|j: int| 0 <= j < i + 1 && spec_nearest_weekday(year as int, month as int, #[trigger] nw@[j] as int) == day
                implies candidates@.contains(day) by {
                if j < i {
                    let k = choose|k: int| 0 <= k < before.len() && before[k] == day;
                    assert(candidates@[k] == day);
                } else {
                    assert(candidates@[candidates@.len() - 1] == day);
                }
            }
            assert forall|j: int| 0 <= j < candidates@.len() implies #[trigger] candidates@[j] <= days_in_month(year as int, month as int) by {
                if j < before.len() {
                    assert(candidates@[j] == before[j]);
                }
            }
            assert forall|j: int| 0 <= j < i + 1 && on_side(is_prev, day as int, spec_nearest_weekday(year as int, month as int, #[trigger] nw@[j] as int))
                implies candidates@.contains(spec_nearest_weekday(year as int, month as int, nw@[j] as int) as i64) by {
                let v = spec_nearest_weekday(year as int, month as int, nw@[j] as int) as i64;
                if j < i {
                    let k = choose|k: int| 0 <= k < before.len() && before[k] == v;
                    assert(candidates@[k] == v);
                } else {
                    assert(candidates@[candidates@.len() - 1] == v);
                }
            }
        }
        i = i + 1;
    }
    let ghost t0 = *t;
    let ghost cands = candidates@;
    let r = finish_day_candidates(t, candidates, year, month, is_prev);
    proof {
        if r matches Ok(Proc::Unchanged) {
            let j = choose|j: int| 0 <= j < candidates@.len() && candidates@[j] == day;
            assert(nearest_accepts(nw@, year as int, month as int, candidates@[j] as int));
        }
        if !is_prev && r matches Ok(Proc::Changed) {
            assert forall|x: WallTime| #[trigger] in_span(t0, *t, x)
                implies !nearest_accepts(nw@, x.year as int, x.month as int, x.day as int) by {
                if nearest_accepts(nw@, x.year as int, x.month as int, x.day as int) {
                    let j = choose|j: int| 0 <= j < nw@.len()
                        && spec_nearest_weekday(x.year as int, x.month as int, #[trigger] nw@[j] as int) == x.day;
                    assert(cands.contains(spec_nearest_weekday(year as int, month as int, nw@[j] as int) as i64));
                }
            }
        }
        if !is_prev && r is Err {
            assert forall|x: WallTime| #[trigger] from_on(t0, x)
                implies !nearest_accepts(nw@, x.year as int, x.month as int, x.day as int) by {
                if nearest_accepts(nw@, x.year as int, x.month as int, x.day as int) {
                    let j = choose|j: int| 0 <= j < nw@.len()
                        && spec_nearest_weekday(x.year as int, x.month as int, #[trigger] nw@[j] as int) == x.day;
                    assert(cands.contains(spec_nearest_weekday(year as int, month as int, nw@[j] as int) as i64));
                }
            }
        }
        if is_prev && r matches Ok(Proc::Changed) {
            assert forall|x: WallTime| #[trigger] in_back_span(*t, t0, x)
                implies !nearest_accepts(nw@, x.year as int, x.month as int, x.day as int) by {
                if nearest_accepts(nw@, x.year as int, x.month as int, x.day as int) {
                    let j = choose|j: int| 0 <= j < nw@.len()
                        && spec_nearest_weekday(x.year as int, x.month as int, #[trigger] nw@[j] as int) == x.day;
                    assert(cands.contains(spec_nearest_weekday(year as int, month as int, nw@[j] as int) as i64));
                }
            }
        }
        if is_prev && r is Err {
            assert forall|x: WallTime| #[trigger] up_to(t0, x)
                implies !nearest_accepts(nw@, x.year as int, x.month as int, x.day as int) by {
                if nearest_accepts(nw@, x.year as int, x.month as int, x.day as int) {
                    let j = choose|j: int| 0 <= j < nw@.len()
                        && spec_nearest_weekday(x.year as int, x.month as int, #[trigger] nw@[j] as int) == x.day;
                    assert(cands.contains(spec_nearest_weekday(year as int, month as int, nw@[j] as int) as i64));
                }
            }
        }
    }
    r
}

/// Every field of a candidate reading that a search pass checks is accepted:
/// the year, the month, the day of month (or its `W` form), the day of week
/// (or its `#`/`l` form), the hour, the minute, and the second (which is 0
/// without a seconds field); and there are no microseconds.
pub open spec fn search_accepts(e: Seq<Vec<Item>>, nth: Seq<Vec<Nth>>, nw: Seq<i64>, w: WallTime) -> bool {
    &&& year_accepts(e, w.year as int)
    &&& field_accepts(e[MONTH_FIELD as int]@, w.month as int)
    &&& if nw.len() > 0 {
        nearest_accepts(nw, w.year as int, w.month as int, w.day as int)
    } else {
        day_accepts(e[DAY_FIELD as int]@, w.year as int, w.month as int, w.day as int)
    }
    &&& if nth_in_use(nth) {
        nth_accepts(nth, w.year as int, w.month as int, w.day as int)
    } else {
        field_accepts(e[DOW_FIELD as int]@, w.weekday())
    }
    &&& field_accepts(e[HOUR_FIELD as int]@, w.hour as int)
    &&& field_accepts(e[MINUTE_FIELD as int]@, w.minute as int)
    &&& if e.len() > 5 { field_accepts(e[SECOND_FIELD as int]@, w.second as int) } else { w.second == 0 }
    &&& w.micro == 0
}

/// `search_accepts` with the day-of-month field (`blank_day`) or the
/// day-of-week field (`blank_dow`) read as `*`; the `W` and `#`/`l`
/// qualifiers are not affected by the blanking.
pub open spec fn accepts_with(e: Seq<Vec<Item>>, nth: Seq<Vec<Nth>>, nw: Seq<i64>, w: WallTime, blank_day: bool, blank_dow: bool) -> bool {
    &&& year_accepts(e, w.year as int)
    &&& field_accepts(e[MONTH_FIELD as int]@, w.month as int)
    &&& if nw.len() > 0 {
        nearest_accepts(nw, w.year as int, w.month as int, w.day as int)
    } else {
        blank_day || day_accepts(e[DAY_FIELD as int]@, w.year as int, w.month as int, w.day as int)
    }
    &&& if nth_in_use(nth) {
        nth_accepts(nth, w.year as int, w.month as int, w.day as int)
    } else {
        blank_dow || field_accepts(e[DOW_FIELD as int]@, w.weekday())
    }
    &&& field_accepts(e[HOUR_FIELD as int]@, w.hour as int)
    &&& field_accepts(e[MINUTE_FIELD as int]@, w.minute as int)
    &&& if e.len() > 5 { field_accepts(e[SECOND_FIELD as int]@, w.second as int) } else { w.second == 0 }
    &&& w.micro == 0
}

/// A copy of a field list.
fn copy_items(v: &Vec<Item>) -> (r: Vec<Item>)
    ensures
        r@ == v@,
{
    let mut out: Vec<Item> = Vec::new();
    let mut i: usize = 0;
    while i < v.len()
        invariant
            i <= v@.len(),
            out@ == v@.subrange(0, i as int),
        decreases v.len() - i,
    {
        out.push(v[i]);
        i = i + 1;
        assert(out@ =~= v@.subrange(0, i as int));
    }
    assert(v@.subrange(0, v@.len() as int) =~= v@);
    out
}

/// A copy of the expanded fields with field `f` replaced by `*`.
fn with_star(e: &Vec<Vec<Item>>, f: usize) -> (r: Vec<Vec<Item>>)
    requires
        f < e@.len(),
    ensures
        r@.len() == e@.len(),
        r@[f as int]@ == seq![Item::Star],
        forall|g: int| 0 <= g < e@.len() && g != f ==> #[trigger] r@[g]@ == e@[g]@,
{
    let mut out: Vec<Vec<Item>> = Vec::new();
    let mut i: usize = 0;
    while i < e.len()
        invariant
            i <= e@.len(),
            f < e@.len(),
            out@.len() == i,
            forall|g: int| 0 <= g < i && g != f ==> #[trigger] out@[g]@ == e@[g]@,
            f < i ==> out@[f as int]@ == seq![Item::Star],
        decreases e.len() - i,
    {
        if i == f {
            let star = vec![Item::Star];
            assert(star@ =~= seq![Item::Star]);
            out.push(star);
        } else {
            out.push(copy_items(&e[i]));
        }
        i = i + 1;
    }
    out
}

/// No reading strictly between instants `a` and `b` is accepted by every
/// field a search checks.
pub open spec fn quiet(e: Seq<Vec<Item>>, nth: Seq<Vec<Nth>>, nw: Seq<i64>, a: int, b: int) -> bool {
    forall|x: WallTime| #[trigger] search_accepts(e, nth, nw, x) && x.wf() ==> !(a < x.epoch() < b)
}

/// A search step that passes over no accepted reading keeps the search
/// quiet up to where it lands.
proof fn lemma_quiet_step(e: Seq<Vec<Item>>, nth: Seq<Vec<Nth>>, nw: Seq<i64>, now: int, before: WallTime, after: WallTime)
    requires
        quiet(e, nth, nw, now, before.epoch()),
        forall|x: WallTime| #[trigger] in_span(before, after, x) ==> !search_accepts(e, nth, nw, x),
    ensures
        quiet(e, nth, nw, now, after.epoch()),
{
    assert forall|x: WallTime| #[trigger] search_accepts(e, nth, nw, x) && x.wf()
        implies !(now < x.epoch() < after.epoch()) by {
        if x.epoch() >= before.epoch() && x.epoch() < after.epoch() {
            assert(in_span(before, after, x));
        }
    }
}

/// The year of the first candidate of a forward search from `now`: a
/// second on with a seconds field, else a minute on.
pub open spec fn first_year(now: WallTime, has_seconds: bool) -> int {
    crate::datetime::reading_at(now.epoch() + if has_seconds { 1_000_000int } else { 60_000_000int }).year as int
}

/// When the first candidate of a forward search would lie past the last
/// representable instant, no later reading is accepted.
proof fn lemma_quiet_end(e: Seq<Vec<Item>>, nth: Seq<Vec<Nth>>, nw: Seq<i64>, now: WallTime)
    requires
        now.wf(),
        now.epoch() + (if e.len() > 5 { 1_000_000int } else { 60_000_000int }) >= epoch_max(),
    ensures
        forall|x: WallTime| #[trigger] search_accepts(e, nth, nw, x) && x.wf() ==> !(now.epoch() < x.epoch()),
{
    assert forall|x: WallTime| #[trigger] search_accepts(e, nth, nw, x) && x.wf() implies !(now.epoch() < x.epoch()) by {
        lemma_units(x);
        crate::datetime::lemma_epoch_bounds(x);
        let k: int = (crate::datetime::CE_MAX - crate::datetime::CE_OFFSET + 1) * 1440;
        assert(epoch_max() == k * 60_000_000);
        if e.len() > 5 {
            assert(epoch_max() == (k * 60) * 1_000_000);
            assert(x.epoch() == abs_second(x) * 1_000_000);
            if now.epoch() < x.epoch() {
                assert(abs_second(x) * 1_000_000 < (k * 60) * 1_000_000);
                assert(abs_second(x) > k * 60 - 1);
            }
        } else {
            assert(x.epoch() == abs_minute(x) * 60_000_000);
            if now.epoch() < x.epoch() {
                assert(abs_minute(x) * 60_000_000 < k * 60_000_000);
                assert(abs_minute(x) > k - 1);
            }
        }
    }
}

/// The first candidate of a forward search, the next whole minute (or
/// second, with a seconds field) after `now`, leaves nothing accepted in
/// between.
#[verifier::spinoff_prover]
#[verifier::rlimit(60)]
proof fn lemma_quiet_start(e: Seq<Vec<Item>>, nth: Seq<Vec<Nth>>, nw: Seq<i64>, now: WallTime, raw: WallTime, t: WallTime)
    requires
        now.wf(),
        raw.wf(),
        t.wf(),
        e.len() > 5 ==> raw.epoch() == now.epoch() + 1_000_000 && t == (WallTime { micro: 0, ..raw }),
        e.len() <= 5 ==> raw.epoch() == now.epoch() + 60_000_000 && t == (WallTime { second: 0, micro: 0, ..raw }),
    ensures
        quiet(e, nth, nw, now.epoch(), t.epoch()),
{
    lemma_units(now);
    lemma_units(raw);
    lemma_units(t);
    if e.len() > 5 {
        assert(abs_second(raw) == abs_second(now) + 1);
        assert(t.epoch() == abs_second(raw) * 1_000_000);
    } else {
        assert(abs_minute(raw) == abs_minute(now) + 1);
        assert(t.epoch() == abs_minute(raw) * 60_000_000);
    }
    assert forall|x: WallTime| #[trigger] search_accepts(e, nth, nw, x) && x.wf()
        implies !(now.epoch() < x.epoch() < t.epoch()) by {
        lemma_units(x);
        if e.len() > 5 {
            assert(x.epoch() == abs_second(x) * 1_000_000);
        } else {
            assert(x.epoch() == abs_minute(x) * 60_000_000);
        }
    }
}

/// A backward search step that passes over no accepted reading keeps the
/// search quiet from where it lands.
proof fn lemma_quiet_step_back(e: Seq<Vec<Item>>, nth: Seq<Vec<Nth>>, nw: Seq<i64>, now: int, before: WallTime, after: WallTime)
    requires
        quiet(e, nth, nw, before.epoch(), now),
        forall|x: WallTime| #[trigger] in_back_span(after, before, x) ==> !search_accepts(e, nth, nw, x),
    ensures
        quiet(e, nth, nw, after.epoch(), now),
{
    assert forall|x: WallTime| #[trigger] search_accepts(e, nth, nw, x) && x.wf()
        implies !(after.epoch() < x.epoch() < now) by {
        if after.epoch() < x.epoch() <= before.epoch() {
            assert(in_back_span(after, before, x));
        }
    }
}

/// The year of the first candidate of a backward search from `now`: the
/// reading a microsecond before it.
pub open spec fn last_year(now: WallTime) -> int {
    crate::datetime::reading_at(now.epoch() - 1).year as int
}

/// The first candidate of a backward search, the whole minute (or second,
/// with a seconds field) at or before the microsecond before `now`, leaves
/// nothing accepted between it and `now`.
#[verifier::spinoff_prover]
#[verifier::rlimit(60)]
proof fn lemma_quiet_start_back(e: Seq<Vec<Item>>, nth: Seq<Vec<Nth>>, nw: Seq<i64>, now: WallTime, raw: WallTime, t: WallTime)
    requires
        now.wf(),
        raw.wf(),
        t.wf(),
        raw.epoch() == now.epoch() - 1,
        e.len() > 5 ==> t == (WallTime { micro: 0, ..raw }),
        e.len() <= 5 ==> t == (WallTime { second: 0, micro: 0, ..raw }),
    ensures
        quiet(e, nth, nw, t.epoch(), now.epoch()),
{
    lemma_units(raw);
    lemma_units(t);
    if e.len() > 5 {
        assert(t.epoch() == abs_second(raw) * 1_000_000);
    } else {
        assert(t.epoch() == abs_minute(raw) * 60_000_000);
    }
    assert forall|x: WallTime| #[trigger] search_accepts(e, nth, nw, x) && x.wf()
        implies !(t.epoch() < x.epoch() < now.epoch()) by {
        lemma_units(x);
        if e.len() > 5 {
            assert(x.epoch() == abs_second(x) * 1_000_000);
        } else {
            assert(x.epoch() == abs_minute(x) * 60_000_000);
        }
    }
}

/// The window of years a search looks through: 50 unless given, and at
/// least 1.
pub open spec fn search_window(max_years: Option<i64>) -> i64 {
    match max_years {
        Some(v) => if v < 1 { 1 } else { v },
        None => 50,
    }
}

/// Context for a search made in a time zone: the starting instant and the
/// UTC offset (in seconds) in force at it.
#[derive(Clone, Copy, Debug)]
pub struct AwareCtx {
    pub now_utc: i64,
    pub now_offset: i64,
}

/// The parsed expression plus the options that steer the search.
#[derive(Clone, Debug)]
pub struct Croniter {
    pub expanded: Vec<Vec<Item>>,
    pub nth_weekday_of_month: Vec<Vec<Nth>>,
    pub expressions: Vec<String>,
    pub nearest_weekday: Vec<i64>,
    pub day_or: bool,
    pub implement_cron_bug: bool,
    pub max_years_between_matches: i64,
    pub max_years_explicitly_set: bool,
    pub is_prev: bool,
}

impl Croniter {
    /// The expression is well formed and the search window is at least a
    /// year.
    pub open spec fn wf(&self) -> bool {
        &&& expanded_wf(self.expanded@)
        &&& nth_wf(self.nth_weekday_of_month@)
        &&& nearest_wf(self.nearest_weekday@)
        &&& self.expressions@.len() == self.expanded@.len()
        &&& self.max_years_between_matches >= 1
    }

    /// A search over an expanded expression. The window of years searched
    /// defaults to 50 and is at least 1.
    pub fn from_expanded(e: Expanded, day_or: bool, implement_cron_bug: bool,
        max_years_between_matches: Option<i64>, is_prev: bool) -> (r: Croniter)
        ensures
            r.expanded == e.expanded,
            r.nth_weekday_of_month == e.nth_weekday_of_month,
            r.expressions == e.expressions,
            r.nearest_weekday == e.nearest_weekday,
            r.day_or == day_or,
            r.implement_cron_bug == implement_cron_bug,
            r.max_years_between_matches == search_window(max_years_between_matches),
            r.max_years_explicitly_set == (max_years_between_matches is Some),
            r.is_prev == is_prev,
            e.wf() ==> r.wf(),
    {
        let max_years_explicitly_set = max_years_between_matches.is_some();
        let years = match max_years_between_matches {
            Some(v) => if v < 1 { 1 } else { v },
            None => 50,
        };
        Croniter {
            expanded: e.expanded,
            nth_weekday_of_month: e.nth_weekday_of_month,
            expressions: e.expressions,
            nearest_weekday: e.nearest_weekday,
            day_or,
            implement_cron_bug,
            max_years_between_matches: years,
            max_years_explicitly_set,
            is_prev,
        }
    }

    /// Number of fields in the expression (5, 6 or 7).
    pub fn len(&self) -> (r: usize)
        ensures
            r == self.expanded@.len(),
    {
        self.expanded.len()
    }

    /// Always false for a parsed expression, which has at least five fields.
    pub fn is_empty(&self) -> (r: bool)
        ensures
            r == (self.expanded@.len() == 0),
    {
        self.expanded.len() == 0
    }

    /// The wall-clock search: the first reading after (or before)
    /// `now` that every field accepts, looking at most
    /// `max_years_between_matches` years away. `BadDate` when there is none
    /// in that window, when the year field is exhausted, or when the search
    /// leaves the representable range.
    #[verifier::spinoff_prover]
    #[verifier::rlimit(60)]
    pub fn search(&self, now: WallTime, expanded: &Vec<Vec<Item>>, nth: &Vec<Vec<Nth>>, is_prev: bool) -> (r: Result<WallTime, CroniterError>)
        requires
            now.wf(),
            expanded_wf(expanded@),
            nth_wf(nth@),
            nearest_wf(self.nearest_weekday@),
            self.max_years_between_matches >= 1,
        ensures
            r matches Ok(w) ==> w.wf() && moved(now, w, is_prev)
                && search_accepts(expanded@, nth@, self.nearest_weekday@, w),
            r matches Err(e) ==> e is BadDate && e@ == bad_date_view(is_prev),
            (!is_prev && r is Ok) ==> quiet(expanded@, nth@, self.nearest_weekday@, now.epoch(), r->Ok_0.epoch())
                && r->Ok_0.year <= first_year(now, expanded@.len() > 5) + self.max_years_between_matches,
            (!is_prev && r is Err) ==> forall|x: WallTime| #[trigger] search_accepts(expanded@, nth@, self.nearest_weekday@, x)
                && x.wf() && now.epoch() < x.epoch()
                ==> x.year > first_year(now, expanded@.len() > 5) + self.max_years_between_matches,
            (is_prev && r is Ok) ==> quiet(expanded@, nth@, self.nearest_weekday@, r->Ok_0.epoch(), now.epoch())
                && r->Ok_0.year >= last_year(now) - self.max_years_between_matches,
            (is_prev && r is Err) ==> forall|x: WallTime| #[trigger] search_accepts(expanded@, nth@, self.nearest_weekday@, x)
                && x.wf() && x.epoch() < now.epoch()
                ==> x.year < last_year(now) - self.max_years_between_matches,
    {
        let has_seconds = expanded.len() > 5;
        let offset = if is_prev {
            RelDelta::new().microseconds(-1)
        } else if has_seconds {
            RelDelta::new().seconds(1)
        } else {
            RelDelta::new().minutes(1)
        };
        let mut t = match crate::reldelta::add(now, &offset) {
            Some(t) => t,
            None => {
                proof {
                    if !is_prev {
                        crate::reldelta::lemma_add_forward_fails(now, offset);
                        lemma_quiet_end(expanded@, nth@, self.nearest_weekday@, now);
                    } else {
                        crate::reldelta::lemma_add_backward_fails(now, offset);
                        assert forall|x: WallTime| #[trigger] search_accepts(expanded@, nth@, self.nearest_weekday@, x)
                            && x.wf() && x.epoch() < now.epoch() implies false by {
                            crate::datetime::lemma_epoch_bounds(x);
                        }
                    }
                }
                return Err(bad_date(is_prev));
            },
        };
        proof {
            crate::reldelta::lemma_add_same_date(now, offset);
        }
        let ghost raw = t;
        proof {
            crate::datetime::lemma_reading_at(raw);
        }
        t = if has_seconds {
            WallTime { micro: 0, ..t }
        } else {
            WallTime { second: 0, micro: 0, ..t }
        };
        proof {
            if !is_prev {
                lemma_quiet_start(expanded@, nth@, self.nearest_weekday@, now, raw, t);
            } else {
                lemma_quiet_start_back(expanded@, nth@, self.nearest_weekday@, now, raw, t);
            }
        }
        assert(moved(now, t, is_prev));
        let mut month = t.month;
        let mut year = t.year;
        let current_year = year;
        let max_years = self.max_years_between_matches;
        let use_nearest = self.nearest_weekday.len() > 0;
        let mut use_nth = false;
        let mut w: usize = 0;
        while w < 7
            invariant
                w <= 7,
                nth@.len() == 7,
                use_nth == exists|v: int| 0 <= v < w && #[trigger] nth@[v]@.len() > 0,
            decreases 7 - w,
        {
            if nth[w].len() > 0 {
                use_nth = true;
            }
            w = w + 1;
        }
        assert(use_nth == nth_in_use(nth@));
        let ghost hi: int = days_before_year(current_year + max_years + 1) * 86_400_000_000;
        let ghost lo: int = days_before_year(current_year - max_years) * 86_400_000_000;
        loop
            invariant
                now.wf(),
                expanded_wf(expanded@),
                nth_wf(nth@),
                nearest_wf(self.nearest_weekday@),
                has_seconds == (expanded@.len() > 5),
                use_nearest == (self.nearest_weekday@.len() > 0),
                use_nth == nth_in_use(nth@),
                max_years == self.max_years_between_matches,
                max_years >= 1,
                MIN_YEAR <= current_year <= MAX_YEAR,
                hi == days_before_year(current_year + max_years + 1) * 86_400_000_000,
                lo == days_before_year(current_year - max_years) * 86_400_000_000,
                t.wf(),
                t.micro == 0,
                !is_prev && !has_seconds ==> t.second == 0,
                year == t.year,
                month == t.month,
                moved(now, t, is_prev),
                !is_prev ==> quiet(expanded@, nth@, self.nearest_weekday@, now.epoch(), t.epoch()),
                !is_prev ==> current_year == first_year(now, has_seconds),
                !is_prev ==> t.year >= current_year,
                is_prev ==> quiet(expanded@, nth@, self.nearest_weekday@, t.epoch(), now.epoch()),
                is_prev ==> current_year == last_year(now),
                is_prev ==> t.year <= current_year,
            ensures
                !is_prev ==> forall|x: WallTime| #[trigger] search_accepts(expanded@, nth@, self.nearest_weekday@, x)
                    && x.wf() && now.epoch() < x.epoch() ==> x.year > current_year + max_years,
                is_prev ==> forall|x: WallTime| #[trigger] search_accepts(expanded@, nth@, self.nearest_weekday@, x)
                    && x.wf() && x.epoch() < now.epoch() ==> x.year < current_year - max_years,
            decreases
                if is_prev {
                    if t.epoch() >= lo { t.epoch() - lo + 1 } else { 0 }
                } else {
                    if t.epoch() < hi { hi - t.epoch() } else { 0 }
                },
        {
            if !(year - current_year <= max_years && current_year - year <= max_years) {
                proof {
                    if !is_prev {
                        assert forall|x: WallTime| #[trigger] search_accepts(expanded@, nth@, self.nearest_weekday@, x)
                            && x.wf() && now.epoch() < x.epoch() implies x.year > current_year + max_years by {
                            assert(!(now.epoch() < x.epoch() < t.epoch()));
                            crate::skip::lemma_not_earlier_date(t, x);
                        }
                    } else {
                        assert forall|x: WallTime| #[trigger] search_accepts(expanded@, nth@, self.nearest_weekday@, x)
                            && x.wf() && x.epoch() < now.epoch() implies x.year < current_year - max_years by {
                            assert(!(t.epoch() < x.epoch() < now.epoch()));
                            crate::skip::lemma_not_earlier_date(x, t);
                        }
                    }
                }
                break;
            }
            proof {
                lemma_end_of_year(t.year as int, t.month as int, t.day as int);
                lemma_epoch_in_day(t);
                if is_prev {
                    lemma_years_ordered(current_year - max_years, t.year as int);
                } else {
                    lemma_years_ordered(t.year + 1, current_year + max_years + 1);
                }
            }
            let ghost start = t;
            let ghost measure = if is_prev { t.epoch() - lo + 1 } else { hi - t.epoch() };
            assert(measure > 0);
            let r = match proc_year(&mut t, expanded, is_prev) {
                Ok(r) => r,
                Err(e) => {
                    proof {
                        if !is_prev {
                            assert forall|x: WallTime| #[trigger] search_accepts(expanded@, nth@, self.nearest_weekday@, x)
                                && x.wf() && now.epoch() < x.epoch() implies false by {
                                assert(!(now.epoch() < x.epoch() < start.epoch()));
                                assert(from_on(start, x));
                            }
                        } else {
                            assert forall|x: WallTime| #[trigger] search_accepts(expanded@, nth@, self.nearest_weekday@, x)
                                && x.wf() && x.epoch() < now.epoch() implies false by {
                                assert(!(start.epoch() < x.epoch() < now.epoch()));
                                assert(up_to(start, x));
                            }
                        }
                    }
                    return Err(e);
                },
            };
            match r {
                Proc::Stop => {
                    proof {
                        if !is_prev {
                            assert forall|x: WallTime| #[trigger] search_accepts(expanded@, nth@, self.nearest_weekday@, x)
                                && x.wf() && now.epoch() < x.epoch() implies false by {
                                assert(!(now.epoch() < x.epoch() < start.epoch()));
                                crate::skip::lemma_not_earlier_date(start, x);
                                assert(field_accepts(expanded@[YEAR_FIELD as int]@, x.year as int));
                                let i = choose|i: int| 0 <= i < expanded@[YEAR_FIELD as int]@.len()
                                    && expanded@[YEAR_FIELD as int]@[i] == Item::Num(x.year);
                                assert(expanded@[YEAR_FIELD as int]@[i] matches Item::Num(v) ==> v < start.year);
                            }
                        } else {
                            assert forall|x: WallTime| #[trigger] search_accepts(expanded@, nth@, self.nearest_weekday@, x)
                                && x.wf() && x.epoch() < now.epoch() implies false by {
                                assert(!(start.epoch() < x.epoch() < now.epoch()));
                                crate::skip::lemma_not_earlier_date(x, start);
                                assert(field_accepts(expanded@[YEAR_FIELD as int]@, x.year as int));
                                let i = choose|i: int| 0 <= i < expanded@[YEAR_FIELD as int]@.len()
                                    && expanded@[YEAR_FIELD as int]@[i] == Item::Num(x.year);
                                assert(expanded@[YEAR_FIELD as int]@[i] matches Item::Num(v) ==> v > start.year);
                            }
                        }
                    }
                    break;
                },
                Proc::Changed => {
                    proof {
                    if !is_prev {
                        assert forall|x: WallTime| #[trigger] in_span(start, t, x)
                            implies !search_accepts(expanded@, nth@, self.nearest_weekday@, x) by {
                            assert(!year_accepts(expanded@, x.year as int));
                        }
                        lemma_quiet_step(expanded@, nth@, self.nearest_weekday@, now.epoch(), start, t);
                        crate::skip::lemma_not_earlier_date(start, t);
                    } else {
                        assert forall|x: WallTime| #[trigger] in_back_span(t, start, x)
                            implies !search_accepts(expanded@, nth@, self.nearest_weekday@, x) by {
                            assert(!year_accepts(expanded@, x.year as int));
                        }
                        lemma_quiet_step_back(expanded@, nth@, self.nearest_weekday@, now.epoch(), start, t);
                        crate::skip::lemma_not_earlier_date(t, start);
                    }
                }
                    month = t.month;
                    year = t.year;
                    continue;
                },
                Proc::Unchanged => {},
            }
            assert(strictly_sorted(expanded@[MONTH_FIELD as int]@));
            let r = match proc_month(&mut t, &expanded[MONTH_FIELD], is_prev) {
                Ok(r) => r,
                Err(e) => {
                    proof {
                        if !is_prev {
                            assert forall|x: WallTime| #[trigger] search_accepts(expanded@, nth@, self.nearest_weekday@, x)
                                && x.wf() && now.epoch() < x.epoch() implies false by {
                                assert(!(now.epoch() < x.epoch() < start.epoch()));
                                assert(from_on(start, x));
                            }
                        } else {
                            assert forall|x: WallTime| #[trigger] search_accepts(expanded@, nth@, self.nearest_weekday@, x)
                                && x.wf() && x.epoch() < now.epoch() implies false by {
                                assert(!(start.epoch() < x.epoch() < now.epoch()));
                                assert(up_to(start, x));
                            }
                        }
                    }
                    return Err(e);
                },
            };
            if let Proc::Changed = r {
                proof {
                    if !is_prev {
                        assert forall|x: WallTime| #[trigger] in_span(start, t, x)
                            implies !search_accepts(expanded@, nth@, self.nearest_weekday@, x) by {
                            assert(!field_accepts(expanded@[MONTH_FIELD as int]@, x.month as int));
                        }
                        lemma_quiet_step(expanded@, nth@, self.nearest_weekday@, now.epoch(), start, t);
                        crate::skip::lemma_not_earlier_date(start, t);
                    } else {
                        assert forall|x: WallTime| #[trigger] in_back_span(t, start, x)
                            implies !search_accepts(expanded@, nth@, self.nearest_weekday@, x) by {
                            assert(!field_accepts(expanded@[MONTH_FIELD as int]@, x.month as int));
                        }
                        lemma_quiet_step_back(expanded@, nth@, self.nearest_weekday@, now.epoch(), start, t);
                        crate::skip::lemma_not_earlier_date(t, start);
                    }
                }
                month = t.month;
                year = t.year;
                continue;
            }
            let r = if use_nearest {
                match proc_nearest_weekday(&mut t, &self.nearest_weekday, year, month, is_prev) {
                Ok(r) => r,
                Err(e) => {
                    proof {
                        if !is_prev {
                            assert forall|x: WallTime| #[trigger] search_accepts(expanded@, nth@, self.nearest_weekday@, x)
                                && x.wf() && now.epoch() < x.epoch() implies false by {
                                assert(!(now.epoch() < x.epoch() < start.epoch()));
                                assert(from_on(start, x));
                            }
                        } else {
                            assert forall|x: WallTime| #[trigger] search_accepts(expanded@, nth@, self.nearest_weekday@, x)
                                && x.wf() && x.epoch() < now.epoch() implies false by {
                                assert(!(start.epoch() < x.epoch() < now.epoch()));
                                assert(up_to(start, x));
                            }
                        }
                    }
                    return Err(e);
                },
            }
            } else {
                assert(strictly_sorted(expanded@[DAY_FIELD as int]@));
                match proc_day_of_month(&mut t, &expanded[DAY_FIELD], year, month, is_prev) {
                Ok(r) => r,
                Err(e) => {
                    proof {
                        if !is_prev {
                            assert forall|x: WallTime| #[trigger] search_accepts(expanded@, nth@, self.nearest_weekday@, x)
                                && x.wf() && now.epoch() < x.epoch() implies false by {
                                assert(!(now.epoch() < x.epoch() < start.epoch()));
                                assert(from_on(start, x));
                            }
                        } else {
                            assert forall|x: WallTime| #[trigger] search_accepts(expanded@, nth@, self.nearest_weekday@, x)
                                && x.wf() && x.epoch() < now.epoch() implies false by {
                                assert(!(start.epoch() < x.epoch() < now.epoch()));
                                assert(up_to(start, x));
                            }
                        }
                    }
                    return Err(e);
                },
            }
            };
            if let Proc::Changed = r {
                proof {
                    if !is_prev {
                        assert forall|x: WallTime| #[trigger] in_span(start, t, x)
                            implies !search_accepts(expanded@, nth@, self.nearest_weekday@, x) by {
                            if use_nearest {
                                assert(!nearest_accepts(self.nearest_weekday@, x.year as int, x.month as int, x.day as int));
                            } else {
                                assert(!day_accepts(expanded@[DAY_FIELD as int]@, x.year as int, x.month as int, x.day as int));
                            }
                        }
                        lemma_quiet_step(expanded@, nth@, self.nearest_weekday@, now.epoch(), start, t);
                        crate::skip::lemma_not_earlier_date(start, t);
                    } else {
                        assert forall|x: WallTime| #[trigger] in_back_span(t, start, x)
                            implies !search_accepts(expanded@, nth@, self.nearest_weekday@, x) by {
                            if use_nearest {
                                assert(!nearest_accepts(self.nearest_weekday@, x.year as int, x.month as int, x.day as int));
                            } else {
                                assert(!day_accepts(expanded@[DAY_FIELD as int]@, x.year as int, x.month as int, x.day as int));
                            }
                        }
                        lemma_quiet_step_back(expanded@, nth@, self.nearest_weekday@, now.epoch(), start, t);
                        crate::skip::lemma_not_earlier_date(t, start);
                    }
                }
                month = t.month;
                year = t.year;
                continue;
            }
            let r = if use_nth {
                match proc_day_of_week_nth(&mut t, nth, year, month, is_prev) {
                Ok(r) => r,
                Err(e) => {
                    proof {
                        if !is_prev {
                            assert forall|x: WallTime| #[trigger] search_accepts(expanded@, nth@, self.nearest_weekday@, x)
                                && x.wf() && now.epoch() < x.epoch() implies false by {
                                assert(!(now.epoch() < x.epoch() < start.epoch()));
                                assert(from_on(start, x));
                            }
                        } else {
                            assert forall|x: WallTime| #[trigger] search_accepts(expanded@, nth@, self.nearest_weekday@, x)
                                && x.wf() && x.epoch() < now.epoch() implies false by {
                                assert(!(start.epoch() < x.epoch() < now.epoch()));
                                assert(up_to(start, x));
                            }
                        }
                    }
                    return Err(e);
                },
            }
            } else {
                assert(strictly_sorted(expanded@[DOW_FIELD as int]@));
                match proc_day_of_week(&mut t, &expanded[DOW_FIELD], is_prev) {
                Ok(r) => r,
                Err(e) => {
                    proof {
                        if !is_prev {
                            assert forall|x: WallTime| #[trigger] search_accepts(expanded@, nth@, self.nearest_weekday@, x)
                                && x.wf() && now.epoch() < x.epoch() implies false by {
                                assert(!(now.epoch() < x.epoch() < start.epoch()));
                                assert(from_on(start, x));
                            }
                        } else {
                            assert forall|x: WallTime| #[trigger] search_accepts(expanded@, nth@, self.nearest_weekday@, x)
                                && x.wf() && x.epoch() < now.epoch() implies false by {
                                assert(!(start.epoch() < x.epoch() < now.epoch()));
                                assert(up_to(start, x));
                            }
                        }
                    }
                    return Err(e);
                },
            }
            };
            if let Proc::Changed = r {
                proof {
                    if !is_prev {
                        assert forall|x: WallTime| #[trigger] in_span(start, t, x)
                            implies !search_accepts(expanded@, nth@, self.nearest_weekday@, x) by {
                            if use_nth {
                                assert(!nth_accepts(nth@, x.year as int, x.month as int, x.day as int));
                            } else {
                                assert(!field_accepts(expanded@[DOW_FIELD as int]@, x.weekday()));
                            }
                        }
                        lemma_quiet_step(expanded@, nth@, self.nearest_weekday@, now.epoch(), start, t);
                        crate::skip::lemma_not_earlier_date(start, t);
                    } else {
                        assert forall|x: WallTime| #[trigger] in_back_span(t, start, x)
                            implies !search_accepts(expanded@, nth@, self.nearest_weekday@, x) by {
                            if use_nth {
                                assert(!nth_accepts(nth@, x.year as int, x.month as int, x.day as int));
                            } else {
                                assert(!field_accepts(expanded@[DOW_FIELD as int]@, x.weekday()));
                            }
                        }
                        lemma_quiet_step_back(expanded@, nth@, self.nearest_weekday@, now.epoch(), start, t);
                        crate::skip::lemma_not_earlier_date(t, start);
                    }
                }
                month = t.month;
                year = t.year;
                continue;
            }
            assert(strictly_sorted(expanded@[HOUR_FIELD as int]@));
            let r = match proc_hour(&mut t, &expanded[HOUR_FIELD], is_prev) {
                Ok(r) => r,
                Err(e) => {
                    proof {
                        if !is_prev {
                            assert forall|x: WallTime| #[trigger] search_accepts(expanded@, nth@, self.nearest_weekday@, x)
                                && x.wf() && now.epoch() < x.epoch() implies false by {
                                assert(!(now.epoch() < x.epoch() < start.epoch()));
                                assert(from_on(start, x));
                            }
                        } else {
                            assert forall|x: WallTime| #[trigger] search_accepts(expanded@, nth@, self.nearest_weekday@, x)
                                && x.wf() && x.epoch() < now.epoch() implies false by {
                                assert(!(start.epoch() < x.epoch() < now.epoch()));
                                assert(up_to(start, x));
                            }
                        }
                    }
                    return Err(e);
                },
            };
            if let Proc::Changed = r {
                proof {
                    if !is_prev {
                        assert forall|x: WallTime| #[trigger] in_span(start, t, x)
                            implies !search_accepts(expanded@, nth@, self.nearest_weekday@, x) by {
                            assert(!field_accepts(expanded@[HOUR_FIELD as int]@, x.hour as int));
                        }
                        lemma_quiet_step(expanded@, nth@, self.nearest_weekday@, now.epoch(), start, t);
                        crate::skip::lemma_not_earlier_date(start, t);
                    } else {
                        assert forall|x: WallTime| #[trigger] in_back_span(t, start, x)
                            implies !search_accepts(expanded@, nth@, self.nearest_weekday@, x) by {
                            assert(!field_accepts(expanded@[HOUR_FIELD as int]@, x.hour as int));
                        }
                        lemma_quiet_step_back(expanded@, nth@, self.nearest_weekday@, now.epoch(), start, t);
                        crate::skip::lemma_not_earlier_date(t, start);
                    }
                }
                month = t.month;
                year = t.year;
                continue;
            }
            assert(strictly_sorted(expanded@[MINUTE_FIELD as int]@));
            let r = match proc_minute(&mut t, &expanded[MINUTE_FIELD], is_prev) {
                Ok(r) => r,
                Err(e) => {
                    proof {
                        if !is_prev {
                            assert forall|x: WallTime| #[trigger] search_accepts(expanded@, nth@, self.nearest_weekday@, x)
                                && x.wf() && now.epoch() < x.epoch() implies false by {
                                assert(!(now.epoch() < x.epoch() < start.epoch()));
                                assert(from_on(start, x));
                            }
                        } else {
                            assert forall|x: WallTime| #[trigger] search_accepts(expanded@, nth@, self.nearest_weekday@, x)
                                && x.wf() && x.epoch() < now.epoch() implies false by {
                                assert(!(start.epoch() < x.epoch() < now.epoch()));
                                assert(up_to(start, x));
                            }
                        }
                    }
                    return Err(e);
                },
            };
            if let Proc::Changed = r {
                proof {
                    if !is_prev {
                        assert forall|x: WallTime| #[trigger] in_span(start, t, x)
                            implies !search_accepts(expanded@, nth@, self.nearest_weekday@, x) by {
                            assert(!field_accepts(expanded@[MINUTE_FIELD as int]@, x.minute as int));
                        }
                        lemma_quiet_step(expanded@, nth@, self.nearest_weekday@, now.epoch(), start, t);
                        crate::skip::lemma_not_earlier_date(start, t);
                    } else {
                        assert forall|x: WallTime| #[trigger] in_back_span(t, start, x)
                            implies !search_accepts(expanded@, nth@, self.nearest_weekday@, x) by {
                            assert(!field_accepts(expanded@[MINUTE_FIELD as int]@, x.minute as int));
                        }
                        lemma_quiet_step_back(expanded@, nth@, self.nearest_weekday@, now.epoch(), start, t);
                        crate::skip::lemma_not_earlier_date(t, start);
                    }
                }
                month = t.month;
                year = t.year;
                continue;
            }
            let empty: Vec<Item> = Vec::new();
            let seconds = if has_seconds { &expanded[SECOND_FIELD] } else { &empty };
            assert(has_seconds ==> strictly_sorted(expanded@[SECOND_FIELD as int]@));
            let r = match proc_second(&mut t, seconds, has_seconds, is_prev) {
                Ok(r) => r,
                Err(e) => {
                    proof {
                        if !is_prev {
                            assert forall|x: WallTime| #[trigger] search_accepts(expanded@, nth@, self.nearest_weekday@, x)
                                && x.wf() && now.epoch() < x.epoch() implies false by {
                                assert(!(now.epoch() < x.epoch() < start.epoch()));
                                assert(from_on(start, x));
                            }
                        } else {
                            assert forall|x: WallTime| #[trigger] search_accepts(expanded@, nth@, self.nearest_weekday@, x)
                                && x.wf() && x.epoch() < now.epoch() implies false by {
                                assert(!(start.epoch() < x.epoch() < now.epoch()));
                                assert(up_to(start, x));
                            }
                        }
                    }
                    return Err(e);
                },
            };
            if let Proc::Changed = r {
                proof {
                    if !is_prev {
                        assert forall|x: WallTime| #[trigger] in_span(start, t, x)
                            implies !search_accepts(expanded@, nth@, self.nearest_weekday@, x) by {
                            assert(!field_accepts(expanded@[SECOND_FIELD as int]@, x.second as int));
                        }
                        lemma_quiet_step(expanded@, nth@, self.nearest_weekday@, now.epoch(), start, t);
                        crate::skip::lemma_not_earlier_date(start, t);
                    } else {
                        assert forall|x: WallTime| #[trigger] in_back_span(t, start, x)
                            implies !search_accepts(expanded@, nth@, self.nearest_weekday@, x) by {
                            assert(!field_accepts(expanded@[SECOND_FIELD as int]@, x.second as int));
                        }
                        lemma_quiet_step_back(expanded@, nth@, self.nearest_weekday@, now.epoch(), start, t);
                        crate::skip::lemma_not_earlier_date(t, start);
                    }
                }
                month = t.month;
                year = t.year;
                continue;
            }
            assert(t == (WallTime { second: t.second, ..start }));
            return Ok(t);
        }
        Err(bad_date(is_prev))
    }
}

/// What a call of `calc` with expanded fields `e` from `now` gives: `r`.
pub open spec fn calc_post<C: WallClock>(c: Croniter, clock: &C, e: Seq<Vec<Item>>, nth: Seq<Vec<Nth>>, now: WallTime,
    is_prev: bool, aware: Option<AwareCtx>, r: Result<(WallTime, i64), CroniterError>) -> bool {
    &&& aware is None ==> (r matches Ok((w, ts)) ==> w.wf() && ts == w.epoch() && moved(now, w, is_prev)
            && search_accepts(e, nth, c.nearest_weekday@, w))
    &&& aware is None ==> (r matches Err(err) ==> err is BadDate && err@ == bad_date_view(is_prev))
    &&& r matches Ok((w, ts)) ==> w.wf()
    &&& (aware is None && !is_prev && r is Ok) ==> quiet(e, nth, c.nearest_weekday@, now.epoch(),
            r->Ok_0.0.epoch()) && r->Ok_0.0.year <= first_year(now, e.len() > 5) + c.max_years_between_matches
    &&& (aware is None && !is_prev && r is Err) ==> forall|x: WallTime| #[trigger] search_accepts(e, nth,
            c.nearest_weekday@, x) && x.wf() && now.epoch() < x.epoch()
            ==> x.year > first_year(now, e.len() > 5) + c.max_years_between_matches
    &&& (aware is None && is_prev && r is Ok) ==> quiet(e, nth, c.nearest_weekday@, r->Ok_0.0.epoch(),
            now.epoch()) && r->Ok_0.0.year >= last_year(now) - c.max_years_between_matches
    &&& (aware is None && is_prev && r is Err) ==> forall|x: WallTime| #[trigger] search_accepts(e, nth,
            c.nearest_weekday@, x) && x.wf() && x.epoch() < now.epoch()
            ==> x.year < last_year(now) - c.max_years_between_matches
    &&& aware matches Some(ctx) ==> (r matches Ok((w, ts)) ==> pinned(clock, e, nth, c.nearest_weekday@,
            ctx.now_utc, is_prev, w, ts))
    &&& aware matches Some(ctx) ==> (r matches Ok((w, ts)) ==> (exists|x: WallTime| #[trigger] found(e, nth,
            c.nearest_weekday@, now, is_prev, c.max_years_between_matches as int, x))
            && exists|first: Resolved| #[trigger] landed(clock, e, nth, c.nearest_weekday@,
            ctx.now_utc, is_prev, first)
            && (first.offset == ctx.now_offset ==> w == first.wall && ts == first.utc)
            && (first.offset != ctx.now_offset ==> exists|alt: Resolved| #[trigger] pins(clock, e, nth,
                c.nearest_weekday@, ctx.now_utc, is_prev, alt) && (w, ts) == spec_pick(first, alt, ctx.now_utc, is_prev)))
    &&& aware is Some ==> (r matches Err(err) ==> err@ == bad_date_view(is_prev) || err@ == ErrorView::Value("timestamp out of range"@)
            || exists|x: WallTime| x.wf() && search_accepts(e, nth, c.nearest_weekday@, x)
                && !#[trigger] clock.resolvable(x))
    &&& aware matches Some(ctx) ==> forall|x: WallTime| #[trigger] found(e, nth, c.nearest_weekday@, now, is_prev,
            c.max_years_between_matches as int, x) ==> (!clock.resolvable(x) ==> r is Err)
            && ((clock.resolvable(x) && forall|v: Resolved| #[trigger] clock.resolves(x, ctx.now_utc, is_prev, v)
                ==> v.offset == ctx.now_offset && (v.exists || (spec_is_successor(v.utc as int, ctx.now_utc as int, is_prev)
                    && !e[HOUR_FIELD as int]@.contains(Item::Star))))
                ==> exists|v: Resolved| #[trigger] clock.resolves(x, ctx.now_utc, is_prev, v)
                    && r == Ok::<(WallTime, i64), CroniterError>((v.wall, v.utc)))
}

/// `s` is `e` with field `f` read as `*`.
pub open spec fn starred(e: Seq<Vec<Item>>, f: int, s: Seq<Vec<Item>>) -> bool {
    &&& s.len() == e.len()
    &&& s[f]@ == seq![Item::Star]
    &&& forall|g: int| 0 <= g < e.len() && g != f ==> #[trigger] s[g]@ == e[g]@
}

/// One side of a day-field union ends the search with its own result: an
/// error other than `BadDate`, or any error when `strict` (`W` or `#` in use).
pub open spec fn side_stops(r: Result<(WallTime, i64), CroniterError>, strict: bool) -> bool {
    r matches Err(err) && (!(err is BadDate) || strict)
}

/// How the results of the two sides of a day-field union combine into `r`:
/// the nearer in the direction of travel (the first on a tie), the one that
/// found something, or `BadDate` when neither did.
pub open spec fn union_of(r1: Result<(WallTime, i64), CroniterError>, r2: Result<(WallTime, i64), CroniterError>,
    is_prev: bool, r: Result<(WallTime, i64), CroniterError>) -> bool {
    match (r1, r2) {
        (Ok(a), Ok(b)) => r == Ok::<(WallTime, i64), CroniterError>(
            if spec_is_successor(a.1 as int, b.1 as int, is_prev) { b } else { a }),
        (Ok(a), Err(_)) => r == Ok::<(WallTime, i64), CroniterError>(a),
        (Err(_), Ok(b)) => r == Ok::<(WallTime, i64), CroniterError>(b),
        (Err(_), Err(_)) => r matches Err(err) && err is BadDate && err@ == bad_date_view(is_prev),
    }
}

/// What a call of `calc_next` on `c` from `current` gives: `r`.
pub open spec fn calc_next_post<C: WallClock>(c: Croniter, clock: &C, current: WallTime, is_prev: bool,
    aware: Option<AwareCtx>, r: Result<(WallTime, i64), CroniterError>) -> bool {
    &&& aware is None ==> (r matches Ok((w, ts)) ==> w.wf() && ts == w.epoch()
            && moved(current, w, is_prev) && c.fires(w))
    &&& aware is None ==> (r matches Err(e) ==> e is BadDate && e@ == bad_date_view(is_prev))
    &&& r matches Ok((w, ts)) ==> w.wf()
    &&& (aware is None && !is_prev && r is Ok) ==> none_fire_between(c, current.epoch(), r->Ok_0.0.epoch())
    &&& (aware is None && is_prev && r is Ok) ==> none_fire_between(c, r->Ok_0.0.epoch(), current.epoch())
    &&& (aware is None && r is Err && !c.split_strict()) ==> none_within_window(c, current, is_prev)
    &&& (aware is None && r is Err && c.split_strict()) ==> a_side_none_within_window(c, current, is_prev)
    &&& (aware is None && r is Ok) ==> year_in_window(c, current, r->Ok_0.0, is_prev)
    &&& aware matches Some(ctx) ==> (r matches Ok((w, ts)) ==> pinned_fire(clock, c, ctx.now_utc, is_prev, w, ts))
    &&& !c.union_applies() ==> calc_post(c, clock, c.expanded@, c.nth_weekday_of_month@, current, is_prev, aware, r)
    &&& c.union_applies() ==> exists|e1: Seq<Vec<Item>>, r1: Result<(WallTime, i64), CroniterError>|
            #[trigger] calc_post(c, clock, e1, c.nth_weekday_of_month@, current, is_prev, aware, r1)
            && starred(c.expanded@, DOW_FIELD as int, e1)
            && (side_stops(r1, c.split_strict()) ==> r == r1)
            && (!side_stops(r1, c.split_strict()) ==> exists|e2: Seq<Vec<Item>>, r2: Result<(WallTime, i64), CroniterError>|
                #[trigger] calc_post(c, clock, e2, c.nth_weekday_of_month@, current, is_prev, aware, r2)
                && starred(c.expanded@, DAY_FIELD as int, e2)
                && (side_stops(r2, c.split_strict()) ==> r == r2)
                && (!side_stops(r2, c.split_strict()) ==> union_of(r1, r2, is_prev, r)))
}

/// `x` is what the wall-clock search from `now` finds: the first accepted
/// reading in the direction of travel, within `max_years` of the start.
pub open spec fn found(e: Seq<Vec<Item>>, nth: Seq<Vec<Nth>>, nw: Seq<i64>, now: WallTime, is_prev: bool,
    max_years: int, x: WallTime) -> bool {
    &&& x.wf()
    &&& moved(now, x, is_prev)
    &&& search_accepts(e, nth, nw, x)
    &&& if is_prev {
        quiet(e, nth, nw, x.epoch(), now.epoch()) && x.year >= last_year(now) - max_years
    } else {
        quiet(e, nth, nw, now.epoch(), x.epoch()) && x.year <= first_year(now, e.len() > 5) + max_years
    }
}

/// The search finds at most one reading.
proof fn lemma_found_unique(e: Seq<Vec<Item>>, nth: Seq<Vec<Nth>>, nw: Seq<i64>, now: WallTime, is_prev: bool,
    max_years: int, x: WallTime, y: WallTime)
    requires
        found(e, nth, nw, now, is_prev, max_years, x),
        found(e, nth, nw, now, is_prev, max_years, y),
    ensures
        x == y,
{
    assert(x.epoch() == y.epoch()) by {
        if x.epoch() < y.epoch() {
            assert(search_accepts(e, nth, nw, x) && x.wf());
            assert(search_accepts(e, nth, nw, y) && y.wf());
        } else if y.epoch() < x.epoch() {
            assert(search_accepts(e, nth, nw, x) && x.wf());
            assert(search_accepts(e, nth, nw, y) && y.wf());
        }
    }
    crate::datetime::lemma_epoch_injective(x, y.year as int, y.month as int, y.day as int, y.hour as int,
        y.minute as int, y.second as int, y.micro as int);
}

impl Croniter {
    /// Search in wall-clock time, then (in a time zone) pin the
    /// result onto the timeline. Without a time zone the instant is the
    /// reading taken as UTC.
    pub fn calc<C: WallClock>(&self, now: WallTime, expanded: &Vec<Vec<Item>>, nth: &Vec<Vec<Nth>>, is_prev: bool, aware: Option<AwareCtx>, clock: &C) -> (r: Result<(WallTime, i64), CroniterError>)
        requires
            now.wf(),
            expanded_wf(expanded@),
            nth_wf(nth@),
            nearest_wf(self.nearest_weekday@),
            self.max_years_between_matches >= 1,
        ensures
            calc_post(*self, clock, expanded@, nth@, now, is_prev, aware, r),
    {
        let wall = match self.search(now, expanded, nth, is_prev) {
            Ok(w) => w,
            Err(err) => {
                proof {
                    assert forall|x: WallTime| #[trigger] found(expanded@, nth@, self.nearest_weekday@, now, is_prev,
                        self.max_years_between_matches as int, x) implies false by {
                        assert(search_accepts(expanded@, nth@, self.nearest_weekday@, x) && x.wf());
                    }
                }
                return Err(err);
            },
        };
        proof {
            assert(found(expanded@, nth@, self.nearest_weekday@, now, is_prev, self.max_years_between_matches as int, wall));
            assert forall|x: WallTime| #[trigger] found(expanded@, nth@, self.nearest_weekday@, now, is_prev,
                self.max_years_between_matches as int, x) implies x == wall by {
                lemma_found_unique(expanded@, nth@, self.nearest_weekday@, now, is_prev,
                    self.max_years_between_matches as int, x, wall);
            }
        }
        match aware {
            None => Ok((wall, wall.to_micros())),
            Some(ctx) => self.pin_to_timeline(now, wall, expanded, nth, is_prev, ctx, clock),
        }
    }

    /// The time-zone tail of `calc`. A reading skipped by a transition is
    /// only walked forward when that lands in the direction of travel (or
    /// the hour field is `*`); otherwise the search goes on to a reading that
    /// exists. If the result carries a different UTC offset than the start,
    /// the schedule is also searched at the other offset and the nearer
    /// candidate in the direction of travel wins.
    fn pin_to_timeline<C: WallClock>(&self, now: WallTime, wall: WallTime, expanded: &Vec<Vec<Item>>, nth: &Vec<Vec<Nth>>, is_prev: bool, ctx: AwareCtx, clock: &C) -> (r: Result<(WallTime, i64), CroniterError>)
        requires
            now.wf(),
            wall.wf(),
            search_accepts(expanded@, nth@, self.nearest_weekday@, wall),
            expanded_wf(expanded@),
            nth_wf(nth@),
            nearest_wf(self.nearest_weekday@),
            self.max_years_between_matches >= 1,
        ensures
            r matches Ok((w, ts)) ==> w.wf() && pinned(clock, expanded@, nth@, self.nearest_weekday@, ctx.now_utc, is_prev, w, ts),
            !clock.resolvable(wall) ==> r is Err,
            (clock.resolvable(wall) && forall|v: Resolved| #[trigger] clock.resolves(wall, ctx.now_utc, is_prev, v)
                ==> v.offset == ctx.now_offset && (v.exists || (spec_is_successor(v.utc as int, ctx.now_utc as int, is_prev)
                    && !expanded@[HOUR_FIELD as int]@.contains(Item::Star))))
                ==> exists|v: Resolved| #[trigger] clock.resolves(wall, ctx.now_utc, is_prev, v)
                    && r == Ok::<(WallTime, i64), CroniterError>((v.wall, v.utc)),
            r matches Ok((w, ts)) ==> exists|first: Resolved| #[trigger] landed(clock, expanded@, nth@, self.nearest_weekday@,
                ctx.now_utc, is_prev, first)
                && (first.offset == ctx.now_offset ==> w == first.wall && ts == first.utc)
                && (first.offset != ctx.now_offset ==> exists|alt: Resolved| #[trigger] pins(clock, expanded@, nth@,
                    self.nearest_weekday@, ctx.now_utc, is_prev, alt) && (w, ts) == spec_pick(first, alt, ctx.now_utc, is_prev)),
            r matches Err(err) ==> err@ == bad_date_view(is_prev) || err@ == ErrorView::Value("timestamp out of range"@)
                || exists|x: WallTime| x.wf() && search_accepts(expanded@, nth@, self.nearest_weekday@, x)
                    && !#[trigger] clock.resolvable(x),
    {
        let mut unaware = wall;
        let mut r = clock.resolve(unaware, ctx.now_utc, is_prev)?;
        let ghost r0 = r;
        let ghost direct = r.exists || (spec_is_successor(r.utc as int, ctx.now_utc as int, is_prev)
            && !expanded@[HOUR_FIELD as int]@.contains(Item::Star));
        if !r.exists && (!is_successor(r.utc, ctx.now_utc, is_prev)
            || contains_item(&expanded[HOUR_FIELD], Item::Star)) {
            while !r.exists
                invariant
                    unaware.wf(),
                    r.wall.wf(),
                    search_accepts(expanded@, nth@, self.nearest_weekday@, unaware),
                    clock.resolves(unaware, ctx.now_utc, is_prev, r),
                    clock.resolves(wall, ctx.now_utc, is_prev, r0),
                    !(r0.exists || (spec_is_successor(r0.utc as int, ctx.now_utc as int, is_prev)
                        && !expanded@[HOUR_FIELD as int]@.contains(Item::Star))),
                    expanded_wf(expanded@),
                    nth_wf(nth@),
                    nearest_wf(self.nearest_weekday@),
                    self.max_years_between_matches >= 1,
                decreases
                    if is_prev { unaware.epoch() - crate::datetime::epoch_min() }
                    else { crate::datetime::epoch_max() - unaware.epoch() },
            {
                proof {
                    crate::datetime::lemma_epoch_bounds(unaware);
                }
                let next = self.search(unaware, expanded, nth, is_prev)?;
                proof {
                    crate::datetime::lemma_epoch_bounds(next);
                }
                unaware = next;
                r = clock.resolve(unaware, ctx.now_utc, is_prev)?;
            }
        }
        let offset_delta: i128 = r.offset as i128 - ctx.now_offset as i128;
        let ghost first = unaware;
        assert(pinned(clock, expanded@, nth@, self.nearest_weekday@, ctx.now_utc, is_prev, r.wall, r.utc)) by {
            assert(clock.resolves(first, ctx.now_utc, is_prev, r) && first.wf()
                && search_accepts(expanded@, nth@, self.nearest_weekday@, first));
        }
        proof {
            if direct {
                assert(r == r0);
            }
            if clock.resolvable(wall) && forall|v: Resolved| #[trigger] clock.resolves(wall, ctx.now_utc, is_prev, v)
                ==> v.offset == ctx.now_offset && (v.exists || (spec_is_successor(v.utc as int, ctx.now_utc as int, is_prev)
                    && !expanded@[HOUR_FIELD as int]@.contains(Item::Star))) {
                assert(clock.resolves(wall, ctx.now_utc, is_prev, r0));
                assert(direct);
                assert(offset_delta == 0);
            }
        }
        proof {
            assert(landed(clock, expanded@, nth@, self.nearest_weekday@, ctx.now_utc, is_prev, r));
        }
        if offset_delta == 0 {
            return Ok((r.wall, r.utc));
        }
        // There was a transition: search the schedule at the other offset too.
        if offset_delta > crate::reldelta::MAX_DELTA_SECONDS as i128
            || offset_delta < -(crate::reldelta::MAX_DELTA_SECONDS as i128) {
            return Err(CroniterError::Value(String::from_str("timestamp out of range")));
        }
        let shift = RelDelta::new().seconds(offset_delta as i64);
        let alt_start = match crate::reldelta::add(now, &shift) {
            Some(a) => a,
            None => { return Err(CroniterError::Value(String::from_str("timestamp out of range"))); },
        };
        proof {
            crate::reldelta::lemma_add_unfold(now, shift);
        }
        let alt_wall = self.search(alt_start, expanded, nth, is_prev)?;
        let alt = clock.resolve(alt_wall, ctx.now_utc, is_prev)?;
        assert(pinned(clock, expanded@, nth@, self.nearest_weekday@, ctx.now_utc, is_prev, alt.wall, alt.utc)) by {
            assert(clock.resolves(alt_wall, ctx.now_utc, is_prev, alt) && alt_wall.wf()
                && search_accepts(expanded@, nth@, self.nearest_weekday@, alt_wall));
        }
        proof {
            assert(pins(clock, expanded@, nth@, self.nearest_weekday@, ctx.now_utc, is_prev, alt));
            assert(landed(clock, expanded@, nth@, self.nearest_weekday@, ctx.now_utc, is_prev, r));
        }
        Ok(pick(r, alt, ctx.now_utc, is_prev))
    }
}

/// `v` is how `clock` pins some accepted reading onto the timeline, coming
/// from `now_utc` in the direction of travel.
pub open spec fn pins<C: WallClock>(clock: &C, e: Seq<Vec<Item>>, nth: Seq<Vec<Nth>>, nw: Seq<i64>, now_utc: i64,
    is_prev: bool, v: Resolved) -> bool {
    exists|x: WallTime| #[trigger] clock.resolves(x, now_utc, is_prev, v) && x.wf() && search_accepts(e, nth, nw, x)
}

/// `v` pins an accepted reading where the walk over skipped readings stops:
/// the reading exists, or it lies beyond `now_utc` in the direction of
/// travel and the hour field is not `*`.
pub open spec fn landed<C: WallClock>(clock: &C, e: Seq<Vec<Item>>, nth: Seq<Vec<Nth>>, nw: Seq<i64>, now_utc: i64,
    is_prev: bool, v: Resolved) -> bool {
    &&& pins(clock, e, nth, nw, now_utc, is_prev, v)
    &&& v.exists || (spec_is_successor(v.utc as int, now_utc as int, is_prev)
        && !e[HOUR_FIELD as int]@.contains(Item::Star))
}

/// Of two pinned candidates: `alt` when it lies beyond `now_utc` in the
/// direction of travel and `first` lies beyond it; otherwise `first`.
pub open spec fn spec_pick(first: Resolved, alt: Resolved, now_utc: i64, is_prev: bool) -> (WallTime, i64) {
    if spec_is_successor(alt.utc as int, now_utc as int, is_prev)
        && spec_is_successor(first.utc as int, alt.utc as int, is_prev) {
        (alt.wall, alt.utc)
    } else {
        (first.wall, first.utc)
    }
}

/// The nearer of the candidates found at the starting offset (`first`) and
/// at the other offset (`alt`), in the direction of travel from `now_utc`.
pub fn pick(first: Resolved, alt: Resolved, now_utc: i64, is_prev: bool) -> (r: (WallTime, i64))
    ensures
        r == spec_pick(first, alt, now_utc, is_prev),
{
    if !is_successor(alt.utc, now_utc, is_prev) {
        return (first.wall, first.utc);
    }
    if is_successor(first.utc, alt.utc, is_prev) {
        return (alt.wall, alt.utc);
    }
    (first.wall, first.utc)
}

/// `(w, ts)` is how `clock` pins an accepted reading onto the timeline,
/// coming from `now_utc` in the direction of travel.
pub open spec fn pinned<C: WallClock>(clock: &C, e: Seq<Vec<Item>>, nth: Seq<Vec<Nth>>, nw: Seq<i64>, now_utc: i64,
    is_prev: bool, w: WallTime, ts: i64) -> bool {
    exists|x: WallTime, v: Resolved| #[trigger] clock.resolves(x, now_utc, is_prev, v) && x.wf()
        && search_accepts(e, nth, nw, x) && w == v.wall && ts == v.utc
}

/// `(w, ts)` is how `clock` pins a fire time of `c` onto the timeline,
/// coming from `now_utc` in the direction of travel.
pub open spec fn pinned_fire<C: WallClock>(clock: &C, c: Croniter, now_utc: i64, is_prev: bool, w: WallTime, ts: i64) -> bool {
    exists|x: WallTime, v: Resolved| #[trigger] clock.resolves(x, now_utc, is_prev, v) && x.wf()
        && c.fires(x) && w == v.wall && ts == v.utc
}

/// The text of a field starts with `*`.
pub open spec fn starts_with_star(s: Seq<char>) -> bool {
    s.len() > 0 && s[0] == '*'
}

fn text_starts_with_star(s: &String) -> (r: bool)
    ensures
        r == starts_with_star(s@),
{
    let t = s.as_str();
    if t.unicode_len() == 0 {
        return false;
    }
    t.get_char(0) == '*'
}

impl Croniter {
    /// The vixie/ISC cron bug, when asked for: a raw day-of-month or
    /// day-of-week field starting with `*` makes the two intersect.
    pub open spec fn cron_bug(&self) -> bool {
        self.implement_cron_bug && (starts_with_star(self.expressions@[DAY_FIELD as int]@)
            || starts_with_star(self.expressions@[DOW_FIELD as int]@))
    }

    /// Day of month and day of week are both restricted and united (OR)
    /// rather than intersected.
    pub open spec fn union_applies(&self) -> bool {
        &&& self.expanded@[DAY_FIELD as int]@[0] != Item::Star
        &&& self.expanded@[DOW_FIELD as int]@[0] != Item::Star
        &&& self.day_or
        &&& !self.cron_bug()
    }

    /// The two day searches of a union may each fail on their own: `W` or
    /// `#`/`l` is in use alongside both day fields.
    pub open spec fn split_strict(&self) -> bool {
        self.union_applies() && (nth_in_use(self.nth_weekday_of_month@) || self.nearest_weekday@.len() > 0)
    }

    /// The expression fires at wall-clock reading `w`.
    pub open spec fn fires(&self, w: WallTime) -> bool {
        let e = self.expanded@;
        let nth = self.nth_weekday_of_month@;
        let nw = self.nearest_weekday@;
        if self.union_applies() {
            accepts_with(e, nth, nw, w, false, true) || accepts_with(e, nth, nw, w, true, false)
        } else {
            accepts_with(e, nth, nw, w, false, false)
        }
    }

    /// The next (or previous) fire time after `current`.
    ///
    /// When both day fields are restricted, cron semantics are OR: each side
    /// is searched with the other read as `*` and the nearer result wins. A
    /// side that finds nothing only drops out while neither `W` nor `#`/`l`
    /// is in use; otherwise its failure is the result.
    #[verifier::spinoff_prover]
    pub fn calc_next<C: WallClock>(&self, current: WallTime, is_prev: bool, aware: Option<AwareCtx>, clock: &C) -> (r: Result<(WallTime, i64), CroniterError>)
        requires
            self.wf(),
            current.wf(),
        ensures
            calc_next_post(*self, clock, current, is_prev, aware, r),
    {
        let e = &self.expanded;
        let nth = &self.nth_weekday_of_month;
        proof {
            assert(field_wf(e@[DAY_FIELD as int]@, DAY_FIELD as int));
            assert(field_wf(e@[DOW_FIELD as int]@, DOW_FIELD as int));
        }
        let day_restricted = !e[DAY_FIELD][0].is_star();
        let dow_restricted = !e[DOW_FIELD][0].is_star();
        if day_restricted && dow_restricted && self.day_or {
            let cron_bug = self.implement_cron_bug
                && (text_starts_with_star(&self.expressions[DAY_FIELD])
                    || text_starts_with_star(&self.expressions[DOW_FIELD]));
            if !cron_bug {
                let clean_split = !nth_used(nth) && self.nearest_weekday.len() == 0;
                let e1 = with_star(e, DOW_FIELD);
                proof {
                    lemma_with_star_wf(e@, e1@, DOW_FIELD as int);
                }
                let res1 = self.calc(current, &e1, nth, is_prev, aware, clock);
                let ghost g1 = res1;
                proof {
                    assert(calc_post(*self, clock, e1@, nth@, current, is_prev, aware, g1));
                    assert(starred(e@, DOW_FIELD as int, e1@));
                    assert(self.union_applies());
                    assert(clean_split == !self.split_strict());
                }
                let t1 = match res1 {
                    Ok(v) => Some(v),
                    Err(CroniterError::BadDate(m)) => {
                        proof {
                            if aware is None {
                                lemma_side_none(*self, e1@, DOW_FIELD as int, current, is_prev);
                            }
                        }
                        if !clean_split {
                            return Err(CroniterError::BadDate(m));
                        }
                        None
                    },
                    Err(err) => { return Err(err); },
                };
                let e2 = with_star(e, DAY_FIELD);
                proof {
                    lemma_with_star_wf(e@, e2@, DAY_FIELD as int);
                }
                let res2 = self.calc(current, &e2, nth, is_prev, aware, clock);
                let ghost g2 = res2;
                proof {
                    assert(calc_post(*self, clock, e2@, nth@, current, is_prev, aware, g2));
                    assert(starred(e@, DAY_FIELD as int, e2@));
                }
                let t2 = match res2 {
                    Ok(v) => Some(v),
                    Err(CroniterError::BadDate(m)) => {
                        proof {
                            if aware is None {
                                lemma_side_none(*self, e2@, DAY_FIELD as int, current, is_prev);
                            }
                        }
                        if !clean_split {
                            return Err(CroniterError::BadDate(m));
                        }
                        None
                    },
                    Err(err) => { return Err(err); },
                };
                proof {
                    if let Some((w, _)) = t1 {
                        if aware is None {
                            lemma_star_accepts(e@, e1@, nth@, self.nearest_weekday@, w, DOW_FIELD as int);
                        }
                    }
                    if let Some((w, _)) = t2 {
                        if aware is None {
                            lemma_star_accepts(e@, e2@, nth@, self.nearest_weekday@, w, DAY_FIELD as int);
                        }
                    }
                }
                let res = match (t1, t2) {
                    (None, None) => Err(bad_date(is_prev)),
                    (None, Some(t2)) => Ok(t2),
                    (Some(t1), None) => Ok(t1),
                    (Some(t1), Some(t2)) => {
                        if is_successor(t1.1, t2.1, is_prev) {
                            Ok(t2)
                        } else {
                            Ok(t1)
                        }
                    },
                };
                proof {
                    if aware is None && !is_prev && res is Ok {
                        let w = res->Ok_0.0;
                        lemma_union_quiet(*self, e1@, e2@, current, w, g1, g2);
                    }
                    if aware is None && is_prev && res is Ok {
                        let w = res->Ok_0.0;
                        lemma_union_quiet_back(*self, e1@, e2@, current, w, g1, g2);
                    }
                    if let Some(ctx) = aware {
                        if res is Ok {
                            let nw = self.nearest_weekday@;
                            let (w, ts) = res->Ok_0;
                            if g1 is Ok && g1->Ok_0 == (w, ts) {
                                let (x, v) = choose|x: WallTime, v: Resolved| #[trigger] clock.resolves(x, ctx.now_utc, is_prev, v)
                                    && x.wf() && search_accepts(e1@, nth@, nw, x) && w == v.wall && ts == v.utc;
                                lemma_star_accepts(e@, e1@, nth@, nw, x, DOW_FIELD as int);
                                assert(self.fires(x));
                            } else {
                                let (x, v) = choose|x: WallTime, v: Resolved| #[trigger] clock.resolves(x, ctx.now_utc, is_prev, v)
                                    && x.wf() && search_accepts(e2@, nth@, nw, x) && w == v.wall && ts == v.utc;
                                lemma_star_accepts(e@, e2@, nth@, nw, x, DAY_FIELD as int);
                                assert(self.fires(x));
                            }
                        }
                    }
                    if aware is None && res is Err {
                        let nw = self.nearest_weekday@;
                        let top = first_year(current, e@.len() > 5) + self.max_years_between_matches;
                        let bottom = last_year(current) - self.max_years_between_matches;
                        assert forall|x: WallTime| #[trigger] self.fires(x) && x.wf() implies (if is_prev {
                            x.epoch() < current.epoch() ==> x.year < bottom
                        } else {
                            current.epoch() < x.epoch() ==> x.year > top
                        }) by {
                            lemma_star_accepts(e@, e1@, nth@, nw, x, DOW_FIELD as int);
                            lemma_star_accepts(e@, e2@, nth@, nw, x, DAY_FIELD as int);
                        }
                    }
                }
                return res;
            }
        }
        let res = self.calc(current, e, nth, is_prev, aware, clock);
        proof {
            if aware is None && !is_prev && res is Ok {
                let w = res->Ok_0.0;
                assert forall|x: WallTime| #[trigger] self.fires(x) && x.wf() implies !(current.epoch() < x.epoch() < w.epoch()) by {
                    assert(search_accepts(e@, nth@, self.nearest_weekday@, x));
                }
            }
            if aware is None && is_prev && res is Ok {
                let w = res->Ok_0.0;
                assert forall|x: WallTime| #[trigger] self.fires(x) && x.wf() implies !(w.epoch() < x.epoch() < current.epoch()) by {
                    assert(search_accepts(e@, nth@, self.nearest_weekday@, x));
                }
            }
            if aware is None && res is Err {
                let top = first_year(current, e@.len() > 5) + self.max_years_between_matches;
                let bottom = last_year(current) - self.max_years_between_matches;
                assert forall|x: WallTime| #[trigger] self.fires(x) && x.wf() implies (if is_prev {
                    x.epoch() < current.epoch() ==> x.year < bottom
                } else {
                    current.epoch() < x.epoch() ==> x.year > top
                }) by {
                    assert(search_accepts(e@, nth@, self.nearest_weekday@, x));
                }
            }
            if let Some(ctx) = aware {
                if res is Ok {
                    let (w, ts) = res->Ok_0;
                    let (x, v) = choose|x: WallTime, v: Resolved| #[trigger] clock.resolves(x, ctx.now_utc, is_prev, v)
                        && x.wf() && search_accepts(e@, nth@, self.nearest_weekday@, x) && w == v.wall && ts == v.utc;
                    assert(self.fires(x));
                }
            }
        }
        res
    }
}

/// Reading `w` lies within the window of years a search from `now` looks
/// through.
pub open spec fn year_in_window(c: Croniter, now: WallTime, w: WallTime, is_prev: bool) -> bool {
    if is_prev {
        w.year >= last_year(now) - c.max_years_between_matches
    } else {
        w.year <= first_year(now, c.expanded@.len() > 5) + c.max_years_between_matches
    }
}

/// Nothing fires in the direction of travel from `now` within the window
/// of years a search looks through.
pub open spec fn none_within_window(c: Croniter, now: WallTime, is_prev: bool) -> bool {
    forall|x: WallTime| #[trigger] c.fires(x) && x.wf() ==> (if is_prev {
        x.epoch() < now.epoch() ==> x.year < last_year(now) - c.max_years_between_matches
    } else {
        now.epoch() < x.epoch() ==> x.year > first_year(now, c.expanded@.len() > 5) + c.max_years_between_matches
    })
}

/// Nothing that one side of the day-field union accepts lies in the
/// direction of travel from `now` within the window of years a search looks
/// through: the side that reads the day of month as `*` (`blank_day`) or
/// the day of week as `*` (`blank_dow`).
pub open spec fn side_none_within_window(c: Croniter, now: WallTime, is_prev: bool, blank_day: bool, blank_dow: bool) -> bool {
    forall|x: WallTime| #[trigger] accepts_with(c.expanded@, c.nth_weekday_of_month@, c.nearest_weekday@, x,
        blank_day, blank_dow) && x.wf() ==> (if is_prev {
        x.epoch() < now.epoch() ==> x.year < last_year(now) - c.max_years_between_matches
    } else {
        now.epoch() < x.epoch() ==> x.year > first_year(now, c.expanded@.len() > 5) + c.max_years_between_matches
    })
}

/// One of the two sides of the day-field union has nothing within the
/// window.
pub open spec fn a_side_none_within_window(c: Croniter, now: WallTime, is_prev: bool) -> bool {
    side_none_within_window(c, now, is_prev, false, true) || side_none_within_window(c, now, is_prev, true, false)
}

/// A side of the day-field union whose search finds nothing within the
/// window leaves that side with nothing within the window.
proof fn lemma_side_none(c: Croniter, e1: Seq<Vec<Item>>, f: int, now: WallTime, is_prev: bool)
    requires
        f == DAY_FIELD || f == DOW_FIELD,
        5 <= c.expanded@.len() <= 7,
        starred(c.expanded@, f, e1),
        !is_prev ==> forall|x: WallTime| #[trigger] search_accepts(e1, c.nth_weekday_of_month@, c.nearest_weekday@, x)
            && x.wf() && now.epoch() < x.epoch()
            ==> x.year > first_year(now, e1.len() > 5) + c.max_years_between_matches,
        is_prev ==> forall|x: WallTime| #[trigger] search_accepts(e1, c.nth_weekday_of_month@, c.nearest_weekday@, x)
            && x.wf() && x.epoch() < now.epoch()
            ==> x.year < last_year(now) - c.max_years_between_matches,
    ensures
        side_none_within_window(c, now, is_prev, f == DAY_FIELD, f == DOW_FIELD),
{
    let bd = f == DAY_FIELD;
    let bw = f == DOW_FIELD;
    assert forall|x: WallTime| #[trigger] accepts_with(c.expanded@, c.nth_weekday_of_month@, c.nearest_weekday@, x,
        bd, bw) && x.wf() implies (if is_prev {
        x.epoch() < now.epoch() ==> x.year < last_year(now) - c.max_years_between_matches
    } else {
        now.epoch() < x.epoch() ==> x.year > first_year(now, c.expanded@.len() > 5) + c.max_years_between_matches
    }) by {
        lemma_star_accepts(c.expanded@, e1, c.nth_weekday_of_month@, c.nearest_weekday@, x, f);
    }
}

/// Nothing fires strictly between instants `from` and `to`, taken in the
/// direction of travel.
pub open spec fn none_fire_on_way(c: Croniter, from: int, to: int, is_prev: bool) -> bool {
    if is_prev { none_fire_between(c, to, from) } else { none_fire_between(c, from, to) }
}

/// A search that cannot take its first step (past the last representable
/// instant, or before the first) leaves nothing that fires beyond `now`.
pub proof fn lemma_nothing_beyond(c: Croniter, now: WallTime, is_prev: bool)
    requires
        now.wf(),
        if is_prev {
            !crate::datetime::micros_in_range(now.epoch() - 1)
        } else {
            !crate::datetime::micros_in_range(now.epoch() + (if c.expanded@.len() > 5 { 1_000_000int } else { 60_000_000int }))
        },
    ensures
        forall|x: WallTime| #[trigger] c.fires(x) && x.wf() ==> (if is_prev { now.epoch() <= x.epoch() } else { x.epoch() <= now.epoch() }),
{
    crate::datetime::lemma_epoch_bounds(now);
    let d: int = if c.expanded@.len() > 5 { 1_000_000int } else { 60_000_000int };
    crate::datetime::lemma_range_iff(now.epoch() - 1);
    crate::datetime::lemma_range_iff(now.epoch() + d);
    lemma_units(now);
    assert forall|x: WallTime| #[trigger] c.fires(x) && x.wf()
        implies (if is_prev { now.epoch() <= x.epoch() } else { x.epoch() <= now.epoch() }) by {
        crate::datetime::lemma_epoch_bounds(x);
        lemma_units(x);
        if !is_prev {
            let k: int = (crate::datetime::CE_MAX - crate::datetime::CE_OFFSET + 1) * 1440;
            assert(epoch_max() == k * 60_000_000);
            if c.expanded@.len() > 5 {
                assert(epoch_max() == (k * 60) * 1_000_000);
                assert(x.epoch() == abs_second(x) * 1_000_000);
                if now.epoch() < x.epoch() {
                    assert(abs_second(x) * 1_000_000 < (k * 60) * 1_000_000);
                    assert(abs_second(x) > k * 60 - 1);
                }
            } else {
                assert(x.epoch() == abs_minute(x) * 60_000_000);
                if now.epoch() < x.epoch() {
                    assert(abs_minute(x) * 60_000_000 < k * 60_000_000);
                    assert(abs_minute(x) > k - 1);
                }
            }
        }
    }
}

/// No reading strictly between instants `a` and `b` fires.
pub open spec fn none_fire_between(c: Croniter, a: int, b: int) -> bool {
    forall|x: WallTime| #[trigger] c.fires(x) && x.wf() ==> !(a < x.epoch() < b)
}

/// Stepping back from the next fire time after a fire time `w` returns to
/// `w`, and stepping forward from the previous fire time before `w`
/// returns to `w`: a step the other way undoes a step.
pub proof fn lemma_step_undone(c: Croniter, w: WallTime, a: WallTime, b: WallTime, is_prev: bool)
    requires
        w.wf(),
        a.wf(),
        b.wf(),
        c.fires(w),
        c.fires(b),
        moved(w, a, is_prev),
        none_fire_on_way(c, w.epoch(), a.epoch(), is_prev),
        moved(a, b, !is_prev),
        none_fire_on_way(c, a.epoch(), b.epoch(), !is_prev),
    ensures
        b == w,
{
    if b.epoch() != w.epoch() {
        assert(c.fires(w) && w.wf());
        assert(c.fires(b) && b.wf());
    }
    lemma_epoch_injective(b, w.year as int, w.month as int, w.day as int, w.hour as int, w.minute as int,
        w.second as int, w.micro as int);
}

/// The union of the two day searches: the nearer result (or the only one)
/// passes over no reading that either day field's search accepts.
proof fn lemma_union_quiet(c: Croniter, e1: Seq<Vec<Item>>, e2: Seq<Vec<Item>>, current: WallTime, w: WallTime,
    g1: Result<(WallTime, i64), CroniterError>, g2: Result<(WallTime, i64), CroniterError>)
    requires
        c.wf(),
        c.union_applies(),
        e1.len() == c.expanded@.len() && e2.len() == c.expanded@.len(),
        e1[DOW_FIELD as int]@ == seq![Item::Star],
        forall|g: int| 0 <= g < c.expanded@.len() && g != DOW_FIELD ==> #[trigger] e1[g]@ == c.expanded@[g]@,
        e2[DAY_FIELD as int]@ == seq![Item::Star],
        forall|g: int| 0 <= g < c.expanded@.len() && g != DAY_FIELD ==> #[trigger] e2[g]@ == c.expanded@[g]@,
        g1 is Ok ==> quiet(e1, c.nth_weekday_of_month@, c.nearest_weekday@, current.epoch(), g1->Ok_0.0.epoch())
            && g1->Ok_0.0.year <= first_year(current, e1.len() > 5) + c.max_years_between_matches,
        g1 is Err ==> forall|x: WallTime| #[trigger] search_accepts(e1, c.nth_weekday_of_month@, c.nearest_weekday@, x)
            && x.wf() && current.epoch() < x.epoch() ==> x.year > first_year(current, e1.len() > 5) + c.max_years_between_matches,
        g2 is Ok ==> quiet(e2, c.nth_weekday_of_month@, c.nearest_weekday@, current.epoch(), g2->Ok_0.0.epoch())
            && g2->Ok_0.0.year <= first_year(current, e2.len() > 5) + c.max_years_between_matches,
        g2 is Err ==> forall|x: WallTime| #[trigger] search_accepts(e2, c.nth_weekday_of_month@, c.nearest_weekday@, x)
            && x.wf() && current.epoch() < x.epoch() ==> x.year > first_year(current, e2.len() > 5) + c.max_years_between_matches,
        w.wf(),
        (g1 is Ok && w == g1->Ok_0.0) || (g2 is Ok && w == g2->Ok_0.0),
        g1 is Ok ==> w.epoch() <= g1->Ok_0.0.epoch(),
        g2 is Ok ==> w.epoch() <= g2->Ok_0.0.epoch(),
    ensures
        none_fire_between(c, current.epoch(), w.epoch()),
{
    let e = c.expanded@;
    let nth = c.nth_weekday_of_month@;
    let nw = c.nearest_weekday@;
    let top = first_year(current, e.len() > 5) + c.max_years_between_matches;
    assert(w.year <= top);
    assert forall|x: WallTime| #[trigger] c.fires(x) && x.wf() implies !(current.epoch() < x.epoch() < w.epoch()) by {
        if current.epoch() < x.epoch() < w.epoch() {
            lemma_star_accepts(e, e1, nth, nw, x, DOW_FIELD as int);
            lemma_star_accepts(e, e2, nth, nw, x, DAY_FIELD as int);
            crate::skip::lemma_not_earlier_date(x, w);
            assert(x.year <= w.year);
            if search_accepts(e1, nth, nw, x) {
                assert(g1 is Ok);
            }
            if search_accepts(e2, nth, nw, x) {
                assert(g2 is Ok);
            }
        }
    }
}

/// The union of the two day searches, backward: the later result (or the
/// only one) passes over no reading that either day field's search accepts.
proof fn lemma_union_quiet_back(c: Croniter, e1: Seq<Vec<Item>>, e2: Seq<Vec<Item>>, current: WallTime, w: WallTime,
    g1: Result<(WallTime, i64), CroniterError>, g2: Result<(WallTime, i64), CroniterError>)
    requires
        c.wf(),
        c.union_applies(),
        e1.len() == c.expanded@.len() && e2.len() == c.expanded@.len(),
        e1[DOW_FIELD as int]@ == seq![Item::Star],
        forall|g: int| 0 <= g < c.expanded@.len() && g != DOW_FIELD ==> #[trigger] e1[g]@ == c.expanded@[g]@,
        e2[DAY_FIELD as int]@ == seq![Item::Star],
        forall|g: int| 0 <= g < c.expanded@.len() && g != DAY_FIELD ==> #[trigger] e2[g]@ == c.expanded@[g]@,
        g1 is Ok ==> quiet(e1, c.nth_weekday_of_month@, c.nearest_weekday@, g1->Ok_0.0.epoch(), current.epoch())
            && g1->Ok_0.0.year >= last_year(current) - c.max_years_between_matches,
        g1 is Err ==> forall|x: WallTime| #[trigger] search_accepts(e1, c.nth_weekday_of_month@, c.nearest_weekday@, x)
            && x.wf() && x.epoch() < current.epoch() ==> x.year < last_year(current) - c.max_years_between_matches,
        g2 is Ok ==> quiet(e2, c.nth_weekday_of_month@, c.nearest_weekday@, g2->Ok_0.0.epoch(), current.epoch())
            && g2->Ok_0.0.year >= last_year(current) - c.max_years_between_matches,
        g2 is Err ==> forall|x: WallTime| #[trigger] search_accepts(e2, c.nth_weekday_of_month@, c.nearest_weekday@, x)
            && x.wf() && x.epoch() < current.epoch() ==> x.year < last_year(current) - c.max_years_between_matches,
        w.wf(),
        (g1 is Ok && w == g1->Ok_0.0) || (g2 is Ok && w == g2->Ok_0.0),
        g1 is Ok ==> w.epoch() >= g1->Ok_0.0.epoch(),
        g2 is Ok ==> w.epoch() >= g2->Ok_0.0.epoch(),
    ensures
        none_fire_between(c, w.epoch(), current.epoch()),
{
    let e = c.expanded@;
    let nth = c.nth_weekday_of_month@;
    let nw = c.nearest_weekday@;
    let bottom = last_year(current) - c.max_years_between_matches;
    assert(w.year >= bottom);
    assert forall|x: WallTime| #[trigger] c.fires(x) && x.wf() implies !(w.epoch() < x.epoch() < current.epoch()) by {
        if w.epoch() < x.epoch() < current.epoch() {
            lemma_star_accepts(e, e1, nth, nw, x, DOW_FIELD as int);
            lemma_star_accepts(e, e2, nth, nw, x, DAY_FIELD as int);
            crate::skip::lemma_not_earlier_date(w, x);
            assert(x.year >= w.year);
            if search_accepts(e1, nth, nw, x) {
                assert(g1 is Ok);
            }
            if search_accepts(e2, nth, nw, x) {
                assert(g2 is Ok);
            }
        }
    }
}

/// Day of month and day of week, without `W` or `#`/`l`: when both are
/// restricted and `day_or` is set (and the cron bug is not asked for), a
/// reading fires when the other fields accept it and either day field does;
/// otherwise both day fields must accept it.
pub proof fn lemma_day_fields(c: Croniter, w: WallTime)
    requires
        c.nearest_weekday@.len() == 0,
        !nth_in_use(c.nth_weekday_of_month@),
    ensures
        ({
            let e = c.expanded@;
            let others = accepts_with(e, c.nth_weekday_of_month@, c.nearest_weekday@, w, true, true);
            let dom = day_accepts(e[DAY_FIELD as int]@, w.year as int, w.month as int, w.day as int);
            let dow = field_accepts(e[DOW_FIELD as int]@, w.weekday());
            c.fires(w) <==> others && (if c.union_applies() { dom || dow } else { dom && dow })
        }),
{
}

/// Whether any weekday carries a `#`/`l` qualifier.
fn nth_used(nth: &Vec<Vec<Nth>>) -> (r: bool)
    requires
        nth@.len() == 7,
    ensures
        r == nth_in_use(nth@),
{
    let mut w: usize = 0;
    while w < 7
        invariant
            w <= 7,
            nth@.len() == 7,
            forall|v: int| 0 <= v < w ==> #[trigger] nth@[v]@.len() == 0,
        decreases 7 - w,
    {
        if nth[w].len() > 0 {
            return true;
        }
        w = w + 1;
    }
    false
}

proof fn lemma_with_star_wf(e: Seq<Vec<Item>>, e2: Seq<Vec<Item>>, f: int)
    requires
        expanded_wf(e),
        0 <= f < e.len(),
        e2.len() == e.len(),
        e2[f]@ == seq![Item::Star],
        forall|g: int| 0 <= g < e.len() && g != f ==> #[trigger] e2[g]@ == e[g]@,
    ensures
        expanded_wf(e2),
{
    assert forall|g: int| 0 <= g < e2.len() implies #[trigger] strictly_sorted(e2[g]@) by {
        if g != f {
            assert(strictly_sorted(e[g]@));
            assert(e2[g]@ == e[g]@);
        }
    }
    assert forall|g: int| 0 <= g < e2.len() implies #[trigger] field_wf(e2[g]@, g) by {
        if g != f {
            assert(field_wf(e[g]@, g));
            assert(e2[g]@ == e[g]@);
        } else {
            assert(item_in_field(Item::Star, g));
        }
    }
}

/// Accepting with a field replaced by `*` is accepting with that field
/// blanked.
proof fn lemma_star_accepts(e: Seq<Vec<Item>>, e2: Seq<Vec<Item>>, nth: Seq<Vec<Nth>>, nw: Seq<i64>, w: WallTime, f: int)
    requires
        f == DAY_FIELD || f == DOW_FIELD,
        5 <= e.len() <= 7,
        e2.len() == e.len(),
        e2[f]@ == seq![Item::Star],
        forall|g: int| 0 <= g < e.len() && g != f ==> #[trigger] e2[g]@ == e[g]@,
    ensures
        search_accepts(e2, nth, nw, w) == accepts_with(e, nth, nw, w, f == DAY_FIELD, f == DOW_FIELD),
{
    assert(e2[f]@.contains(Item::Star)) by {
        assert(e2[f]@[0] == Item::Star);
    }
    assert(e2[MONTH_FIELD as int]@ == e[MONTH_FIELD as int]@);
    assert(e2[HOUR_FIELD as int]@ == e[HOUR_FIELD as int]@);
    assert(e2[MINUTE_FIELD as int]@ == e[MINUTE_FIELD as int]@);
    if e.len() > 5 {
        assert(e2[SECOND_FIELD as int]@ == e[SECOND_FIELD as int]@);
    }
    if e.len() == 7 {
        assert(e2[YEAR_FIELD as int]@ == e[YEAR_FIELD as int]@);
    }
    if f == DAY_FIELD {
        assert(e2[DOW_FIELD as int]@ == e[DOW_FIELD as int]@);
    } else {
        assert(e2[DAY_FIELD as int]@ == e[DAY_FIELD as int]@);
    }
}

/// Microseconds since the epoch of a reading taken as UTC
/// (`datetime_to_timestamp` for a naive reading).
pub fn naive_to_timestamp(d: &WallTime) -> (r: i64)
    requires
        d.wf(),
    ensures
        r == d.epoch(),
{
    d.to_micros()
}

/// The reading (as UTC) at `us` microseconds since the epoch; `None` when it
/// cannot be represented.
pub fn timestamp_to_naive(us: i64) -> (r: Option<WallTime>)
    ensures
        r matches Some(w) ==> w.wf() && w.epoch() == us,
        r is Some <==> crate::datetime::micros_in_range(us as int),
{
    WallTime::from_micros(us as i128)
}

} // verus!
