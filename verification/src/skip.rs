//! What a step of the search passes over: the readings between where a
//! step starts and where it lands, counted in whole hours, minutes,
//! seconds or days, and the field values a sorted field list does not hold.
use vstd::prelude::*;
use crate::calc::{effective, next_scan, prev_cap, prev_scan, spec_next_nearest_diff, spec_prev_nearest_diff};
use crate::consts::days_in_month;
use crate::datetime::{days_from_civil, lemma_date_order, lemma_epoch_in_day, lemma_year_length, valid_date, WallTime};
use crate::expand::{item_lt, strictly_sorted};
use crate::item::Item;

verus! {

/// `x` is a valid reading at or after `a` and before `b`.
pub open spec fn in_span(a: WallTime, b: WallTime, x: WallTime) -> bool {
    x.wf() && a.epoch() <= x.epoch() < b.epoch()
}

/// `x` is a valid reading at or after `a`.
pub open spec fn from_on(a: WallTime, x: WallTime) -> bool {
    x.wf() && a.epoch() <= x.epoch()
}

/// Whole hours from the epoch's first day to the hour of `w`.
pub open spec fn abs_hour(w: WallTime) -> int {
    w.day_number() * 24 + w.hour
}

/// Whole minutes from the epoch's first day to the minute of `w`.
pub open spec fn abs_minute(w: WallTime) -> int {
    abs_hour(w) * 60 + w.minute
}

/// Whole seconds from the epoch's first day to the second of `w`.
pub open spec fn abs_second(w: WallTime) -> int {
    abs_minute(w) * 60 + w.second
}

/// A reading lies within its second, minute, hour and day.
pub proof fn lemma_units(w: WallTime)
    requires
        w.wf(),
    ensures
        w.epoch() == abs_second(w) * 1_000_000 + w.micro,
        abs_second(w) * 1_000_000 <= w.epoch() < abs_second(w) * 1_000_000 + 1_000_000,
        abs_minute(w) * 60_000_000 <= w.epoch() < abs_minute(w) * 60_000_000 + 60_000_000,
        abs_hour(w) * 3_600_000_000 <= w.epoch() < abs_hour(w) * 3_600_000_000 + 3_600_000_000,
        w.day_number() * 86_400_000_000 <= w.epoch() < w.day_number() * 86_400_000_000 + 86_400_000_000,
{
    lemma_epoch_in_day(w);
}

/// A reading at or after `a` and before the start of unit `k` (of `size`
/// microseconds) lies in a unit from `a`'s up to `k - 1`.
pub proof fn lemma_unit_between(ua: int, ux: int, a: int, x: int, k: int, size: int)
    requires
        size > 0,
        ua * size <= a,
        ux * size <= x < ux * size + size,
        a <= x < k * size,
        a < ua * size + size,
    ensures
        ua <= ux < k,
{
    assert(ux * size < k * size);
    assert(ux < k) by (nonlinear_arith)
        requires
            ux * size < k * size,
            size > 0,
    ;
    assert(ua * size < ux * size + size);
    assert(ua < ux + 1) by (nonlinear_arith)
        requires
            ua * size < ux * size + size,
            size > 0,
    ;
}

/// Date `(y1, m1, d1)` comes before date `(y2, m2, d2)` in the calendar.
pub open spec fn date_lt(y1: int, m1: int, d1: int, y2: int, m2: int, d2: int) -> bool {
    y1 < y2 || (y1 == y2 && m1 < m2) || (y1 == y2 && m1 == m2 && d1 < d2)
}

/// A reading at or after `a` is not on an earlier date than `a`.
pub proof fn lemma_not_earlier_date(a: WallTime, x: WallTime)
    requires
        a.wf(),
        x.wf(),
        a.epoch() <= x.epoch(),
    ensures
        !date_lt(x.year as int, x.month as int, x.day as int, a.year as int, a.month as int, a.day as int),
{
    lemma_units(a);
    lemma_units(x);
    if date_lt(x.year as int, x.month as int, x.day as int, a.year as int, a.month as int, a.day as int) {
        lemma_date_order(x.year as int, x.month as int, x.day as int, a.year as int, a.month as int, a.day as int);
    }
}

/// A reading before the start of a day is on an earlier date.
pub proof fn lemma_earlier_date(x: WallTime, y: int, m: int, d: int)
    requires
        x.wf(),
        valid_date(y, m, d),
        x.epoch() < days_from_civil(y, m, d) * 86_400_000_000,
    ensures
        date_lt(x.year as int, x.month as int, x.day as int, y, m, d),
{
    lemma_units(x);
    if !date_lt(x.year as int, x.month as int, x.day as int, y, m, d)
        && !(x.year == y && x.month == m && x.day == d) {
        lemma_date_order(y, m, d, x.year as int, x.month as int, x.day as int);
    }
}

/// A reading from `a` up to the end of `a`'s month lies in that month, on
/// `a`'s day or later.
pub proof fn lemma_within_month(a: WallTime, x: WallTime)
    requires
        a.wf(),
        x.wf(),
        a.epoch() <= x.epoch(),
        x.epoch() < (days_from_civil(a.year as int, a.month as int, days_in_month(a.year as int, a.month as int)) + 1)
            * 86_400_000_000,
    ensures
        x.year == a.year && x.month == a.month && a.day <= x.day,
{
    lemma_not_earlier_date(a, x);
    lemma_units(x);
    let (y, m) = (a.year as int, a.month as int);
    lemma_next_month_start(y, m);
    let (ny, nm) = if m < 12 { (y, m + 1) } else { (y + 1, 1int) };
    if x.year != a.year || x.month != a.month {
        if x.year != ny || x.month != nm {
            lemma_date_order(ny, nm, 1, x.year as int, x.month as int, x.day as int);
        }
    }
}

/// The first of the month after `(y, m)` follows its last day.
pub proof fn lemma_next_month_start(y: int, m: int)
    requires
        1 <= m <= 12,
    ensures
        m < 12 ==> days_from_civil(y, m + 1, 1) == days_from_civil(y, m, days_in_month(y, m)) + 1,
        m == 12 ==> days_from_civil(y + 1, 1, 1) == days_from_civil(y, m, days_in_month(y, m)) + 1,
{
    lemma_year_length(y);
}

/// The month before `(y, m)`.
pub open spec fn month_before(y: int, m: int) -> (int, int) {
    if m == 1 { (y - 1, 12int) } else { (y, m - 1) }
}

/// A reading at or before `b` and on or after the first of the month
/// before `b`'s lies in `b`'s month (on `b`'s day or earlier) or in the
/// month before.
pub proof fn lemma_within_prev_month(b: WallTime, x: WallTime)
    requires
        b.wf(),
        x.wf(),
        x.epoch() <= b.epoch(),
        days_from_civil(month_before(b.year as int, b.month as int).0, month_before(b.year as int, b.month as int).1, 1)
            <= x.day_number(),
    ensures
        (x.year == b.year && x.month == b.month && x.day <= b.day)
            || (x.year == month_before(b.year as int, b.month as int).0
                && x.month == month_before(b.year as int, b.month as int).1),
{
    let (y, m) = (b.year as int, b.month as int);
    let (py, pm) = month_before(y, m);
    let (xy, xm, xd) = (x.year as int, x.month as int, x.day as int);
    lemma_units(b);
    lemma_units(x);
    if date_lt(y, m, b.day as int, xy, xm, xd) {
        lemma_date_order(y, m, b.day as int, xy, xm, xd);
    }
    if date_lt(xy, xm, xd, py, pm, 1) {
        lemma_date_order(xy, xm, xd, py, pm, 1);
    }
}

/// A reading at or before `b` and on or after the first of `b`'s month
/// lies in that month, on `b`'s day or earlier.
pub proof fn lemma_within_month_back(b: WallTime, x: WallTime)
    requires
        b.wf(),
        x.wf(),
        x.epoch() <= b.epoch(),
        days_from_civil(b.year as int, b.month as int, 1) <= x.day_number(),
    ensures
        x.year == b.year && x.month == b.month && x.day <= b.day,
{
    let (py, pm) = month_before(b.year as int, b.month as int);
    lemma_next_month_start(py, pm);
    lemma_within_prev_month(b, x);
}

/// Two readings less than a day apart lie in the same year or in
/// neighbouring years.
pub proof fn lemma_year_within_one(a: WallTime, b: WallTime)
    requires
        a.wf(),
        b.wf(),
        a.epoch() - 86_400_000_000 < b.epoch() < a.epoch() + 86_400_000_000,
    ensures
        a.year - 1 <= b.year <= a.year + 1,
{
    lemma_units(a);
    lemma_units(b);
    crate::datetime::lemma_end_of_year(a.year as int, a.month as int, a.day as int);
    crate::datetime::lemma_end_of_year(b.year as int, b.month as int, b.day as int);
    if b.year > a.year + 1 {
        lemma_date_order(a.year + 1, 12, 31, b.year as int, b.month as int, b.day as int);
        crate::datetime::lemma_end_of_year(a.year + 1, 1, 1);
    }
    if b.year < a.year - 1 {
        lemma_date_order(b.year as int, b.month as int, b.day as int, a.year - 1, 1, 1);
        crate::datetime::lemma_end_of_year(a.year - 1, 12, 31);
    }
}

/// In a sorted list, nothing lies between `x` and the first value at or
/// after it.
pub proof fn lemma_scan_gap(x: int, s: Seq<Item>, rv: Option<i64>, d: int, v: i64)
    requires
        strictly_sorted(s),
        next_scan(x, s, rv) == Some(d),
        x <= v < d,
    ensures
        !s.contains(Item::Num(v)),
    decreases s.len(),
{
    if s.contains(Item::Num(v)) {
        let i = choose|i: int| 0 <= i < s.len() && s[i] == Item::Num(v);
        let t = s.drop_first();
        if effective(s[0], rv) matches Some(e0) && e0 >= x {
            assert(d == effective(s[0], rv)->0);
            if i > 0 {
                assert(item_lt(s[0], s[i]));
            }
        } else {
            assert(next_scan(x, s, rv) == next_scan(x, t, rv));
            assert forall|a: int, b: int| 0 <= a < b < t.len() implies item_lt(#[trigger] t[a], #[trigger] t[b]) by {
                assert(t[a] == s[a + 1] && t[b] == s[b + 1]);
            }
            if i == 0 {
                lemma_scan_bound(x, t, rv, d);
            } else {
                assert(t[i - 1] == Item::Num(v));
                assert(t.contains(Item::Num(v)));
                lemma_scan_gap(x, t, rv, d, v);
            }
        }
    }
}

/// The value a scan finds is within `rv`.
pub proof fn lemma_scan_bound(x: int, s: Seq<Item>, rv: Option<i64>, d: int)
    requires
        next_scan(x, s, rv) == Some(d),
    ensures
        rv matches Some(r) ==> d <= r,
        d >= x,
    decreases s.len(),
{
    if s.len() > 0 {
        match effective(s[0], rv) {
            Some(e0) => {
                if e0 < x {
                    lemma_scan_bound(x, s.drop_first(), rv, d);
                }
            },
            None => {
                lemma_scan_bound(x, s.drop_first(), rv, d);
            },
        }
    }
}

/// When no value lies at or after `x`, no number from `x` up to `rv` is
/// listed.
pub proof fn lemma_scan_none(x: int, s: Seq<Item>, rv: Option<i64>, v: i64)
    requires
        next_scan(x, s, rv) is None,
        v >= x,
        rv matches Some(r) ==> v <= r,
    ensures
        !s.contains(Item::Num(v)),
    decreases s.len(),
{
    if s.len() > 0 {
        lemma_scan_none(x, s.drop_first(), rv, v);
        if s.contains(Item::Num(v)) {
            let i = choose|i: int| 0 <= i < s.len() && s[i] == Item::Num(v);
            if i > 0 {
                assert(s.drop_first()[i - 1] == Item::Num(v));
            } else {
                assert(effective(s[0], rv) == Some(v as int));
            }
        }
    }
}

/// Nothing below the first number of a sorted list is listed.
pub proof fn lemma_below_first(s: Seq<Item>, n0: i64, v: i64)
    requires
        strictly_sorted(s),
        s.len() > 0,
        s[0] == Item::Num(n0),
        v < n0,
    ensures
        !s.contains(Item::Num(v)),
{
    if s.contains(Item::Num(v)) {
        let i = choose|i: int| 0 <= i < s.len() && s[i] == Item::Num(v);
        if i > 0 {
            assert(item_lt(s[0], s[i]));
        }
    }
}

/// The numbers of a sorted list with no `l`, each at most `r`, moving
/// forward by `diff` (with one wrap of `r`) from `x0`: no value passed on
/// the way is listed.
pub proof fn lemma_cycle_gap(x0: int, s: Seq<Item>, r: i64, diff: int, v: i64)
    requires
        strictly_sorted(s),
        !s.contains(Item::Last),
        !s.contains(Item::Star),
        forall|i: int| 0 <= i < s.len() ==> (#[trigger] s[i] matches Item::Num(n) ==> 0 <= n <= r),
        spec_next_nearest_diff(x0, s, Some(r)) == Some(diff),
        (x0 <= v < x0 + diff) || (0 <= v && v + r < x0 + diff),
    ensures
        !s.contains(Item::Num(v)),
{
    match next_scan(x0, s, Some(r)) {
        Some(d) => {
            lemma_scan_bound(x0, s, Some(r), d);
            if x0 <= v < x0 + diff {
                lemma_scan_gap(x0, s, Some(r), d, v);
            }
        },
        None => {
            if s.contains(Item::Num(v)) {
                let i = choose|i: int| 0 <= i < s.len() && s[i] == Item::Num(v);
                assert(0 <= v <= r);
                if x0 <= v < x0 + diff {
                    lemma_scan_none(x0, s, Some(r), v);
                } else {
                    assert(s[0] is Num);
                    lemma_below_first(s, s[0]->Num_0, v);
                }
            }
        },
    }
}

/// `x` is a valid reading with no microseconds, after `a` and at or
/// before `b`.
pub open spec fn in_back_span(a: WallTime, b: WallTime, x: WallTime) -> bool {
    x.wf() && x.micro == 0 && a.epoch() < x.epoch() <= b.epoch()
}

/// `x` is a valid reading with no microseconds at or before `b`.
pub open spec fn up_to(b: WallTime, x: WallTime) -> bool {
    x.wf() && x.micro == 0 && x.epoch() <= b.epoch()
}

/// A reading at or after the start of unit `k` and at or before `b` lies
/// in a unit from `k` up to `b`'s.
pub proof fn lemma_unit_between_back(ub: int, ux: int, b: int, x: int, k: int, size: int)
    requires
        size > 0,
        ub * size <= b < ub * size + size,
        ux * size <= x < ux * size + size,
        k * size <= x <= b,
    ensures
        k <= ux <= ub,
{
    assert(k * size < ux * size + size);
    assert(k < ux + 1) by (nonlinear_arith)
        requires
            k * size < ux * size + size,
            size > 0,
    ;
    assert(ux * size < ub * size + size);
    assert(ux < ub + 1) by (nonlinear_arith)
        requires
            ux * size < ub * size + size,
            size > 0,
    ;
}

/// Two readings with no microseconds lie a whole second apart.
pub proof fn lemma_whole_seconds(a: WallTime, x: WallTime)
    requires
        a.wf(),
        x.wf(),
        a.micro == 0,
        x.micro == 0,
        a.epoch() < x.epoch(),
    ensures
        a.epoch() + 1_000_000 <= x.epoch(),
{
    lemma_units(a);
    lemma_units(x);
    let (sa, sx) = (abs_second(a), abs_second(x));
    assert(sa + 1 <= sx) by (nonlinear_arith)
        requires
            sa * 1_000_000 < sx * 1_000_000,
    ;
}

/// In a sorted list, nothing lies between the last number at or before
/// `x` and `x`.
pub proof fn lemma_prev_scan_gap(x: int, s: Seq<Item>, d: int, v: i64)
    requires
        strictly_sorted(s),
        prev_scan(x, s) == Some(d),
        d < v <= x,
    ensures
        !s.contains(Item::Num(v)),
    decreases s.len(),
{
    if s.contains(Item::Num(v)) {
        let i = choose|i: int| 0 <= i < s.len() && s[i] == Item::Num(v);
        let t = s.drop_last();
        let n = s.len() - 1;
        if s.last() is Num && s.last()->Num_0 <= x {
            assert(d == s.last()->Num_0);
            if i < n {
                assert(item_lt(s[i], s[n]));
            }
        } else {
            assert(prev_scan(x, s) == prev_scan(x, t));
            assert forall|a: int, b: int| 0 <= a < b < t.len() implies item_lt(#[trigger] t[a], #[trigger] t[b]) by {
                assert(t[a] == s[a] && t[b] == s[b]);
            }
            if i < n {
                assert(t[i] == Item::Num(v));
                assert(t.contains(Item::Num(v)));
                lemma_prev_scan_gap(x, t, d, v);
            }
        }
    }
}

/// When no number lies at or before `x`, none of `0..=x` is listed.
pub proof fn lemma_prev_scan_none(x: int, s: Seq<Item>, v: i64)
    requires
        prev_scan(x, s) is None,
        v <= x,
    ensures
        !s.contains(Item::Num(v)),
    decreases s.len(),
{
    if s.len() > 0 {
        lemma_prev_scan_none(x, s.drop_last(), v);
        if s.contains(Item::Num(v)) {
            let i = choose|i: int| 0 <= i < s.len() && s[i] == Item::Num(v);
            if i < s.len() - 1 {
                assert(s.drop_last()[i] == Item::Num(v));
            }
        }
    }
}

/// In a sorted list, nothing lies between the last number at or before `r`
/// and `r`; when there is none, nothing at or before `r` is listed.
pub proof fn lemma_prev_cap_gap(r: int, s: Seq<Item>, v: i64)
    requires
        strictly_sorted(s),
        v <= r,
        prev_cap(r, s) matches Some(c) ==> c < v,
    ensures
        !s.contains(Item::Num(v)),
    decreases s.len(),
{
    if s.contains(Item::Num(v)) {
        let i = choose|i: int| 0 <= i < s.len() && s[i] == Item::Num(v);
        let t = s.drop_last();
        let n = s.len() - 1;
        if s.last() is Num && s.last()->Num_0 <= r {
            if i < n {
                assert(item_lt(s[i], s[n]));
            }
        } else {
            assert(prev_cap(r, s) == prev_cap(r, t));
            assert forall|a: int, b: int| 0 <= a < b < t.len() implies item_lt(#[trigger] t[a], #[trigger] t[b]) by {
                assert(t[a] == s[a] && t[b] == s[b]);
            }
            if i < n {
                assert(t[i] == Item::Num(v));
                assert(t.contains(Item::Num(v)));
                lemma_prev_cap_gap(r, t, v);
            }
        }
    }
}

/// The numbers of a sorted list with no `l`, each between 0 and `r`,
/// moving back by `-diff` (with one wrap of `r`) from `x0`: no value
/// passed on the way is listed.
pub proof fn lemma_cycle_gap_back(x0: int, s: Seq<Item>, r: i64, diff: int, v: i64)
    requires
        strictly_sorted(s),
        !s.contains(Item::Last),
        !s.contains(Item::Star),
        forall|i: int| 0 <= i < s.len() ==> (#[trigger] s[i] matches Item::Num(n) ==> 0 <= n <= r),
        spec_prev_nearest_diff(x0, s, Some(r)) == Some(diff),
        (x0 + diff < v <= x0) || (x0 + diff < v - r && v <= r),
    ensures
        !s.contains(Item::Num(v)),
{
    match prev_scan(x0, s) {
        Some(d) => {
            if x0 + diff < v <= x0 {
                lemma_prev_scan_gap(x0, s, d, v);
            } else if s.contains(Item::Num(v)) {
                let i = choose|i: int| 0 <= i < s.len() && s[i] == Item::Num(v);
                crate::calc::lemma_prev_scan_pub(x0, s);
            }
        },
        None => {
            if v <= x0 {
                lemma_prev_scan_none(x0, s, v);
            } else if s.contains(Item::Num(v)) {
                let i = choose|i: int| 0 <= i < s.len() && s[i] == Item::Num(v);
                assert(s[i] == Item::Num(v));
                lemma_prev_cap_gap(r as int, s, v);
            }
        },
    }
}

} // verus!
