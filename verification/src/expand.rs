//! Expanding a cron expression into per-field value lists.
//!
//! `"0-5,10 * * * mon-fri"` becomes the sorted values of each field, plus the
//! two side tables the search needs: the `#`/`l` qualifiers of the day of
//! week (`nth_weekday_of_month`) and the `W` days (`nearest_weekday`).
use vstd::prelude::*;
use crate::calc::{field_wf, item_in_field};
use crate::consts::{common_month_len, field_cardinality, is_leap, len_means_all, spec_is_leap, YEAR_FIELD};
use crate::token::find_char;
use crate::text::{char_is_white, chars_equal_str, chars_of, is_white, lowercase};
use crate::consts::{
    field_range, range_high, range_low, DAY_FIELD, DOW_FIELD, HOUR_FIELD, MINUTE_FIELD,
    MONTH_FIELD, SECOND_CRON_LEN, UNIX_CRON_LEN, YEAR_CRON_LEN,
};
use crate::datetime::{micros_in_range, WallTime};
use crate::error::{CroniterError, ErrorView};
use crate::hash::{divisor_text, expand_field, hash_outcome, id_view, is_hash_expr, HashForm};
use crate::item::{Item, Nth};
use crate::text::{
    all_digits, append_chars, decimal, digits_value, extend_chars, extend_int, extend_str,
    parse_digits, render_int, string_of, sub_chars,
};
use crate::token::{
    all_digits_in, is_last_nth_form, is_nth_form, is_step_form, is_star_slash, is_value_slash_at,
    lemma_nth_unique, lemma_step_unique, lemma_value_slash_unique, match_special_dow, match_step,
    month_number, month_of, nearest_w, nearest_w_digits, star_slash, value_slash, weekday_number,
    weekday_of_name, SpecialDow,
};

verus! {

// ---------------------------------------------------------------------------
// Value aliases: `0` means `1` in the day and month fields and `7` means `0`
// (Sunday) in the day-of-week field, except for the column counts that
// suppress the remap.

pub open spec fn alias_target(val: Item, f: int) -> Option<Item> {
    if (f == DAY_FIELD || f == MONTH_FIELD) && val == Item::Num(0) {
        Some(Item::Num(1))
    } else if f == DOW_FIELD && val == Item::Num(7) {
        Some(Item::Num(0))
    } else {
        None
    }
}

pub open spec fn alias_suppressed(f: int, n: int) -> bool {
    ||| (f == DAY_FIELD || f == MONTH_FIELD) && n == UNIX_CRON_LEN
    ||| (f == MONTH_FIELD || f == DOW_FIELD) && n == SECOND_CRON_LEN
    ||| (f == DAY_FIELD || f == MONTH_FIELD || f == DOW_FIELD) && n == YEAR_CRON_LEN
}

/// `val` in field `f` of an `n`-column expression after the remaps.
pub open spec fn spec_value_alias(val: Item, f: int, n: int) -> Item {
    match alias_target(val, f) {
        Some(t) => if alias_suppressed(f, n) { val } else { t },
        None => val,
    }
}

/// The `0 -> 1` and `7 -> 0` remaps.
pub fn value_alias(val: Item, field_index: usize, len_expressions: usize) -> (r: Item)
    ensures
        r == spec_value_alias(val, field_index as int, len_expressions as int),
{
    let mapped = if (field_index == DAY_FIELD || field_index == MONTH_FIELD) && val.same(&Item::Num(0)) {
        Some(Item::Num(1))
    } else if field_index == DOW_FIELD && val.same(&Item::Num(7)) {
        Some(Item::Num(0))
    } else {
        None
    };
    match mapped {
        None => val,
        Some(t) => {
            let suppressed = ((field_index == DAY_FIELD || field_index == MONTH_FIELD)
                && len_expressions == UNIX_CRON_LEN)
                || ((field_index == MONTH_FIELD || field_index == DOW_FIELD)
                && len_expressions == SECOND_CRON_LEN)
                || ((field_index == DAY_FIELD || field_index == MONTH_FIELD || field_index == DOW_FIELD)
                && len_expressions == YEAR_CRON_LEN);
            if suppressed { val } else { t }
        },
    }
}

// ---------------------------------------------------------------------------
// Names.

/// The item a name stands for in field `f`: a month or weekday
/// abbreviation, or `l` (the last day) in the day-of-month field.
pub open spec fn spec_alpha(f: int, key: Seq<char>) -> Option<Item> {
    if f == MONTH_FIELD {
        match month_number(key) {
            Some(v) => Some(Item::Num(v as i64)),
            None => None,
        }
    } else if f == DOW_FIELD {
        match weekday_number(key) {
            Some(v) => Some(Item::Num(v as i64)),
            None => None,
        }
    } else if f == DAY_FIELD && key == seq!['l'] {
        Some(Item::Last)
    } else {
        None
    }
}

/// The message for an unknown name: the whole expression in brackets.
pub open spec fn not_alpha_message(joined: Seq<char>) -> Seq<char> {
    "["@ + joined + "] is not acceptable"@
}

/// `alphaconv`: the item a name stands for; `NotAlpha` when it is none.
/// `joined` is the expression's columns joined by spaces.
fn alphaconv(index: usize, key: &Vec<char>, joined: &Vec<char>) -> (r: Result<Item, CroniterError>)
    ensures
        spec_alpha(index as int, key@) matches Some(it) ==> r == Ok::<Item, CroniterError>(it),
        spec_alpha(index as int, key@) is None ==> (r matches Err(CroniterError::NotAlpha(m))
            && m@ == not_alpha_message(joined@)),
{
    if index == MONTH_FIELD {
        if let Some(v) = month_of(key) {
            return Ok(Item::Num(v));
        }
    } else if index == DOW_FIELD {
        if let Some(v) = weekday_of_name(key) {
            return Ok(Item::Num(v));
        }
    } else if index == DAY_FIELD && key.len() == 1 && key[0] == 'l' {
        assert(key@ =~= seq!['l']);
        return Ok(Item::Last);
    }
    proof {
        if index == DAY_FIELD && key@ == seq!['l'] {
            assert(key@.len() == 1 && key@[0] == 'l');
        }
    }
    let mut m = String::from_str("[");
    append_chars(&mut m, joined);
    m.append("] is not acceptable");
    Err(CroniterError::NotAlpha(m))
}

// ---------------------------------------------------------------------------
// Error messages.

/// `[expression]` followed by `tail`.
pub open spec fn bracketed(format: Seq<char>, tail: Seq<char>) -> Seq<char> {
    "["@ + format + "]"@ + tail
}

pub open spec fn bad_cron_with(r: CroniterError, msg: Seq<char>) -> bool {
    r matches CroniterError::BadCron(m) && m@ == msg
}

/// `[expression]` + `head` + `quoted` + `tail`.
fn quoted_error(format: &Vec<char>, head: &str, quoted: &Vec<char>, tail: &str) -> (e: CroniterError)
    ensures
        bad_cron_with(e, bracketed(format@, head@ + quoted@ + tail@)),
{
    let mut m = String::from_str("[");
    append_chars(&mut m, format);
    m.append("]");
    m.append(head);
    append_chars(&mut m, quoted);
    m.append(tail);
    proof {
        assert(m@ =~= bracketed(format@, head@ + quoted@ + tail@));
    }
    CroniterError::BadCron(m)
}

// ---------------------------------------------------------------------------
// Starting a step range at the current date (`expand_from_start_time`).

/// Whole seconds of `us` microseconds, truncated toward zero.
pub open spec fn whole_seconds(us: int) -> int {
    if us >= 0 { us / 1_000_000 } else { -((-us) / 1_000_000) }
}

/// The start of a step range in field `f` that keeps the current reading
/// `w` on the step grid.
pub open spec fn current_date_number(f: int, step: int, w: WallTime) -> int {
    if f == MINUTE_FIELD {
        (w.minute as int) % step
    } else if f == HOUR_FIELD {
        (w.hour as int) % step
    } else if f == DAY_FIELD {
        (w.day - 1) % step + 1
    } else if f == MONTH_FIELD {
        (w.month - 1) % step + 1
    } else {
        w.weekday() % step
    }
}

/// The start of a step range in field
/// `field_index` aligned on the UTC reading at `from_us` (in whole seconds).
/// `Value` when that reading cannot be represented or the field has no
/// current number (seconds, years).
fn low_from_current_date_number(field_index: usize, step: i64, from_us: i64) -> (r: Result<i64, CroniterError>)
    requires
        step > 0,
    ensures
        ({
            let t = whole_seconds(from_us as int) * 1_000_000;
            &&& !micros_in_range(t) ==> (r matches Err(CroniterError::Value(m)) && m@ == "timestamp out of range"@)
            &&& micros_in_range(t) && field_index > 4 ==> (r matches Err(CroniterError::Value(m))
                && m@ == "Can't get current date number for index larger than 4"@)
            &&& micros_in_range(t) && field_index <= 4 ==> r == Ok::<i64, CroniterError>(
                current_date_number(field_index as int, step as int, utc_reading(t)) as i64)
            &&& micros_in_range(t) ==> utc_reading(t).wf() && utc_reading(t).epoch() == t
        }),
{
    let wide: i128 = from_us as i128;
    let secs: i128 = if wide >= 0 { wide / 1_000_000 } else { -((-wide) / 1_000_000) };
    assert(secs == whole_seconds(from_us as int));
    let w = match WallTime::from_micros(secs * 1_000_000) {
        Some(w) => w,
        None => { return Err(CroniterError::Value(String::from_str("timestamp out of range"))); },
    };
    proof {
        let w2 = utc_reading(secs * 1_000_000);
        assert(w.wf() && w.epoch() == secs * 1_000_000);
        assert(w2.wf() && w2.epoch() == secs * 1_000_000);
        assert(w2 == w) by {
            assert(crate::datetime::valid_civil(w2.year as int, w2.month as int, w2.day as int,
                w2.hour as int, w2.minute as int, w2.second as int, w2.micro as int));
            crate::datetime::lemma_epoch_injective(w, w2.year as int, w2.month as int, w2.day as int,
                w2.hour as int, w2.minute as int, w2.second as int, w2.micro as int);
        }
    }
    if field_index == MINUTE_FIELD {
        Ok(w.minute % step)
    } else if field_index == HOUR_FIELD {
        Ok(w.hour % step)
    } else if field_index == DAY_FIELD {
        Ok((w.day - 1) % step + 1)
    } else if field_index == MONTH_FIELD {
        Ok((w.month - 1) % step + 1)
    } else if field_index == DOW_FIELD {
        Ok(w.weekday_from_sunday() % step)
    } else {
        Err(CroniterError::Value(String::from_str("Can't get current date number for index larger than 4")))
    }
}

// ---------------------------------------------------------------------------
// Step ranges.

/// `a, a + s, a + 2s, ...` up to `b`.
pub open spec fn progression(a: int, b: int, s: int) -> Seq<int> {
    if a > b {
        Seq::empty()
    } else {
        Seq::new(((b - a) / s + 1) as nat, |i: int| a + i * s)
    }
}

/// The values of the step range `low-high/step` in a field whose values run
/// from `lo` to `hi`. When `low > high` the range wraps (`sat-sun`,
/// `nov-feb`): it runs to `hi`, then on from `lo`, keeping the step across
/// the wrap where the first part ended within a step of `hi`. `low == high`
/// means the whole cycle.
pub open spec fn spec_step_values(low: int, high: int, step: int, lo: int, hi: int) -> Seq<int> {
    if low > high {
        let first = progression(low, hi, step);
        let to_skip = if first.len() > 0 {
            let last = first.last();
            let already_skipped = hi - last;
            let curpos = last - lo;
            if curpos + step > hi - lo + 1 && already_skipped < step { step - already_skipped } else { 0 }
        } else {
            0
        };
        if lo + to_skip <= high { first + progression(lo + to_skip, high, step) } else { first }
    } else if low == high {
        progression(lo, hi, step)
    } else {
        progression(low, high, step)
    }
}

proof fn lemma_progression_len(a: int, b: int, s: int, k: int)
    requires
        s > 0,
        k >= 1,
        a + (k - 1) * s <= b < a + k * s,
    ensures
        (b - a) / s + 1 == k,
{
    assert((b - a) / s == k - 1) by (nonlinear_arith)
        requires
            s > 0,
            k >= 1,
            (k - 1) * s <= b - a < k * s;
}

/// A progression whose start is not past its end is not empty.
proof fn lemma_progression_nonempty(a: int, b: int, s: int)
    requires
        s > 0,
        a <= b,
    ensures
        progression(a, b, s).len() >= 1,
{
    assert((b - a) / s >= 0) by (nonlinear_arith)
        requires
            s > 0,
            b - a >= 0;
}

/// Every value of a progression lies between its ends.
pub proof fn lemma_progression_bounds(a: int, b: int, s: int, i: int)
    requires
        s > 0,
        a <= b,
        0 <= i < progression(a, b, s).len(),
    ensures
        a <= progression(a, b, s)[i] <= b,
{
    let q = (b - a) / s;
    assert(i <= q);
    assert(q * s <= b - a) by (nonlinear_arith)
        requires
            s > 0,
            q == (b - a) / s,
            b - a >= 0;
    assert(0 <= i * s <= q * s) by (nonlinear_arith)
        requires
            s > 0,
            0 <= i <= q;
}

/// Appends `progression(a, b, s)` to `out`.
fn push_progression(out: &mut Vec<i64>, a: i64, b: i64, s: i64)
    requires
        s > 0,
        0 <= a,
        b < 0x10000,
    ensures
        final(out)@.len() == old(out)@.len() + progression(a as int, b as int, s as int).len(),
        forall|i: int| 0 <= i < old(out)@.len() ==> #[trigger] final(out)@[i] == old(out)@[i],
        forall|i: int| 0 <= i < progression(a as int, b as int, s as int).len() ==>
            #[trigger] final(out)@[old(out)@.len() + i] == progression(a as int, b as int, s as int)[i],
{
    if a > b {
        return;
    }
    let ghost start = out@.len();
    let mut v: i128 = a as i128;
    let mut k: usize = 0;
    while v <= b as i128
        invariant
            s > 0,
            0 <= a <= b < 0x10000,
            v == a + k * s,
            k <= b - a + 1,
            out@.len() == start + k,
            forall|i: int| 0 <= i < start ==> #[trigger] out@[i] == old(out)@[i],
            forall|i: int| 0 <= i < k ==> #[trigger] out@[start + i] == a + i * s,
            old(out)@.len() == start,
            k > 0 ==> a + (k - 1) * s <= b,
        decreases b - v + s,
    {
        proof {
            assert(k * s >= k) by (nonlinear_arith) requires s > 0, k >= 0;
        }
        out.push(v as i64);
        proof {
            assert(a + (k + 1) * s == a + k * s + s) by (nonlinear_arith);
        }
        v = v + s as i128;
        k = k + 1;
    }
    proof {
        if k == 0 {
            assert(false);
        }
        lemma_progression_len(a as int, b as int, s as int, k as int);
    }
}

/// `spec_step_values`: the values of a (possibly wrapping) step range.
fn step_values(low: i64, high: i64, step: i64, lo: i64, hi: i64) -> (r: Vec<i64>)
    requires
        step > 0,
        0 <= lo <= hi < 0x10000,
        0 <= low <= hi,
        high <= hi,
    ensures
        r@.len() == spec_step_values(low as int, high as int, step as int, lo as int, hi as int).len(),
        r@.len() > 0,
        forall|i: int| 0 <= i < r@.len() ==>
            #[trigger] r@[i] == spec_step_values(low as int, high as int, step as int, lo as int, hi as int)[i],
{
    let mut out: Vec<i64> = Vec::new();
    proof {
        lemma_progression_nonempty(low as int, hi as int, step as int);
        lemma_progression_nonempty(lo as int, hi as int, step as int);
        if low <= high {
            lemma_progression_nonempty(low as int, high as int, step as int);
        }
    }
    if low > high {
        push_progression(&mut out, low, hi, step);
        let ghost first = progression(low as int, hi as int, step as int);
        assert(forall|i: int| 0 <= i < first.len() ==> out@[i] == first[i]) by {
            assert forall|i: int| 0 <= i < first.len() implies out@[i] == first[i] by {
                assert(out@[0 + i] == first[i]);
            }
        }
        let mut to_skip: i64 = 0;
        if out.len() > 0 {
            let last = out[out.len() - 1];
            assert(last == first.last());
            proof {
                lemma_progression_bounds(low as int, hi as int, step as int, first.len() - 1);
            }
            let already_skipped = hi - last;
            let curpos = last - lo;
            if curpos as i128 + step as i128 > (hi - lo + 1) as i128 && already_skipped < step {
                to_skip = step - already_skipped;
            }
        }
        if lo as i128 + to_skip as i128 <= high as i128 {
            let ghost before = out@;
            push_progression(&mut out, lo + to_skip, high, step);
            proof {
                let second = progression(lo + to_skip, high as int, step as int);
                assert(out@.len() == (first + second).len());
                assert forall|i: int| 0 <= i < out@.len() implies out@[i] == (first + second)[i] by {
                    if i >= first.len() {
                        assert(out@[before.len() + (i - before.len())] == second[i - before.len()]);
                    }
                }
            }
        } else {
            assert(out@.len() == first.len());
        }
    } else if low == high {
        push_progression(&mut out, lo, hi, step);
        assert forall|i: int| 0 <= i < out@.len() implies out@[i] == progression(lo as int, hi as int, step as int)[i] by {
            assert(out@[0 + i] == progression(lo as int, hi as int, step as int)[i]);
        }
    } else {
        push_progression(&mut out, low, high, step);
        assert forall|i: int| 0 <= i < out@.len() implies out@[i] == progression(low as int, high as int, step as int)[i] by {
            assert(out@[0 + i] == progression(low as int, high as int, step as int)[i]);
        }
    }
    out
}

// ---------------------------------------------------------------------------
// What one comma-separated element of a field yields.

/// The facts about a field that the reading of its elements depends on.
pub struct FieldCtx {
    /// The field's index (minute, hour, day, month, day of week, second, year).
    pub field: int,
    /// The number of columns of the expression.
    pub columns: int,
    /// The expression as given, for error messages.
    pub format: Seq<char>,
    /// The columns joined by spaces, for the unknown-name message.
    pub joined: Seq<char>,
    /// The instant a step range starts from, when asked for.
    pub from_us: Option<i64>,
}

/// What an element yields.
pub enum Yield {
    /// Values, with the `#`/`l` qualifier they carry (day of week only).
    Items(Seq<Item>, Option<Nth>),
    /// A `W` day.
    Nearest(int),
}

/// The `he#last` reading of an element, if it has one.
pub open spec fn nth_reading(e: Seq<char>) -> Option<(Seq<char>, Seq<char>)> {
    if exists|he: Seq<char>, last: Seq<char>| is_nth_form(e, he, last) {
        Some(choose|he: Seq<char>, last: Seq<char>| is_nth_form(e, he, last))
    } else {
        None
    }
}

/// The digits of an `lN` element, if it is one.
pub open spec fn last_reading(e: Seq<char>) -> Option<Seq<char>> {
    if e.len() > 0 && e[0] == 'l' && all_digits(e.drop_first()) { Some(e.drop_first()) } else { None }
}

/// The step-range reading of a text, if it has one.
pub open spec fn step_reading(t: Seq<char>) -> Option<(Seq<char>, Seq<char>, Option<Seq<char>>)> {
    if exists|l: Seq<char>, h: Seq<char>, st: Option<Seq<char>>| is_step_form(t, l, h, st) {
        Some(choose|l: Seq<char>, h: Seq<char>, st: Option<Seq<char>>| is_step_form(t, l, h, st))
    } else {
        None
    }
}

/// Where `v/s` splits, if it does.
pub open spec fn value_slash_split(e: Seq<char>) -> Option<int> {
    if exists|k: int| is_value_slash_at(e, k) { Some(choose|k: int| is_value_slash_at(e, k)) } else { None }
}

/// `*/s` read as `lo-hi/s`.
pub open spec fn star_step_text(e: Seq<char>, lo: int, hi: int) -> Seq<char> {
    decimal(lo) + "-"@ + decimal(hi) + e.subrange(1, e.len() as int)
}

/// `v/s` read as `v-hi/s`.
pub open spec fn value_step_text(e: Seq<char>, k: int, hi: int) -> Seq<char> {
    e.subrange(0, k) + "-"@ + decimal(hi) + "/"@ + e.subrange(k + 1, e.len() as int)
}

/// The step range an element reads as once `*/s` and `v/s` are written out
/// in full.
pub open spec fn range_reading(e: Seq<char>, lo: int, hi: int) -> Option<(Seq<char>, Seq<char>, Option<Seq<char>>)> {
    let t = if is_star_slash(e) { star_step_text(e, lo, hi) } else { e };
    match step_reading(t) {
        Some(p) => Some(p),
        None => match value_slash_split(e) {
            Some(k) => step_reading(value_step_text(e, k, hi)),
            None => None,
        },
    }
}

/// The text an item is written as.
pub open spec fn item_text(it: Item) -> Seq<char> {
    match it {
        Item::Star => "*"@,
        Item::Num(n) => decimal(n as int),
        Item::Last => "l"@,
    }
}

/// One end of a step range: digits as they are, a name as the number it
/// stands for.
pub open spec fn band_text(c: FieldCtx, s: Seq<char>) -> Result<Seq<char>, ErrorView> {
    if all_digits(s) {
        Ok(s)
    } else {
        match spec_alpha(c.field, s) {
            Some(it) => Ok(item_text(it)),
            None => Err(ErrorView::NotAlpha(not_alpha_message(c.joined))),
        }
    }
}

pub open spec fn aliased_value(c: FieldCtx, v: int) -> int {
    match spec_value_alias(Item::Num(v as i64), c.field, c.columns) {
        Item::Num(n) => n as int,
        _ => v,
    }
}

/// The item a value of a step range stands for.
pub open spec fn range_item(c: FieldCtx, v: int) -> Item {
    spec_value_alias(Item::Num(v as i64), c.field, c.columns)
}

/// The items the values of a step range stand for.
pub open spec fn items_of(c: FieldCtx, vals: Seq<int>) -> Seq<Item> {
    Seq::new(vals.len(), |i: int| range_item(c, vals[i]))
}

pub open spec fn out_of_field(c: FieldCtx, it: Item) -> bool {
    it matches Item::Num(n) && (n < range_low(c.field) || n > range_high(c.field))
}

pub open spec fn out_of_range_error(c: FieldCtx) -> ErrorView {
    ErrorView::BadCron(bracketed(c.format, " is not acceptable, out of range"@))
}

/// Where a step range starts: its lower end, or the current date's number
/// on the step grid when a start instant is given.
pub open spec fn range_start(c: FieldCtx, step: int, low: int) -> Result<int, ErrorView> {
    match c.from_us {
        Some(us) if us != 0 => {
            let t = whole_seconds(us as int) * 1_000_000;
            if !micros_in_range(t) {
                Err(ErrorView::Value("timestamp out of range"@))
            } else if c.field > 4 {
                Err(ErrorView::Value("Can't get current date number for index larger than 4"@))
            } else {
                Ok(current_date_number(c.field, step, utc_reading(t)))
            }
        },
        _ => Ok(low),
    }
}

/// The reading (as UTC) of an instant.
pub open spec fn utc_reading(t: int) -> WallTime {
    crate::datetime::reading_at(t)
}

/// What a step range `low-high/step` yields.
pub open spec fn range_yield(c: FieldCtx, low0: Seq<char>, high0: Seq<char>, step0: Option<Seq<char>>, nth: Option<Nth>) -> Result<Yield, ErrorView> {
    let lo = range_low(c.field);
    let hi = range_high(c.field);
    let high1 = if c.field == DAY_FIELD && high0 == "l"@ { "31"@ } else { high0 };
    let step_text = match step0 { Some(d) => d, None => "1"@ };
    let step = digits_value(step_text);
    match band_text(c, low0) {
        Err(e) => Err(e),
        Ok(low) => match band_text(c, high1) {
            Err(e) => Err(e),
            Ok(high) => {
                if step > i64::MAX {
                    Err(ErrorView::BadCron(bracketed(c.format, " step '"@ + step_text + "' in field "@
                        + decimal(c.field) + " is not acceptable"@)))
                } else if step == 0 {
                    Err(ErrorView::BadCron(bracketed(c.format, " step '"@ + decimal(0) + "' in field "@
                        + decimal(c.field) + " is not acceptable"@)))
                } else if !all_digits(low) || !all_digits(high) || digits_value(low) > i64::MAX
                    || digits_value(high) > i64::MAX {
                    Err(ErrorView::BadCron(bracketed(c.format, " bands '"@ + low + "-"@ + high + "' in field "@
                        + decimal(c.field) + " are not acceptable"@)))
                } else {
                    range_values_yield(c, digits_value(low), digits_value(high), step, nth)
                }
            },
        },
    }
}

/// What a single value (`*`, a number or a name) yields.
pub open spec fn plain_yield(c: FieldCtx, e: Seq<char>, nth: Option<Nth>) -> Result<Yield, ErrorView> {
    if e.len() > 0 && e[0] == '-' {
        Err(ErrorView::BadCron(bracketed(c.format, " is not acceptable, negative numbers not allowed"@)))
    } else {
        let item: Result<Item, ErrorView> = if e == "*"@ {
            Ok(Item::Star)
        } else if all_digits(e) {
            if digits_value(e) > i64::MAX {
                Err(ErrorView::BadCron(bracketed(c.format, " is not acceptable"@)))
            } else {
                Ok(Item::Num(digits_value(e) as i64))
            }
        } else {
            match spec_alpha(c.field, e) {
                Some(it) => Ok(it),
                None => Err(ErrorView::NotAlpha(not_alpha_message(c.joined))),
            }
        };
        match item {
            Err(err) => Err(err),
            Ok(it) => {
                let it2 = spec_value_alias(it, c.field, c.columns);
                if out_of_field(c, it2) {
                    Err(out_of_range_error(c))
                } else {
                    Ok(Yield::Items(seq![it2], nth))
                }
            },
        }
    }
}

/// What element `e0` of field `c.field` yields; `alone` when it is the
/// field's only element.
///
/// In the day of week, `x#n` qualifies `x` with the `n`-th (1 to 5) and `lN`
/// qualifies `N` with the last of the month. In the day of month, `Nw` /
/// `wN` is the weekday nearest day `N`, which must stand alone. Otherwise
/// the element is a step range or a single value.
pub open spec fn element_yield(c: FieldCtx, e0: Seq<char>, alone: bool) -> Result<Yield, ErrorView> {
    let lo = range_low(c.field);
    let hi = range_high(c.field);
    let special: Result<(Seq<char>, Option<Nth>), ErrorView> = if c.field == DOW_FIELD {
        match nth_reading(e0) {
            Some((he, last)) => if 1 <= digits_value(last) <= 5 {
                Ok((he, Some(Nth::Num(digits_value(last) as i64))))
            } else {
                Err(ErrorView::BadCron(bracketed(c.format, " is not acceptable. Invalid day_of_week value: '"@
                    + last + "'"@)))
            },
            None => match last_reading(e0) {
                Some(last) => Ok((last, Some(Nth::Last))),
                None => Ok((e0, None)),
            },
        }
    } else {
        Ok((e0, None))
    };
    match special {
        Err(err) => Err(err),
        Ok((e, nth)) => {
            if c.field == DAY_FIELD && nearest_w_digits(e) is Some {
                let v = digits_value(nearest_w_digits(e)->0);
                if v > i64::MAX {
                    Err(ErrorView::BadCron(bracketed(c.format, " is not acceptable"@)))
                } else if v < 1 || v > 31 {
                    Err(ErrorView::BadCron(bracketed(c.format, " is not acceptable, nearest weekday day value '"@
                        + decimal(v) + "' out of range"@)))
                } else if !alone {
                    Err(ErrorView::BadCron(bracketed(c.format,
                        " is not acceptable. 'W' can only be used with a single day value, not in a list or range"@)))
                } else {
                    Ok(Yield::Nearest(v))
                }
            } else {
                match range_reading(e, lo, hi) {
                    Some((low, high, step)) => range_yield(c, low, high, step, nth),
                    None => plain_yield(c, e, nth),
                }
            }
        },
    }
}

/// What an element yields, as values the code holds.
pub enum ElementYield {
    Items(Vec<Item>, Option<Nth>),
    Nearest(i64),
}

impl View for ElementYield {
    type V = Yield;

    open spec fn view(&self) -> Yield {
        match self {
            ElementYield::Items(v, n) => Yield::Items(v@, *n),
            ElementYield::Nearest(d) => Yield::Nearest(*d as int),
        }
    }
}

/// What every yield of field `f` looks like: values that can stand in the
/// field (at least one), qualifiers `1..=5` or `l` in the day of week only,
/// and `W` days `1..=31` in the day of month only.
pub open spec fn yield_shape(y: ElementYield, f: int) -> bool {
    match y {
        ElementYield::Items(v, nth) => {
            &&& v@.len() > 0
            &&& forall|i: int| 0 <= i < v@.len() ==> item_in_field(#[trigger] v@[i], f)
            &&& (nth matches Some(Nth::Num(k)) ==> 1 <= k <= 5)
            &&& (nth is Some ==> f == DOW_FIELD)
        },
        ElementYield::Nearest(d) => 1 <= d <= 31 && f == DAY_FIELD,
    }
}

pub open spec fn nth_shape(nth: Option<Nth>, f: int) -> bool {
    &&& (nth matches Some(Nth::Num(k)) ==> 1 <= k <= 5)
    &&& (nth is Some ==> f == DOW_FIELD)
}

pub open spec fn outcome_view(r: Result<ElementYield, CroniterError>) -> Result<Yield, ErrorView> {
    match r {
        Ok(y) => Ok(y@),
        Err(e) => Err(e@),
    }
}

pub open spec fn ctx_of(f: usize, n: usize, format: Seq<char>, joined: Seq<char>, from_us: Option<i64>) -> FieldCtx {
    FieldCtx { field: f as int, columns: n as int, format, joined, from_us }
}

fn bad_cron(m: &Vec<char>) -> (e: CroniterError)
    ensures
        e@ == ErrorView::BadCron(m@),
{
    CroniterError::BadCron(string_of(m))
}

/// `[format]` + `tail`, as a bad-expression error.
fn bracketed_msg(format: &Vec<char>, tail: &str) -> (e: CroniterError)
    ensures
        e@ == ErrorView::BadCron(bracketed(format@, tail@)),
{
    let mut m: Vec<char> = Vec::new();
    extend_str(&mut m, "[");
    extend_chars(&mut m, format);
    extend_str(&mut m, "]");
    extend_str(&mut m, tail);
    proof {
        assert(m@ =~= bracketed(format@, tail@));
    }
    bad_cron(&m)
}

fn item_text_of(it: Item) -> (r: Vec<char>)
    ensures
        r@ == item_text(it),
{
    match it {
        Item::Num(n) => render_int(n),
        Item::Star => {
            let mut v: Vec<char> = Vec::new();
            extend_str(&mut v, "*");
            assert(v@ =~= "*"@);
            v
        },
        Item::Last => {
            let mut v: Vec<char> = Vec::new();
            extend_str(&mut v, "l");
            assert(v@ =~= "l"@);
            v
        },
    }
}

fn is_digits(v: &Vec<char>) -> (r: bool)
    ensures
        r == all_digits(v@),
{
    let r = all_digits_in(v, 0, v.len());
    assert(v@.subrange(0, v@.len() as int) =~= v@);
    r
}

/// `band_text`: one end of a step range.
fn band(f: usize, s: &Vec<char>, joined: &Vec<char>) -> (r: Result<Vec<char>, CroniterError>)
    ensures
        ({
            let c = FieldCtx { field: f as int, columns: 0, format: Seq::empty(), joined: joined@, from_us: None };
            match r {
                Ok(t) => band_text(c, s@) == Ok::<Seq<char>, ErrorView>(t@),
                Err(e) => band_text(c, s@) == Err::<Seq<char>, ErrorView>(e@),
            }
        }),
{
    if is_digits(s) {
        let mut t: Vec<char> = Vec::new();
        extend_chars(&mut t, s);
        assert(t@ =~= s@);
        return Ok(t);
    }
    match alphaconv(f, s, joined) {
        Ok(it) => Ok(item_text_of(it)),
        Err(e) => Err(e),
    }
}

proof fn lemma_band_ctx(c: FieldCtx, d: FieldCtx, s: Seq<char>)
    requires
        c.field == d.field,
        c.joined == d.joined,
    ensures
        band_text(c, s) == band_text(d, s),
{
}

fn is_text(v: &Vec<char>, s: &str) -> (r: bool)
    ensures
        r == (v@ == s@),
{
    crate::text::chars_equal_str(v, s)
}

/// The items a step range's values stand for; an out-of-range error when
/// one of them falls outside the field.
fn range_items(f: usize, n: usize, format: &Vec<char>, vals: &Vec<i64>) -> (r: Result<Vec<Item>, CroniterError>)
    requires
        f < 7,
    ensures
        ({
            let c = FieldCtx { field: f as int, columns: n as int, format: format@, joined: Seq::empty(), from_us: None };
            let items = items_of(c, vals@.map_values(|v: i64| v as int));
            &&& (exists|i: int| 0 <= i < items.len() && out_of_field(c, #[trigger] items[i])) ==> (r matches Err(e) && e@ == out_of_range_error(c))
            &&& !(exists|i: int| 0 <= i < items.len() && out_of_field(c, #[trigger] items[i])) ==> (r matches Ok(v) && v@ == items)
        }),
        r matches Ok(v) ==> v@.len() == vals@.len() && forall|i: int| 0 <= i < v@.len() ==> item_in_field(#[trigger] v@[i], f as int),
{
    let ghost c = FieldCtx { field: f as int, columns: n as int, format: format@, joined: Seq::empty(), from_us: None };
    let ghost items = items_of(c, vals@.map_values(|v: i64| v as int));
    let (lo, hi) = field_range(f);
    let mut out: Vec<Item> = Vec::new();
    let mut i: usize = 0;
    while i < vals.len()
        invariant
            i <= vals@.len(),
            f < 7,
            lo == range_low(f as int),
            hi == range_high(f as int),
            c == (FieldCtx { field: f as int, columns: n as int, format: format@, joined: Seq::empty(), from_us: None }),
            items == items_of(c, vals@.map_values(|v: i64| v as int)),
            out@ == items.subrange(0, i as int),
            forall|k: int| 0 <= k < i ==> !out_of_field(c, #[trigger] items[k]),
            forall|k: int| 0 <= k < i ==> item_in_field(#[trigger] out@[k], f as int),
        decreases vals.len() - i,
    {
        let it = value_alias(Item::Num(vals[i]), f, n);
        assert(it == items[i as int]);
        assert(it is Num);
        if let Item::Num(v) = it {
            if v < lo || v > hi {
                assert(out_of_field(c, items[i as int]));
                return Err(bracketed_msg(format, " is not acceptable, out of range"));
            }
        }
        out.push(it);
        i = i + 1;
        assert(out@ =~= items.subrange(0, i as int));
    }
    assert(out@ =~= items);
    Ok(out)
}

proof fn lemma_mod_le(x: int, s: int)
    requires
        x >= 0,
        s > 0,
    ensures
        0 <= x % s <= x,
{
    assert(0 <= x % s <= x) by (nonlinear_arith)
        requires
            x >= 0,
            s > 0;
}

pub open spec fn opt_chars(o: Option<Vec<char>>) -> Option<Seq<char>> {
    match o {
        Some(v) => Some(v@),
        None => None,
    }
}

/// The part of `range_yield` that follows the parsing of the ends and the
/// step: their aliases, the bounds check, the start and the values.
pub open spec fn range_values_yield(c: FieldCtx, lv: int, hv: int, step: int, nth: Option<Nth>) -> Result<Yield, ErrorView> {
    let lo = range_low(c.field);
    let hi = range_high(c.field);
    let low_v = aliased_value(c, lv);
    let high_v = aliased_value(c, hv);
    if low_v > hi || high_v > hi {
        Err(ErrorView::BadCron(c.format + " is out of bands"@))
    } else {
        match range_start(c, step, low_v) {
            Err(e) => Err(e),
            Ok(start) => {
                let items = items_of(c, spec_step_values(start, high_v, step, lo, hi));
                if exists|i: int| 0 <= i < items.len() && out_of_field(c, #[trigger] items[i]) {
                    Err(out_of_range_error(c))
                } else {
                    Ok(Yield::Items(items, nth))
                }
            },
        }
    }
}

fn read_range_values(f: usize, n: usize, format: &Vec<char>, joined: &Vec<char>, from_us: Option<i64>,
    lv: i64, hv: i64, step: i64, nth: Option<Nth>) -> (r: Result<ElementYield, CroniterError>)
    requires
        f < 7,
        lv >= 0,
        hv >= 0,
        step > 0,
        nth_shape(nth, f as int),
    ensures
        outcome_view(r) == range_values_yield(ctx_of(f, n, format@, joined@, from_us), lv as int, hv as int, step as int, nth),
        r matches Ok(y) ==> yield_shape(y, f as int),
{
    let ghost c = ctx_of(f, n, format@, joined@, from_us);
    let (lo, hi) = field_range(f);
    let low_v = match value_alias(Item::Num(lv), f, n) {
        Item::Num(x) => x,
        _ => lv,
    };
    let high_v = match value_alias(Item::Num(hv), f, n) {
        Item::Num(x) => x,
        _ => hv,
    };
    assert(low_v == aliased_value(c, lv as int));
    assert(high_v == aliased_value(c, hv as int));
    if low_v > hi || high_v > hi {
        let mut m: Vec<char> = Vec::new();
        extend_chars(&mut m, format);
        extend_str(&mut m, " is out of bands");
        return Err(bad_cron(&m));
    }
    assert(0 <= low_v && 0 <= high_v);
    let start = match from_us {
        Some(us) if us != 0 => {
            match low_from_current_date_number(f, step, us) {
                Ok(x) => x,
                Err(e) => { return Err(e); },
            }
        },
        _ => low_v,
    };
    proof {
        if let Some(us) = from_us {
            if us != 0 {
                let w = utc_reading(whole_seconds(us as int) * 1_000_000);
                if f == MINUTE_FIELD { lemma_mod_le(w.minute as int, step as int); }
                if f == HOUR_FIELD { lemma_mod_le(w.hour as int, step as int); }
                if f == DAY_FIELD { lemma_mod_le(w.day - 1, step as int); }
                if f == MONTH_FIELD { lemma_mod_le(w.month - 1, step as int); }
                if f == DOW_FIELD {
                    assert(0 <= w.weekday() < 7);
                    lemma_mod_le(w.weekday(), step as int);
                }
            }
        }
    }
    assert(start == range_start(c, step as int, low_v as int)->Ok_0);
    let vals = step_values(start, high_v, step, lo, hi);
    let ghost sv = spec_step_values(start as int, high_v as int, step as int, lo as int, hi as int);
    let ghost cc = FieldCtx { field: f as int, columns: n as int, format: format@, joined: Seq::empty(), from_us: None };
    proof {
        assert(vals@.map_values(|v: i64| v as int) =~= sv);
        assert(items_of(cc, sv) =~= items_of(c, sv));
    }
    let items = match range_items(f, n, format, &vals) {
        Ok(v) => v,
        Err(e) => { return Err(e); },
    };
    Ok(ElementYield::Items(items, nth))
}

fn step_error(format: &Vec<char>, step_text: &Vec<char>, f: usize) -> (e: CroniterError)
    requires
        f < 7,
    ensures
        e@ == ErrorView::BadCron(bracketed(format@, " step '"@ + step_text@ + "' in field "@
            + decimal(f as int) + " is not acceptable"@)),
{
    let mut m: Vec<char> = Vec::new();
    extend_str(&mut m, "[");
    extend_chars(&mut m, format);
    extend_str(&mut m, "]");
    extend_str(&mut m, " step '");
    extend_chars(&mut m, step_text);
    extend_str(&mut m, "' in field ");
    extend_int(&mut m, f as i64);
    extend_str(&mut m, " is not acceptable");
    proof {
        assert(m@ =~= bracketed(format@, " step '"@ + step_text@ + "' in field "@
            + decimal(f as int) + " is not acceptable"@));
    }
    bad_cron(&m)
}

fn bands_error(format: &Vec<char>, low: &Vec<char>, high: &Vec<char>, f: usize) -> (e: CroniterError)
    requires
        f < 7,
    ensures
        e@ == ErrorView::BadCron(bracketed(format@, " bands '"@ + low@ + "-"@ + high@ + "' in field "@
            + decimal(f as int) + " are not acceptable"@)),
{
    let mut m: Vec<char> = Vec::new();
    extend_str(&mut m, "[");
    extend_chars(&mut m, format);
    extend_str(&mut m, "]");
    extend_str(&mut m, " bands '");
    extend_chars(&mut m, low);
    extend_str(&mut m, "-");
    extend_chars(&mut m, high);
    extend_str(&mut m, "' in field ");
    extend_int(&mut m, f as i64);
    extend_str(&mut m, " are not acceptable");
    proof {
        assert(m@ =~= bracketed(format@, " bands '"@ + low@ + "-"@ + high@ + "' in field "@
            + decimal(f as int) + " are not acceptable"@));
    }
    bad_cron(&m)
}

/// `range_yield`: what a step range yields.
fn read_range(f: usize, n: usize, format: &Vec<char>, joined: &Vec<char>, from_us: Option<i64>,
    low0: &Vec<char>, high0: &Vec<char>, step0: &Option<Vec<char>>, nth: Option<Nth>) -> (r: Result<ElementYield, CroniterError>)
    requires
        f < 7,
        step0 matches Some(d) ==> all_digits(d@),
        nth_shape(nth, f as int),
    ensures
        outcome_view(r) == range_yield(ctx_of(f, n, format@, joined@, from_us), low0@, high0@, opt_chars(*step0), nth),
        r matches Ok(y) ==> yield_shape(y, f as int),
{
    let ghost c = ctx_of(f, n, format@, joined@, from_us);
    let (lo, hi) = field_range(f);
    let mut high1: Vec<char> = Vec::new();
    if f == DAY_FIELD && is_text(high0, "l") {
        extend_str(&mut high1, "31");
    } else {
        extend_chars(&mut high1, high0);
    }
    assert(high1@ == (if c.field == DAY_FIELD && high0@ == "l"@ { "31"@ } else { high0@ }));
    let mut step_text: Vec<char> = Vec::new();
    match step0 {
        Some(d) => { extend_chars(&mut step_text, d); },
        None => { extend_str(&mut step_text, "1"); },
    }
    assert(step_text@ == (match opt_chars(*step0) { Some(d) => d, None => "1"@ }));
    proof {
        reveal_strlit("1");
        assert(all_digits(step_text@)) by {
            if step0.is_none() {
                assert(crate::text::is_ascii_digit(step_text@[0]));
            }
        }
    }
    proof {
        lemma_band_ctx(c, FieldCtx { field: f as int, columns: 0, format: Seq::empty(), joined: joined@, from_us: None }, low0@);
        lemma_band_ctx(c, FieldCtx { field: f as int, columns: 0, format: Seq::empty(), joined: joined@, from_us: None }, high1@);
    }
    let low = match band(f, low0, joined) {
        Ok(t) => t,
        Err(e) => { return Err(e); },
    };
    let high = match band(f, &high1, joined) {
        Ok(t) => t,
        Err(e) => { return Err(e); },
    };
    let step = match parse_digits(&step_text) {
        Some(v) => v,
        None => { return Err(step_error(format, &step_text, f)); },
    };
    if step == 0 {
        return Err(step_error(format, &render_int(0), f));
    }
    let lv = parse_digits(&low);
    let hv = parse_digits(&high);
    if lv.is_none() || hv.is_none() {
        return Err(bands_error(format, &low, &high, f));
    }
    let lv = lv.unwrap();
    let hv = hv.unwrap();
    read_range_values(f, n, format, joined, from_us, lv, hv, step, nth)
}

/// `plain_yield`: what a single value yields.
fn read_plain(f: usize, n: usize, format: &Vec<char>, joined: &Vec<char>, from_us: Option<i64>,
    e: &Vec<char>, nth: Option<Nth>) -> (r: Result<ElementYield, CroniterError>)
    requires
        f < 7,
        nth_shape(nth, f as int),
    ensures
        outcome_view(r) == plain_yield(ctx_of(f, n, format@, joined@, from_us), e@, nth),
        r matches Ok(y) ==> yield_shape(y, f as int),
{
    let ghost c = ctx_of(f, n, format@, joined@, from_us);
    if e.len() > 0 && e[0] == '-' {
        return Err(bracketed_msg(format, " is not acceptable, negative numbers not allowed"));
    }
    let item = if is_text(e, "*") {
        Item::Star
    } else if is_digits(e) {
        match parse_digits(e) {
            Some(v) => Item::Num(v),
            None => { return Err(bracketed_msg(format, " is not acceptable")); },
        }
    } else {
        match alphaconv(f, e, joined) {
            Ok(it) => it,
            Err(err) => { return Err(err); },
        }
    };
    let it2 = value_alias(item, f, n);
    let (lo, hi) = field_range(f);
    if let Item::Num(v) = it2 {
        if v < lo || v > hi {
            return Err(bracketed_msg(format, " is not acceptable, out of range"));
        }
    }
    let mut items: Vec<Item> = Vec::new();
    items.push(it2);
    assert(items@ =~= seq![it2]);
    Ok(ElementYield::Items(items, nth))
}

/// The text `lo-hi` followed by `e` without its leading `*`.
fn star_step(e: &Vec<char>, lo: i64, hi: i64) -> (t: Vec<char>)
    requires
        e@.len() >= 1,
    ensures
        t@ == star_step_text(e@, lo as int, hi as int),
{
    let mut t: Vec<char> = Vec::new();
    extend_int(&mut t, lo);
    extend_str(&mut t, "-");
    extend_int(&mut t, hi);
    let rest = sub_chars(e, 1, e.len());
    extend_chars(&mut t, &rest);
    t
}

/// The text `e[..k]-hi/e[k+1..]`.
fn value_step(e: &Vec<char>, k: usize, hi: i64) -> (t: Vec<char>)
    requires
        k < e.len(),
    ensures
        t@ == value_step_text(e@, k as int, hi as int),
{
    let mut t = sub_chars(e, 0, k);
    extend_str(&mut t, "-");
    extend_int(&mut t, hi);
    extend_str(&mut t, "/");
    let rest = sub_chars(e, k + 1, e.len());
    extend_chars(&mut t, &rest);
    t
}

/// What a step range or a single value yields (the last part of
/// `element_yield`).
fn read_range_or_plain(f: usize, n: usize, format: &Vec<char>, joined: &Vec<char>, from_us: Option<i64>,
    e: &Vec<char>, nth: Option<Nth>) -> (r: Result<ElementYield, CroniterError>)
    requires
        f < 7,
        nth_shape(nth, f as int),
    ensures
        r matches Ok(y) ==> yield_shape(y, f as int),
        outcome_view(r) == (match range_reading(e@, range_low(f as int), range_high(f as int)) {
            Some((low, high, step)) => range_yield(ctx_of(f, n, format@, joined@, from_us), low, high, step, nth),
            None => plain_yield(ctx_of(f, n, format@, joined@, from_us), e@, nth),
        }),
{
    let (lo, hi) = field_range(f);
    let t = if star_slash(e) { star_step(e, lo, hi) } else { sub_chars(e, 0, e.len()) };
    assert(e@.subrange(0, e@.len() as int) =~= e@);
    match match_step(&t) {
        Some(p) => {
            proof {
                let q = choose|l: Seq<char>, h: Seq<char>, st: Option<Seq<char>>| is_step_form(t@, l, h, st);
                lemma_step_unique(t@, q.0, q.1, q.2, p.low@, p.high@, p.step_view());
                assert(p.step_view() == opt_chars(p.step));
                assert(p.step matches Some(d) ==> all_digits(d@));
            }
            return read_range(f, n, format, joined, from_us, &p.low, &p.high, &p.step, nth);
        },
        None => {},
    }
    match value_slash(e) {
        Some(k) => {
            proof {
                let q = choose|k2: int| is_value_slash_at(e@, k2);
                lemma_value_slash_unique(e@, q, k as int);
            }
            let t2 = value_step(e, k, hi);
            match match_step(&t2) {
                Some(p) => {
                    proof {
                        let q = choose|l: Seq<char>, h: Seq<char>, st: Option<Seq<char>>| is_step_form(t2@, l, h, st);
                        lemma_step_unique(t2@, q.0, q.1, q.2, p.low@, p.high@, p.step_view());
                        assert(p.step_view() == opt_chars(p.step));
                        assert(p.step matches Some(d) ==> all_digits(d@));
                    }
                    read_range(f, n, format, joined, from_us, &p.low, &p.high, &p.step, nth)
                },
                None => read_plain(f, n, format, joined, from_us, e, nth),
            }
        },
        None => read_plain(f, n, format, joined, from_us, e, nth),
    }
}

/// `element_yield`: what one element of field `f` yields.
pub fn read_element(f: usize, n: usize, format: &Vec<char>, joined: &Vec<char>, from_us: Option<i64>,
    e0: &Vec<char>, alone: bool) -> (r: Result<ElementYield, CroniterError>)
    requires
        f < 7,
    ensures
        outcome_view(r) == element_yield(ctx_of(f, n, format@, joined@, from_us), e0@, alone),
        r matches Ok(y) ==> yield_shape(y, f as int),
{
    let ghost c = ctx_of(f, n, format@, joined@, from_us);
    let mut e: Vec<char> = sub_chars(e0, 0, e0.len());
    assert(e@ =~= e0@);
    let mut nth: Option<Nth> = None;
    if f == DOW_FIELD {
        match match_special_dow(e0) {
            SpecialDow::Nth(he, last) => {
                proof {
                    let q = choose|h: Seq<char>, l: Seq<char>| is_nth_form(e0@, h, l);
                    lemma_nth_unique(e0@, q.0, q.1, he@, last@);
                }
                let v = parse_digits(&last);
                match v {
                    Some(x) => {
                        if x < 1 || x > 5 {
                            return Err(quoted_error(format, " is not acceptable. Invalid day_of_week value: '", &last, "'"));
                        }
                        nth = Some(Nth::Num(x));
                    },
                    None => {
                        return Err(quoted_error(format, " is not acceptable. Invalid day_of_week value: '", &last, "'"));
                    },
                }
                e = he;
            },
            SpecialDow::LastOf(last) => {
                proof {
                    assert(e0@.drop_first() =~= last@);
                }
                nth = Some(Nth::Last);
                e = last;
            },
            SpecialDow::Plain => {
                proof {
                    if e0@.len() > 0 && e0@[0] == 'l' && all_digits(e0@.drop_first()) {
                        assert(e0@ =~= seq!['l'] + e0@.drop_first());
                        assert(is_last_nth_form(e0@, e0@.drop_first()));
                    }
                }
            },
        }
    }
    if f == DAY_FIELD {
        match nearest_w(&e) {
            Some(d) => {
                let v = match parse_digits(&d) {
                    Some(v) => v,
                    None => { return Err(bracketed_msg(format, " is not acceptable")); },
                };
                if v < 1 || v > 31 {
                    let mut m: Vec<char> = Vec::new();
                    extend_str(&mut m, "[");
                    extend_chars(&mut m, format);
                    extend_str(&mut m, "]");
                    extend_str(&mut m, " is not acceptable, nearest weekday day value '");
                    extend_int(&mut m, v);
                    extend_str(&mut m, "' out of range");
                    proof {
                        assert(m@ =~= bracketed(format@, " is not acceptable, nearest weekday day value '"@
                            + decimal(v as int) + "' out of range"@));
                    }
                    return Err(bad_cron(&m));
                }
                if !alone {
                    return Err(bracketed_msg(format,
                        " is not acceptable. 'W' can only be used with a single day value, not in a list or range"));
                }
                return Ok(ElementYield::Nearest(v));
            },
            None => {},
        }
    }
    read_range_or_plain(f, n, format, joined, from_us, &e, nth)
}

// ---------------------------------------------------------------------------
// A field: its comma-separated elements, read from the last one back.

/// `str::split(sep)`: the pieces between separators, empty ones included.
pub open spec fn split_on(s: Seq<char>, sep: char) -> Seq<Seq<char>>
    decreases s.len(),
{
    if s.len() == 0 {
        seq![Seq::empty()]
    } else {
        let prev = split_on(s.drop_last(), sep);
        if s.last() == sep {
            prev.push(Seq::empty())
        } else {
            prev.update(prev.len() - 1, prev.last().push(s.last()))
        }
    }
}

proof fn lemma_split_on_nonempty(s: Seq<char>, sep: char)
    ensures
        split_on(s, sep).len() >= 1,
    decreases s.len(),
{
    if s.len() > 0 {
        lemma_split_on_nonempty(s.drop_last(), sep);
    }
}

pub open spec fn views_of(v: Seq<Vec<char>>) -> Seq<Seq<char>> {
    v.map_values(|x: Vec<char>| x@)
}

/// `split_on(v, sep)`.
pub fn split_chars(v: &Vec<char>, sep: char) -> (r: Vec<Vec<char>>)
    ensures
        views_of(r@) == split_on(v@, sep),
{
    let mut out: Vec<Vec<char>> = Vec::new();
    out.push(Vec::new());
    assert(views_of(out@) =~= split_on(v@.subrange(0, 0), sep));
    let mut i: usize = 0;
    while i < v.len()
        invariant
            i <= v@.len(),
            views_of(out@) == split_on(v@.subrange(0, i as int), sep),
            out@.len() >= 1,
        decreases v.len() - i,
    {
        let c = v[i];
        let ghost pre = v@.subrange(0, i as int);
        assert(v@.subrange(0, i + 1).drop_last() =~= pre);
        proof {
            lemma_split_on_nonempty(pre, sep);
        }
        if c == sep {
            out.push(Vec::new());
            assert(views_of(out@) =~= split_on(v@.subrange(0, i + 1), sep));
        } else {
            let k = out.len() - 1;
            let mut last = out.pop().unwrap();
            last.push(c);
            out.push(last);
            assert(views_of(out@) =~= split_on(v@.subrange(0, i + 1), sep));
        }
        i = i + 1;
    }
    assert(v@.subrange(0, v@.len() as int) =~= v@);
    out
}

/// What the elements `toks[k..]` of a field yield, read from the last one
/// back to the first; the first refusal met stops the field.
pub open spec fn elements_outcome(c: FieldCtx, toks: Seq<Seq<char>>, k: int) -> Result<Seq<Yield>, ErrorView>
    decreases toks.len() - k,
{
    if k < 0 || k >= toks.len() {
        Ok(Seq::empty())
    } else {
        match elements_outcome(c, toks, k + 1) {
            Err(e) => Err(e),
            Ok(ys) => match element_yield(c, toks[k], toks.len() == 1) {
                Err(e) => Err(e),
                Ok(y) => Ok(ys.push(y)),
            },
        }
    }
}

/// A refusal stops the field: it is the outcome of reading from any
/// earlier element on.
proof fn lemma_refusal_stops(c: FieldCtx, toks: Seq<Seq<char>>, j: int, k: int)
    requires
        0 <= j <= k,
        elements_outcome(c, toks, k) is Err,
    ensures
        elements_outcome(c, toks, j) == elements_outcome(c, toks, k),
    decreases k - j,
{
    if j < k {
        lemma_refusal_stops(c, toks, j + 1, k);
    }
}

pub open spec fn yields_view(v: Seq<ElementYield>) -> Seq<Yield> {
    v.map_values(|y: ElementYield| y@)
}

/// `elements_outcome`: reads every element of a field.
fn read_elements(f: usize, n: usize, format: &Vec<char>, joined: &Vec<char>, from_us: Option<i64>,
    toks: &Vec<Vec<char>>) -> (r: Result<Vec<ElementYield>, CroniterError>)
    requires
        f < 7,
    ensures
        ({
            let c = ctx_of(f, n, format@, joined@, from_us);
            match r {
                Ok(ys) => elements_outcome(c, views_of(toks@), 0) == Ok::<Seq<Yield>, ErrorView>(yields_view(ys@)),
                Err(e) => elements_outcome(c, views_of(toks@), 0) == Err::<Seq<Yield>, ErrorView>(e@),
            }
        }),
        r matches Ok(ys) ==> ys@.len() == toks@.len() && forall|k: int| 0 <= k < ys@.len() ==> yield_shape(#[trigger] ys@[k], f as int),
{
    let ghost c = ctx_of(f, n, format@, joined@, from_us);
    let ghost tv = views_of(toks@);
    let mut ys: Vec<ElementYield> = Vec::new();
    let mut i: usize = toks.len();
    let alone = toks.len() == 1;
    assert(elements_outcome(c, tv, i as int) == Ok::<Seq<Yield>, ErrorView>(Seq::empty()));
    assert(yields_view(ys@) =~= Seq::<Yield>::empty());
    while i > 0
        invariant
            i <= toks@.len(),
            f < 7,
            c == ctx_of(f, n, format@, joined@, from_us),
            tv == views_of(toks@),
            alone == (toks@.len() == 1),
            elements_outcome(c, tv, i as int) == Ok::<Seq<Yield>, ErrorView>(yields_view(ys@)),
            ys@.len() == toks@.len() - i,
            forall|k: int| 0 <= k < ys@.len() ==> yield_shape(#[trigger] ys@[k], f as int),
        decreases i,
    {
        i = i - 1;
        assert(tv[i as int] == toks@[i as int]@);
        assert(tv.len() == toks@.len());
        let ghost before = yields_view(ys@);
        match read_element(f, n, format, joined, from_us, &toks[i], alone) {
            Ok(y) => {
                ys.push(y);
                assert(yields_view(ys@) =~= before.push(y@));
                assert(elements_outcome(c, tv, i as int) == Ok::<Seq<Yield>, ErrorView>(before.push(y@)));
            },
            Err(e) => {
                assert(elements_outcome(c, tv, i as int) == Err::<Seq<Yield>, ErrorView>(e@));
                proof {
                    lemma_refusal_stops(c, tv, 0, i as int);
                }
                return Err(e);
            },
        }
    }
    Ok(ys)
}

// ---------------------------------------------------------------------------
// The items of a field, sorted and without repeats.

/// The order of items: `*`, then numbers by value, then `l`.
pub open spec fn item_lt(a: Item, b: Item) -> bool {
    match (a, b) {
        (Item::Star, Item::Num(_)) => true,
        (Item::Star, Item::Last) => true,
        (Item::Num(x), Item::Num(y)) => x < y,
        (Item::Num(_), Item::Last) => true,
        _ => false,
    }
}

pub open spec fn strictly_sorted(s: Seq<Item>) -> bool {
    forall|i: int, j: int| 0 <= i < j < s.len() ==> item_lt(#[trigger] s[i], #[trigger] s[j])
}

fn item_less(a: Item, b: Item) -> (r: bool)
    ensures
        r == item_lt(a, b),
{
    match (a, b) {
        (Item::Star, Item::Num(_)) => true,
        (Item::Star, Item::Last) => true,
        (Item::Num(x), Item::Num(y)) => x < y,
        (Item::Num(_), Item::Last) => true,
        _ => false,
    }
}

/// Adds `x` to a sorted list of distinct items, keeping it so.
fn insert_sorted(v: &mut Vec<Item>, x: Item)
    requires
        strictly_sorted(old(v)@),
    ensures
        strictly_sorted(final(v)@),
        forall|y: Item| final(v)@.contains(y) <==> (old(v)@.contains(y) || y == x),
{
    let mut p: usize = 0;
    while p < v.len() && item_less(v[p], x)
        invariant
            p <= v@.len(),
            forall|i: int| 0 <= i < p ==> item_lt(#[trigger] v@[i], x),
        decreases v.len() - p,
    {
        p = p + 1;
    }
    if p < v.len() && v[p].same(&x) {
        return;
    }
    let ghost old_v = v@;
    v.insert(p, x);
    proof {
        assert(v@ == old_v.insert(p as int, x));
        assert forall|i: int, j: int| 0 <= i < j < v@.len() implies item_lt(#[trigger] v@[i], #[trigger] v@[j]) by {
            if j < p {
            } else if i < p && j == p {
            } else if i < p && j > p {
                assert(item_lt(old_v[i], x));
                assert(v@[j] == old_v[j - 1]);
                if j - 1 > p {
                    assert(item_lt(old_v[p as int], old_v[j - 1]));
                }
                assert(!item_lt(old_v[p as int], x));
            } else if i == p {
                assert(v@[j] == old_v[j - 1]);
                assert(!item_lt(old_v[p as int], x));
                assert(old_v[p as int] != x);
                if j - 1 > p {
                    assert(item_lt(old_v[p as int], old_v[j - 1]));
                }
            } else {
                assert(v@[i] == old_v[i - 1]);
                assert(v@[j] == old_v[j - 1]);
            }
        }
        assert forall|y: Item| v@.contains(y) <==> (old_v.contains(y) || y == x) by {
            if v@.contains(y) {
                let k = choose|k: int| 0 <= k < v@.len() && v@[k] == y;
                if k < p {
                    assert(old_v[k] == y);
                } else if k > p {
                    assert(old_v[k - 1] == y);
                }
            }
            if old_v.contains(y) {
                let k = choose|k: int| 0 <= k < old_v.len() && old_v[k] == y;
                if k < p {
                    assert(v@[k] == y);
                } else {
                    assert(v@[k + 1] == y);
                }
            }
            if y == x {
                assert(v@[p as int] == x);
            }
        }
    }
}

/// The items an element yields.
pub open spec fn yield_items(y: Yield) -> Seq<Item> {
    match y {
        Yield::Items(its, _) => its,
        Yield::Nearest(d) => seq![Item::Num(d as i64)],
    }
}

/// Some yield among the first `k` gives item `x`.
pub open spec fn yields_item_before(ys: Seq<Yield>, k: int, x: Item) -> bool {
    exists|q: int| 0 <= q < k && #[trigger] yield_items(ys[q]).contains(x)
}

/// Some yield gives item `x`.
pub open spec fn yields_item(ys: Seq<Yield>, x: Item) -> bool {
    yields_item_before(ys, ys.len() as int, x)
}

/// The items of the yields `ys`, sorted and without repeats.
fn collect_items(ys: &Vec<ElementYield>, f: usize) -> (r: Vec<Item>)
    requires
        forall|k: int| 0 <= k < ys@.len() ==> yield_shape(#[trigger] ys@[k], f as int),
    ensures
        strictly_sorted(r@),
        forall|x: Item| r@.contains(x) <==> yields_item(yields_view(ys@), x),
        forall|i: int| 0 <= i < r@.len() ==> item_in_field(#[trigger] r@[i], f as int),
        ys@.len() > 0 ==> r@.len() > 0,
{
    let ghost yv = yields_view(ys@);
    let mut out: Vec<Item> = Vec::new();
    let mut k: usize = 0;
    while k < ys.len()
        invariant
            k <= ys@.len(),
            yv == yields_view(ys@),
            forall|q: int| 0 <= q < ys@.len() ==> yield_shape(#[trigger] ys@[q], f as int),
            strictly_sorted(out@),
            forall|x: Item| out@.contains(x) <==> yields_item_before(yv, k as int, x),
            forall|i: int| 0 <= i < out@.len() ==> item_in_field(#[trigger] out@[i], f as int),
            k > 0 ==> out@.len() > 0,
        decreases ys.len() - k,
    {
        let ghost items = yield_items(yv[k as int]);
        match &ys[k] {
            ElementYield::Items(v, _) => {
                let mut j: usize = 0;
                while j < v.len()
                    invariant
                        j <= v@.len(),
                        k < ys@.len(),
                        yv == yields_view(ys@),
                        items == yield_items(yv[k as int]),
                        items == v@,
                        forall|i: int| 0 <= i < v@.len() ==> item_in_field(#[trigger] v@[i], f as int),
                        v@.len() > 0,
                        strictly_sorted(out@),
                        forall|x: Item| out@.contains(x) <==> (yields_item_before(yv, k as int, x) || v@.subrange(0, j as int).contains(x)),
                        forall|i: int| 0 <= i < out@.len() ==> item_in_field(#[trigger] out@[i], f as int),
                        j > 0 || k > 0 ==> out@.len() > 0,
                    decreases v.len() - j,
                {
                    let ghost before = out@;
                    insert_sorted(&mut out, v[j]);
                    proof {
                        assert forall|x: Item| out@.contains(x) <==> (yields_item_before(yv, k as int, x) || v@.subrange(0, j + 1).contains(x)) by {
                            if v@.subrange(0, j + 1).contains(x) && !v@.subrange(0, j as int).contains(x) {
                                let q = choose|q: int| 0 <= q < j + 1 && #[trigger] v@.subrange(0, j + 1)[q] == x;
                                if q < j {
                                    assert(v@.subrange(0, j as int)[q] == x);
                                }
                            }
                            if v@.subrange(0, j as int).contains(x) {
                                let q = choose|q: int| 0 <= q < j && #[trigger] v@.subrange(0, j as int)[q] == x;
                                assert(v@.subrange(0, j + 1)[q] == x);
                            }
                            if x == v@[j as int] {
                                assert(v@.subrange(0, j + 1)[j as int] == x);
                            }
                        }
                        assert forall|i: int| 0 <= i < out@.len() implies item_in_field(#[trigger] out@[i], f as int) by {
                            assert(out@.contains(out@[i]));
                            if !before.contains(out@[i]) {
                                assert(out@[i] == v@[j as int]);
                            } else {
                                let q = choose|q: int| 0 <= q < before.len() && #[trigger] before[q] == out@[i];
                            }
                        }
                        assert(out@.contains(v@[j as int]));
                    }
                    j = j + 1;
                }
                proof {
                    assert(v@.subrange(0, v@.len() as int) =~= v@);
                    assert forall|x: Item| out@.contains(x) <==> yields_item_before(yv, k + 1, x) by {
                        if v@.contains(x) {
                            assert(yield_items(yv[k as int]).contains(x));
                        }
                        if yields_item_before(yv, k + 1, x) && !yields_item_before(yv, k as int, x) {
                            let q = choose|q: int| 0 <= q < k + 1 && #[trigger] yield_items(yv[q]).contains(x);
                            assert(q == k);
                        }
                    }
                }
            },
            ElementYield::Nearest(d) => {
                let ghost before = out@;
                let it = Item::Num(*d);
                insert_sorted(&mut out, it);
                proof {
                    assert(items == seq![it]);
                    assert forall|x: Item| out@.contains(x) <==> yields_item_before(yv, k + 1, x) by {
                        if x == it {
                            assert(items[0] == x);
                            assert(yield_items(yv[k as int]).contains(x));
                        }
                        if yields_item_before(yv, k + 1, x) && !yields_item_before(yv, k as int, x) {
                            let q = choose|q: int| 0 <= q < k + 1 && #[trigger] yield_items(yv[q]).contains(x);
                            assert(q == k);
                        }
                    }
                    assert forall|i: int| 0 <= i < out@.len() implies item_in_field(#[trigger] out@[i], f as int) by {
                        assert(out@.contains(out@[i]));
                        if !before.contains(out@[i]) {
                            assert(out@[i] == it);
                        } else {
                            let q = choose|q: int| 0 <= q < before.len() && #[trigger] before[q] == out@[i];
                        }
                    }
                    assert(out@.contains(it));
                }
            },
        }
        k = k + 1;
    }
    out
}

/// Yield `y` puts qualifier `n` on weekday `w`.
pub open spec fn registers(y: Yield, w: int, n: Nth) -> bool {
    y matches Yield::Items(its, Some(m)) && m == n && its.contains(Item::Num(w as i64))
}

pub open spec fn yields_nth_before(ys: Seq<Yield>, k: int, w: int, n: Nth) -> bool {
    exists|q: int| 0 <= q < k && #[trigger] registers(ys[q], w, n)
}

/// Some yield puts qualifier `n` on weekday `w`.
pub open spec fn yields_nth(ys: Seq<Yield>, w: int, n: Nth) -> bool {
    yields_nth_before(ys, ys.len() as int, w, n)
}

pub open spec fn no_repeats<T>(s: Seq<T>) -> bool {
    forall|i: int, j: int| 0 <= i < j < s.len() ==> #[trigger] s[i] != #[trigger] s[j]
}

/// The qualifier table of the yields `ys`: for each weekday, the qualifiers
/// put on it, each once.
pub open spec fn nth_table(ys: Seq<Yield>, t: Seq<Vec<Nth>>) -> bool {
    &&& t.len() == 7
    &&& forall|w: int, n: Nth| 0 <= w < 7 ==> (#[trigger] t[w]@.contains(n) <==> yields_nth(ys, w, n))
    &&& forall|w: int| 0 <= w < 7 ==> no_repeats(#[trigger] t[w]@)
}

fn nth_in(list: &Vec<Nth>, n: Nth) -> (r: bool)
    ensures
        r == list@.contains(n),
{
    let mut i: usize = 0;
    while i < list.len()
        invariant
            i <= list@.len(),
            forall|j: int| 0 <= j < i ==> list@[j] != n,
        decreases list.len() - i,
    {
        if list[i].same(&n) {
            return true;
        }
        i = i + 1;
    }
    false
}

/// `list` with `n` added if it is not there.
fn with_nth(list: &Vec<Nth>, n: Nth) -> (r: Vec<Nth>)
    requires
        no_repeats(list@),
    ensures
        no_repeats(r@),
        forall|m: Nth| r@.contains(m) <==> (list@.contains(m) || m == n),
        forall|i: int| 0 <= i < r@.len() ==> (#[trigger] r@[i] == n || list@.contains(r@[i])),
{
    let mut out: Vec<Nth> = Vec::new();
    let mut i: usize = 0;
    while i < list.len()
        invariant
            i <= list@.len(),
            out@ == list@.subrange(0, i as int),
        decreases list.len() - i,
    {
        out.push(list[i]);
        i = i + 1;
        assert(out@ =~= list@.subrange(0, i as int));
    }
    assert(out@ =~= list@);
    if !nth_in(list, n) {
        out.push(n);
        proof {
            assert forall|m: Nth| out@.contains(m) <==> (list@.contains(m) || m == n) by {
                if out@.contains(m) {
                    let q = choose|q: int| 0 <= q < out@.len() && #[trigger] out@[q] == m;
                    if q < list@.len() {
                        assert(list@[q] == m);
                    }
                }
                if list@.contains(m) {
                    let q = choose|q: int| 0 <= q < list@.len() && #[trigger] list@[q] == m;
                    assert(out@[q] == m);
                }
                if m == n {
                    assert(out@[list@.len() as int] == n);
                }
            }
            assert forall|i: int, j: int| 0 <= i < j < out@.len() implies #[trigger] out@[i] != #[trigger] out@[j] by {
                if j == list@.len() {
                    assert(out@[i] == list@[i]);
                }
            }
        }
    }
    out
}

pub open spec fn yield_shapes(ys: Seq<ElementYield>, f: int) -> bool {
    forall|k: int| 0 <= k < ys.len() ==> yield_shape(#[trigger] ys[k], f)
}

/// The qualifier table of the yields of the day-of-week field.
fn collect_nth(ys: &Vec<ElementYield>) -> (r: Vec<Vec<Nth>>)
    requires
        yield_shapes(ys@, DOW_FIELD as int),
    ensures
        nth_table(yields_view(ys@), r@),
        crate::calc::nth_wf(r@),
{
    let ghost yv = yields_view(ys@);
    let mut table: Vec<Vec<Nth>> = Vec::new();
    let mut w: usize = 0;
    while w < 7
        invariant
            w <= 7,
            table@.len() == w,
            forall|v: int| 0 <= v < w ==> #[trigger] table@[v]@.len() == 0,
        decreases 7 - w,
    {
        table.push(Vec::new());
        w = w + 1;
    }
    let mut k: usize = 0;
    while k < ys.len()
        invariant
            k <= ys@.len(),
            yv == yields_view(ys@),
            yield_shapes(ys@, DOW_FIELD as int),
            table@.len() == 7,
            forall|v: int, n: Nth| 0 <= v < 7 ==> (#[trigger] table@[v]@.contains(n) <==> yields_nth_before(yv, k as int, v, n)),
            forall|v: int| 0 <= v < 7 ==> no_repeats(#[trigger] table@[v]@),
            forall|v: int, i: int| 0 <= v < 7 && 0 <= i < table@[v]@.len() ==>
                (#[trigger] table@[v]@[i] matches Nth::Num(x) ==> 1 <= x <= 5),
        decreases ys.len() - k,
    {
        assert(yield_shape(ys@[k as int], DOW_FIELD as int));
        match &ys[k] {
            ElementYield::Items(v, Some(m)) => {
                let m = *m;
                let mut j: usize = 0;
                while j < v.len()
                    invariant
                        j <= v@.len(),
                        k < ys@.len(),
                        yv == yields_view(ys@),
                        yv[k as int] == Yield::Items(v@, Some(m)),
                        m matches Nth::Num(x) ==> 1 <= x <= 5,
                        table@.len() == 7,
                        forall|u: int, n: Nth| 0 <= u < 7 ==> (#[trigger] table@[u]@.contains(n) <==>
                            (yields_nth_before(yv, k as int, u, n) || (n == m && v@.subrange(0, j as int).contains(Item::Num(u as i64))))),
                        forall|u: int| 0 <= u < 7 ==> no_repeats(#[trigger] table@[u]@),
                        forall|u: int, i: int| 0 <= u < 7 && 0 <= i < table@[u]@.len() ==>
                            (#[trigger] table@[u]@[i] matches Nth::Num(x) ==> 1 <= x <= 5),
                    decreases v.len() - j,
                {
                    let ghost before = table@;
                    let it = v[j];
                    if let Item::Num(d) = it {
                        if 0 <= d && d < 7 {
                            let nl = with_nth(&table[d as usize], m);
                            table.set(d as usize, nl);
                        }
                    }
                    proof {
                        assert forall|u: int, n: Nth| 0 <= u < 7 implies (#[trigger] table@[u]@.contains(n) <==>
                            (yields_nth_before(yv, k as int, u, n) || (n == m && v@.subrange(0, j + 1).contains(Item::Num(u as i64))))) by {
                            let s1 = v@.subrange(0, j as int);
                            let s2 = v@.subrange(0, j + 1);
                            assert(s2 =~= s1.push(v@[j as int]));
                            if s2.contains(Item::Num(u as i64)) && !s1.contains(Item::Num(u as i64)) {
                                let q = choose|q: int| 0 <= q < s2.len() && #[trigger] s2[q] == Item::Num(u as i64);
                                if q < j {
                                    assert(s1[q] == Item::Num(u as i64));
                                }
                                assert(v@[j as int] == Item::Num(u as i64));
                            }
                            if s1.contains(Item::Num(u as i64)) {
                                let q = choose|q: int| 0 <= q < s1.len() && #[trigger] s1[q] == Item::Num(u as i64);
                                assert(s2[q] == Item::Num(u as i64));
                            }
                            if v@[j as int] == Item::Num(u as i64) {
                                assert(s2[j as int] == Item::Num(u as i64));
                            }
                        }
                        assert forall|u: int, i: int| 0 <= u < 7 && 0 <= i < table@[u]@.len() implies
                            (#[trigger] table@[u]@[i] matches Nth::Num(x) ==> 1 <= x <= 5) by {
                            if table@[u]@[i] != m {
                                if table@[u] != before[u] {
                                    assert(before[u]@.contains(table@[u]@[i]));
                                    let q = choose|q: int| 0 <= q < before[u]@.len() && #[trigger] before[u]@[q] == table@[u]@[i];
                                }
                            }
                        }
                    }
                    j = j + 1;
                }
                proof {
                    assert(v@.subrange(0, v@.len() as int) =~= v@);
                    assert forall|u: int, n: Nth| 0 <= u < 7 implies (#[trigger] table@[u]@.contains(n) <==> yields_nth_before(yv, k + 1, u, n)) by {
                        if n == m && v@.contains(Item::Num(u as i64)) {
                            assert(registers(yv[k as int], u, n));
                        }
                        if yields_nth_before(yv, k + 1, u, n) && !yields_nth_before(yv, k as int, u, n) {
                            let q = choose|q: int| 0 <= q < k + 1 && #[trigger] registers(yv[q], u, n);
                            assert(q == k);
                        }
                    }
                }
            },
            _ => {
                proof {
                    assert forall|u: int, n: Nth| 0 <= u < 7 implies (#[trigger] table@[u]@.contains(n) <==> yields_nth_before(yv, k + 1, u, n)) by {
                        if yields_nth_before(yv, k + 1, u, n) && !yields_nth_before(yv, k as int, u, n) {
                            let q = choose|q: int| 0 <= q < k + 1 && #[trigger] registers(yv[q], u, n);
                            assert(q == k);
                        }
                    }
                }
            },
        }
        k = k + 1;
    }
    table
}

pub open spec fn yields_nearest_before(ys: Seq<Yield>, k: int, d: int) -> bool {
    exists|q: int| 0 <= q < k && #[trigger] ys[q] == Yield::Nearest(d)
}

/// Some yield is the `W` day `d`.
pub open spec fn yields_nearest(ys: Seq<Yield>, d: int) -> bool {
    yields_nearest_before(ys, ys.len() as int, d)
}

/// The `W` days of the yields of the day-of-month field, each once.
fn collect_nearest(ys: &Vec<ElementYield>) -> (r: Vec<i64>)
    requires
        yield_shapes(ys@, DAY_FIELD as int),
    ensures
        forall|d: i64| r@.contains(d) <==> yields_nearest(yields_view(ys@), d as int),
        forall|i: int| 0 <= i < r@.len() ==> 1 <= #[trigger] r@[i] <= 31,
        no_repeats(r@),
{
    let ghost yv = yields_view(ys@);
    let mut out: Vec<i64> = Vec::new();
    let mut k: usize = 0;
    while k < ys.len()
        invariant
            k <= ys@.len(),
            yv == yields_view(ys@),
            yield_shapes(ys@, DAY_FIELD as int),
            forall|d: i64| out@.contains(d) <==> yields_nearest_before(yv, k as int, d as int),
            forall|i: int| 0 <= i < out@.len() ==> 1 <= #[trigger] out@[i] <= 31,
            no_repeats(out@),
        decreases ys.len() - k,
    {
        assert(yield_shape(ys@[k as int], DAY_FIELD as int));
        let ghost before = out@;
        match &ys[k] {
            ElementYield::Nearest(d) => {
                let d = *d;
                let mut present = false;
                let mut i: usize = 0;
                while i < out.len()
                    invariant
                        i <= out@.len(),
                        present == (exists|j: int| 0 <= j < i && out@[j] == d),
                    decreases out.len() - i,
                {
                    if out[i] == d {
                        present = true;
                    }
                    i = i + 1;
                }
                if !present {
                    out.push(d);
                    proof {
                        assert forall|a: int, b: int| 0 <= a < b < out@.len() implies #[trigger] out@[a] != #[trigger] out@[b] by {
                            if b == before.len() {
                                assert(before[a] == out@[a]);
                            }
                        }
                    }
                }
                proof {
                    assert forall|e: i64| out@.contains(e) <==> #[trigger] yields_nearest_before(yv, k + 1, e as int) by {
                        if out@.contains(e) && !before.contains(e) {
                            let q = choose|q: int| 0 <= q < out@.len() && #[trigger] out@[q] == e;
                            if q < before.len() {
                                assert(before[q] == e);
                            }
                            assert(yv[k as int] == Yield::Nearest(e as int));
                        }
                        if before.contains(e) {
                            let q = choose|q: int| 0 <= q < before.len() && #[trigger] before[q] == e;
                            assert(out@[q] == e);
                        }
                        if yields_nearest_before(yv, k + 1, e as int) && !yields_nearest_before(yv, k as int, e as int) {
                            let q = choose|q: int| 0 <= q < k + 1 && #[trigger] yv[q] == Yield::Nearest(e as int);
                            assert(q == k);
                            assert(e == d);
                            if !present {
                                assert(out@[before.len() as int] == d);
                            } else {
                                let j = choose|j: int| 0 <= j < before.len() && before[j] == d;
                                assert(before.contains(d));
                            }
                        }
                    }
                }
            },
            _ => {
                proof {
                    assert forall|e: i64| out@.contains(e) <==> #[trigger] yields_nearest_before(yv, k + 1, e as int) by {
                        if yields_nearest_before(yv, k + 1, e as int) && !yields_nearest_before(yv, k as int, e as int) {
                            let q = choose|q: int| 0 <= q < k + 1 && #[trigger] yv[q] == Yield::Nearest(e as int);
                            assert(q == k);
                        }
                    }
                }
            },
        }
        k = k + 1;
    }
    out
}

// ---------------------------------------------------------------------------
// A field's text, after its hash expression (if any) is written out.

/// `?` may stand alone in the day-of-month and day-of-week fields, where it
/// means `*`.
pub open spec fn question_text(c: FieldCtx, text: Seq<char>) -> Result<Seq<char>, ErrorView> {
    if text.contains('?') {
        if text != "?"@ {
            Err(ErrorView::BadCron(bracketed(c.format,
                " is not acceptable. Question mark can not used with other characters"@)))
        } else if c.field != DAY_FIELD && c.field != DOW_FIELD {
            Err(ErrorView::BadCron(bracketed(c.format,
                " is not acceptable. Question mark can only used in day_of_month or day_of_week"@)))
        } else {
            Ok("*"@)
        }
    } else {
        Ok(text)
    }
}

/// What the elements of a field's text yield.
pub open spec fn field_yields(c: FieldCtx, text: Seq<char>) -> Result<Seq<Yield>, ErrorView> {
    match question_text(c, text) {
        Err(e) => Err(e),
        Ok(t) => elements_outcome(c, split_on(t, ','), 0),
    }
}

/// `r` is the field's value list: the items yielded, sorted and without
/// repeats, or `*` alone when they are every value of the field (unless the
/// other day field asks for them to be kept).
pub open spec fn canonical(ys: Seq<Yield>, f: int, keep: bool, r: Seq<Item>) -> bool {
    exists|r0: Seq<Item>| #[trigger] strictly_sorted(r0)
        && (forall|x: Item| r0.contains(x) <==> yields_item(ys, x))
        && r == (if r0.len() == len_means_all(f) && !keep { seq![Item::Star] } else { r0 })
}

/// Reads a field's text: its value list and its yields.
fn read_field(f: usize, n: usize, format: &Vec<char>, joined: &Vec<char>, from_us: Option<i64>,
    text: &Vec<char>, keep: bool) -> (r: Result<(Vec<Item>, Vec<ElementYield>), CroniterError>)
    requires
        f < 7,
    ensures
        ({
            let c = ctx_of(f, n, format@, joined@, from_us);
            match field_yields(c, text@) {
                Err(e) => r matches Err(x) && x@ == e,
                Ok(ys) => r matches Ok((items, yv)) && yields_view(yv@) == ys
                    && canonical(ys, f as int, keep, items@),
            }
        }),
        r matches Ok((items, yv)) ==> field_wf(items@, f as int) && yield_shapes(yv@, f as int),
{
    let ghost c = ctx_of(f, n, format@, joined@, from_us);
    let q = find_char(text, '?', 0);
    let mut t: Vec<char> = Vec::new();
    if q < text.len() {
        proof {
            assert(text@.contains('?')) by {
                assert(text@[q as int] == '?');
            }
        }
        if !is_text(text, "?") {
            return Err(bracketed_msg(format, " is not acceptable. Question mark can not used with other characters"));
        }
        if f != DAY_FIELD && f != DOW_FIELD {
            return Err(bracketed_msg(format, " is not acceptable. Question mark can only used in day_of_month or day_of_week"));
        }
        extend_str(&mut t, "*");
    } else {
        proof {
            assert(!text@.contains('?')) by {
                if text@.contains('?') {
                    let k = choose|k: int| 0 <= k < text@.len() && text@[k] == '?';
                    assert(text@[k] != '?');
                }
            }
        }
        extend_chars(&mut t, text);
    }
    assert(question_text(c, text@) == Ok::<Seq<char>, ErrorView>(t@));
    let toks = split_chars(&t, ',');
    proof {
        lemma_split_on_nonempty(t@, ',');
    }
    let ys = match read_elements(f, n, format, joined, from_us, &toks) {
        Ok(ys) => ys,
        Err(e) => { return Err(e); },
    };
    let items = collect_items(&ys, f);
    let card = field_cardinality(f);
    if items.len() == card && !keep {
        let star = vec![Item::Star];
        proof {
            assert(star@ =~= seq![Item::Star]);
            assert(strictly_sorted(items@));
            assert(item_in_field(Item::Star, f as int));
        }
        return Ok((star, ys));
    }
    proof {
        assert(strictly_sorted(items@));
    }
    Ok((items, ys))
}

// ---------------------------------------------------------------------------
// The expression: aliases, columns, and the seconds-first layout.

/// `@midnight` and friends; the second form is the one used when a hash id
/// is given.
pub open spec fn alias_text(s: Seq<char>, hashed: bool) -> Seq<char> {
    if s == "@midnight"@ {
        if hashed { "h h(0-2) * * * h"@ } else { "0 0 * * *"@ }
    } else if s == "@hourly"@ {
        if hashed { "h * * * * h"@ } else { "0 * * * *"@ }
    } else if s == "@daily"@ {
        if hashed { "h h * * * h"@ } else { "0 0 * * *"@ }
    } else if s == "@weekly"@ {
        if hashed { "h h * * h h"@ } else { "0 0 * * 0"@ }
    } else if s == "@monthly"@ {
        if hashed { "h h h * * h"@ } else { "0 0 1 * *"@ }
    } else if s == "@yearly"@ || s == "@annually"@ {
        if hashed { "h h h h * h"@ } else { "0 0 1 1 *"@ }
    } else {
        s
    }
}

fn chars_lit(s: &str) -> (r: Vec<char>)
    ensures
        r@ == s@,
{
    let mut v: Vec<char> = Vec::new();
    extend_str(&mut v, s);
    assert(v@ =~= s@);
    v
}

fn pick(hashed: bool, with_hash: &str, plain: &str) -> (r: Vec<char>)
    ensures
        r@ == (if hashed { with_hash@ } else { plain@ }),
{
    if hashed { chars_lit(with_hash) } else { chars_lit(plain) }
}

/// `alias_text`.
fn alias_of(s: &Vec<char>, hashed: bool) -> (r: Vec<char>)
    ensures
        r@ == alias_text(s@, hashed),
{
    if chars_equal_str(s, "@midnight") {
        pick(hashed, "h h(0-2) * * * h", "0 0 * * *")
    } else if chars_equal_str(s, "@hourly") {
        pick(hashed, "h * * * * h", "0 * * * *")
    } else if chars_equal_str(s, "@daily") {
        pick(hashed, "h h * * * h", "0 0 * * *")
    } else if chars_equal_str(s, "@weekly") {
        pick(hashed, "h h * * h h", "0 0 * * 0")
    } else if chars_equal_str(s, "@monthly") {
        pick(hashed, "h h h * * h", "0 0 1 * *")
    } else if chars_equal_str(s, "@yearly") || chars_equal_str(s, "@annually") {
        pick(hashed, "h h h h * h", "0 0 1 1 *")
    } else {
        sub_chars(s, 0, s.len())
    }
}

/// `str::split_whitespace`: the maximal runs of non-white characters.
pub open spec fn words(s: Seq<char>) -> Seq<Seq<char>>
    decreases s.len(),
{
    if s.len() == 0 {
        Seq::empty()
    } else {
        let prev = words(s.drop_last());
        if is_white(s.last()) {
            prev
        } else if s.len() >= 2 && !is_white(s[s.len() - 2]) {
            prev.update(prev.len() - 1, prev.last().push(s.last()))
        } else {
            prev.push(seq![s.last()])
        }
    }
}

proof fn lemma_words_nonempty(s: Seq<char>)
    requires
        s.len() > 0,
        !is_white(s.last()),
    ensures
        words(s).len() >= 1,
    decreases s.len(),
{
    if s.len() >= 2 && !is_white(s[s.len() - 2]) {
        assert(s.drop_last().last() == s[s.len() - 2]);
        lemma_words_nonempty(s.drop_last());
    }
}

/// `words`.
fn split_words(v: &Vec<char>) -> (r: Vec<Vec<char>>)
    ensures
        views_of(r@) == words(v@),
{
    let mut out: Vec<Vec<char>> = Vec::new();
    let mut i: usize = 0;
    assert(views_of(out@) =~= words(v@.subrange(0, 0)));
    while i < v.len()
        invariant
            i <= v@.len(),
            views_of(out@) == words(v@.subrange(0, i as int)),
        decreases v.len() - i,
    {
        let c = v[i];
        let ghost pre = v@.subrange(0, i as int);
        let ghost cur = v@.subrange(0, i + 1);
        assert(cur.drop_last() =~= pre);
        assert(cur.last() == c);
        if char_is_white(c) {
        } else if i > 0 && !char_is_white(v[i - 1]) {
            proof {
                assert(pre.last() == v@[i - 1]);
                lemma_words_nonempty(pre);
                assert(cur[cur.len() - 2] == v@[i - 1]);
            }
            let mut last = out.pop().unwrap();
            last.push(c);
            out.push(last);
            assert(views_of(out@) =~= words(cur));
        } else {
            proof {
                if i > 0 {
                    assert(cur[cur.len() - 2] == v@[i - 1]);
                }
            }
            let mut w: Vec<char> = Vec::new();
            w.push(c);
            out.push(w);
            assert(views_of(out@) =~= words(cur));
        }
        i = i + 1;
    }
    assert(v@.subrange(0, v@.len() as int) =~= v@);
    out
}

/// The columns of an expression: lowercased, an alias written out, split on
/// whitespace.
pub open spec fn columns_of(expr: Seq<char>, hashed: bool) -> Seq<Seq<char>> {
    columns_of_lowered(crate::text::lowercase_of(expr), hashed)
}

/// The columns of an expression whose lowercase form is `lowered`.
pub open spec fn columns_of_lowered(lowered: Seq<char>, hashed: bool) -> Seq<Seq<char>> {
    words(alias_text(lowered, hashed))
}

/// The lowercase form of ASCII text: `A`..=`Z` lowered, the rest kept.
pub open spec fn ascii_lowered(s: Seq<char>) -> Seq<char> {
    s.map_values(|c: char| crate::text::ascii_lower(c))
}

/// With seconds first, the leading column is moved to the seconds position
/// (the sixth).
pub open spec fn arranged(ws: Seq<Seq<char>>, second_first: bool) -> Seq<Seq<char>> {
    if ws.len() > 5 && second_first {
        ws.subrange(1, 6).push(ws[0]) + ws.subrange(6, ws.len() as int)
    } else {
        ws
    }
}

fn arrange(ws: Vec<Vec<char>>, second_first: bool) -> (r: Vec<Vec<char>>)
    ensures
        views_of(r@) == arranged(views_of(ws@), second_first),
        r@.len() == ws@.len(),
{
    let ghost o = views_of(ws@);
    let mut ws = ws;
    if ws.len() > 5 && second_first {
        let first = ws.remove(0);
        ws.insert(5, first);
        proof {
            assert(views_of(ws@) =~= o.subrange(1, 6).push(o[0]) + o.subrange(6, o.len() as int));
        }
    }
    ws
}

/// The columns joined by single spaces.
pub open spec fn joined_words(ws: Seq<Seq<char>>) -> Seq<char>
    decreases ws.len(),
{
    if ws.len() == 0 {
        Seq::empty()
    } else if ws.len() == 1 {
        ws[0]
    } else {
        joined_words(ws.drop_last()) + " "@ + ws.last()
    }
}

fn join_words(ws: &Vec<Vec<char>>) -> (r: Vec<char>)
    ensures
        r@ == joined_words(views_of(ws@)),
{
    let mut out: Vec<char> = Vec::new();
    let mut i: usize = 0;
    while i < ws.len()
        invariant
            i <= ws@.len(),
            out@ == joined_words(views_of(ws@).subrange(0, i as int)),
        decreases ws.len() - i,
    {
        let ghost pre = views_of(ws@).subrange(0, i as int);
        let ghost cur = views_of(ws@).subrange(0, i + 1);
        assert(cur.drop_last() =~= pre);
        if i > 0 {
            extend_str(&mut out, " ");
        }
        extend_chars(&mut out, &ws[i]);
        proof {
            if i == 0 {
                assert(out@ =~= cur[0]);
            }
        }
        i = i + 1;
    }
    assert(views_of(ws@).subrange(0, ws@.len() as int) =~= views_of(ws@));
    out
}

// ---------------------------------------------------------------------------
// Texts of values as Rust's `Debug` writes them, for two error messages.

/// Texts joined by `, `.
pub open spec fn comma_joined(parts: Seq<Seq<char>>) -> Seq<char>
    decreases parts.len(),
{
    if parts.len() == 0 {
        Seq::empty()
    } else if parts.len() == 1 {
        parts[0]
    } else {
        comma_joined(parts.drop_last()) + ", "@ + parts.last()
    }
}

fn join_commas(parts: &Vec<Vec<char>>) -> (r: Vec<char>)
    ensures
        r@ == comma_joined(views_of(parts@)),
{
    let mut out: Vec<char> = Vec::new();
    let mut i: usize = 0;
    while i < parts.len()
        invariant
            i <= parts@.len(),
            out@ == comma_joined(views_of(parts@).subrange(0, i as int)),
        decreases parts.len() - i,
    {
        let ghost cur = views_of(parts@).subrange(0, i + 1);
        assert(cur.drop_last() =~= views_of(parts@).subrange(0, i as int));
        if i > 0 {
            extend_str(&mut out, ", ");
        }
        extend_chars(&mut out, &parts[i]);
        proof {
            if i == 0 {
                assert(out@ =~= cur[0]);
            }
        }
        i = i + 1;
    }
    assert(views_of(parts@).subrange(0, parts@.len() as int) =~= views_of(parts@));
    out
}

pub open spec fn item_debug(it: Item) -> Seq<char> {
    match it {
        Item::Star => "Star"@,
        Item::Num(n) => "Num("@ + decimal(n as int) + ")"@,
        Item::Last => "Last"@,
    }
}

pub open spec fn nth_debug(n: Nth) -> Seq<char> {
    match n {
        Nth::Num(k) => "Num("@ + decimal(k as int) + ")"@,
        Nth::Last => "Last"@,
    }
}

fn num_debug(n: i64) -> (r: Vec<char>)
    ensures
        r@ == "Num("@ + decimal(n as int) + ")"@,
{
    let mut v: Vec<char> = Vec::new();
    extend_str(&mut v, "Num(");
    extend_int(&mut v, n);
    extend_str(&mut v, ")");
    v
}

fn item_debug_of(it: Item) -> (r: Vec<char>)
    ensures
        r@ == item_debug(it),
{
    match it {
        Item::Star => chars_lit("Star"),
        Item::Num(n) => num_debug(n),
        Item::Last => chars_lit("Last"),
    }
}

fn nth_debug_of(n: Nth) -> (r: Vec<char>)
    ensures
        r@ == nth_debug(n),
{
    match n {
        Nth::Num(k) => num_debug(k),
        Nth::Last => chars_lit("Last"),
    }
}

// ---------------------------------------------------------------------------
// Mixing plain weekdays with `#`/`l` ones is refused.

/// `x` is a weekday that carries a qualifier.
pub open spec fn is_nth_key(t: Seq<Vec<Nth>>, x: Item) -> bool {
    x matches Item::Num(w) && 0 <= w < 7 && t[w as int]@.len() > 0
}

/// Some value of the day-of-week list `d` is neither `*` nor qualified.
pub open spec fn has_plain_weekday(d: Seq<Item>, t: Seq<Vec<Nth>>) -> bool {
    exists|i: int| 0 <= i < d.len() && #[trigger] d[i] != Item::Star && !is_nth_key(t, d[i])
}

/// The qualifier table is in use while the day-of-week list holds other
/// weekdays too (and is not all seven).
pub open spec fn mixes_nth(d: Seq<Item>, t: Seq<Vec<Nth>>) -> bool {
    crate::calc::nth_in_use(t) && has_plain_weekday(d, t) && d.len() != 7
}

/// The texts of the plain weekdays among `d[..k]`.
pub open spec fn plain_parts(d: Seq<Item>, t: Seq<Vec<Nth>>, k: int) -> Seq<Seq<char>>
    decreases k,
{
    if k <= 0 {
        Seq::empty()
    } else {
        let p = plain_parts(d, t, k - 1);
        if d[k - 1] != Item::Star && !is_nth_key(t, d[k - 1]) { p.push(item_debug(d[k - 1])) } else { p }
    }
}

/// The qualifiers in their order (`1` to `5`, then `l`).
pub open spec fn nth_order() -> Seq<Nth> {
    seq![Nth::Num(1), Nth::Num(2), Nth::Num(3), Nth::Num(4), Nth::Num(5), Nth::Last]
}

/// The texts of the qualifiers among the first `k` of `nth_order` that
/// `list` holds.
pub open spec fn nth_parts(list: Seq<Nth>, k: int) -> Seq<Seq<char>>
    decreases k,
{
    if k <= 0 {
        Seq::empty()
    } else {
        let p = nth_parts(list, k - 1);
        if list.contains(nth_order()[k - 1]) { p.push(nth_debug(nth_order()[k - 1])) } else { p }
    }
}

/// The entries `Num(w): {..}` of the weekdays before `w` that carry
/// qualifiers.
pub open spec fn table_parts(t: Seq<Vec<Nth>>, w: int) -> Seq<Seq<char>>
    decreases w,
{
    if w <= 0 {
        Seq::empty()
    } else {
        let p = table_parts(t, w - 1);
        if t[w - 1]@.len() > 0 {
            p.push("Num("@ + decimal(w - 1) + ")"@ + ": {"@ + comma_joined(nth_parts(t[w - 1]@, 6)) + "}"@)
        } else {
            p
        }
    }
}

pub open spec fn mix_message(format: Seq<char>, d: Seq<Item>, t: Seq<Vec<Nth>>) -> Seq<char> {
    "day-of-week field does not support mixing literal values and nth day of week syntax.  Cron: '"@
        + format + "'    dow={"@ + comma_joined(plain_parts(d, t, d.len() as int)) + "} vs nth={"@
        + comma_joined(table_parts(t, 7)) + "}"@
}

fn nth_set_text(list: &Vec<Nth>) -> (r: Vec<char>)
    ensures
        r@ == comma_joined(nth_parts(list@, 6)),
{
    let order = vec![Nth::Num(1), Nth::Num(2), Nth::Num(3), Nth::Num(4), Nth::Num(5), Nth::Last];
    assert(order@ =~= nth_order());
    let mut parts: Vec<Vec<char>> = Vec::new();
    let mut k: usize = 0;
    while k < 6
        invariant
            k <= 6,
            order@ == nth_order(),
            views_of(parts@) == nth_parts(list@, k as int),
        decreases 6 - k,
    {
        if nth_in(list, order[k]) {
            parts.push(nth_debug_of(order[k]));
            assert(views_of(parts@) =~= nth_parts(list@, k + 1));
        }
        k = k + 1;
    }
    join_commas(&parts)
}

/// Whether the weekday list mixes plain and qualified weekdays, and the
/// message if it does.
fn check_nth_mix(format: &Vec<char>, d: &Vec<Item>, t: &Vec<Vec<Nth>>) -> (r: Result<(), CroniterError>)
    requires
        t@.len() == 7,
    ensures
        mixes_nth(d@, t@) ==> (r matches Err(e) && e@ == ErrorView::UnsupportedSyntax(mix_message(format@, d@, t@))),
        !mixes_nth(d@, t@) ==> r is Ok,
{
    let mut in_use = false;
    let mut w: usize = 0;
    while w < 7
        invariant
            w <= 7,
            t@.len() == 7,
            in_use == (exists|v: int| 0 <= v < w && #[trigger] t@[v]@.len() > 0),
        decreases 7 - w,
    {
        if t[w].len() > 0 {
            in_use = true;
        }
        w = w + 1;
    }
    let mut plain: Vec<Vec<char>> = Vec::new();
    let mut i: usize = 0;
    while i < d.len()
        invariant
            i <= d@.len(),
            t@.len() == 7,
            views_of(plain@) == plain_parts(d@, t@, i as int),
            (plain@.len() > 0) == (exists|j: int| 0 <= j < i && #[trigger] d@[j] != Item::Star && !is_nth_key(t@, d@[j])),
        decreases d.len() - i,
    {
        let x = d[i];
        let key = match x {
            Item::Num(v) => 0 <= v && v < 7 && t[v as usize].len() > 0,
            _ => false,
        };
        if !x.is_star() && !key {
            plain.push(item_debug_of(x));
            assert(views_of(plain@) =~= plain_parts(d@, t@, i + 1));
        }
        i = i + 1;
    }
    if !(in_use && plain.len() > 0 && d.len() != 7) {
        return Ok(());
    }
    let mut entries: Vec<Vec<char>> = Vec::new();
    let mut w: usize = 0;
    while w < 7
        invariant
            w <= 7,
            t@.len() == 7,
            views_of(entries@) == table_parts(t@, w as int),
        decreases 7 - w,
    {
        if t[w].len() > 0 {
            let mut e: Vec<char> = num_debug(w as i64);
            extend_str(&mut e, ": {");
            let inner = nth_set_text(&t[w]);
            extend_chars(&mut e, &inner);
            extend_str(&mut e, "}");
            entries.push(e);
            assert(views_of(entries@) =~= table_parts(t@, w + 1));
        }
        w = w + 1;
    }
    let mut m: Vec<char> = Vec::new();
    extend_str(&mut m, "day-of-week field does not support mixing literal values and nth day of week syntax.  Cron: '");
    extend_chars(&mut m, format);
    extend_str(&mut m, "'    dow={");
    let p = join_commas(&plain);
    extend_chars(&mut m, &p);
    extend_str(&mut m, "} vs nth={");
    let q = join_commas(&entries);
    extend_chars(&mut m, &q);
    extend_str(&mut m, "}");
    proof {
        assert(m@ =~= mix_message(format@, d@, t@));
    }
    Err(CroniterError::UnsupportedSyntax(string_of(&m)))
}

// ---------------------------------------------------------------------------
// `strict`: a day of month that no listed month has is refused.

/// The numbers among `s[..k]`, in order.
pub open spec fn nums_upto(s: Seq<Item>, k: int) -> Seq<i64>
    decreases k,
{
    if k <= 0 {
        Seq::empty()
    } else {
        let p = nums_upto(s, k - 1);
        match s[k - 1] {
            Item::Num(n) => p.push(n),
            _ => p,
        }
    }
}

pub open spec fn nums_of(s: Seq<Item>) -> Seq<i64> {
    nums_upto(s, s.len() as int)
}

pub open spec fn is_only(s: Seq<Item>, x: Item) -> bool {
    s.len() == 1 && s[0] == x
}

pub open spec fn any_leap(ys: Seq<i64>) -> bool {
    exists|i: int| 0 <= i < ys.len() && spec_is_leap(#[trigger] ys[i] as int)
}

/// February may have 29 days: some year given (or, without a list of
/// years, some year of the year field, which counts as every year when it
/// is `*`, has no numbers, or is absent) is a leap year.
pub open spec fn february_may_leap(e: Seq<Seq<Item>>, strict_year: Option<Seq<i64>>) -> bool {
    match strict_year {
        Some(ys) => any_leap(ys),
        None => if e.len() > YEAR_FIELD {
            let years = e[YEAR_FIELD as int];
            is_only(years, Item::Star) || nums_of(years).len() == 0 || any_leap(nums_of(years))
        } else {
            true
        },
    }
}

pub open spec fn month_days(m: int, leap: bool) -> int {
    if m == 2 && leap { 29 } else { common_month_len(m) }
}

/// Every listed day of month is past the end of every listed month.
pub open spec fn strict_refuses(e: Seq<Seq<Item>>, strict_year: Option<Seq<i64>>) -> bool {
    let days = e[DAY_FIELD as int];
    let months = e[MONTH_FIELD as int];
    let id = nums_of(days);
    let im = nums_of(months);
    let leap = im.contains(2) && february_may_leap(e, strict_year);
    &&& !is_only(days, Item::Star) && !is_only(days, Item::Last) && !is_only(months, Item::Star)
    &&& id.len() > 0 && im.len() > 0
    &&& forall|i: int, k: int| 0 <= i < id.len() && 0 <= k < im.len() ==>
        #[trigger] id[i] > month_days(#[trigger] im[k] as int, leap)
}

/// `[a, b, c]`.
pub open spec fn list_debug(v: Seq<i64>) -> Seq<char> {
    "["@ + comma_joined(v.map_values(|x: i64| decimal(x as int))) + "]"@
}

pub open spec fn strict_message(format: Seq<char>, e: Seq<Seq<Item>>) -> Seq<char> {
    bracketed(format, " is not acceptable. Day(s) "@ + list_debug(nums_of(e[DAY_FIELD as int]))
        + " can never occur in month(s) "@ + list_debug(nums_of(e[MONTH_FIELD as int])))
}

pub open spec fn items_views(e: Seq<Vec<Item>>) -> Seq<Seq<Item>> {
    e.map_values(|v: Vec<Item>| v@)
}

fn nums_in(s: &Vec<Item>) -> (r: Vec<i64>)
    ensures
        r@ == nums_of(s@),
{
    let mut out: Vec<i64> = Vec::new();
    let mut i: usize = 0;
    while i < s.len()
        invariant
            i <= s@.len(),
            out@ == nums_upto(s@, i as int),
        decreases s.len() - i,
    {
        if let Item::Num(n) = s[i] {
            out.push(n);
        }
        i = i + 1;
    }
    out
}

fn only(s: &Vec<Item>, x: Item) -> (r: bool)
    ensures
        r == is_only(s@, x),
{
    s.len() == 1 && s[0].same(&x)
}

fn some_leap(ys: &[i64]) -> (r: bool)
    ensures
        r == any_leap(ys@),
{
    let mut i: usize = 0;
    while i < ys.len()
        invariant
            i <= ys@.len(),
            forall|j: int| 0 <= j < i ==> !spec_is_leap(#[trigger] ys@[j] as int),
        decreases ys.len() - i,
    {
        if is_leap(ys[i]) {
            return true;
        }
        i = i + 1;
    }
    false
}

fn month_len(m: i64, leap: bool) -> (r: i64)
    ensures
        r == month_days(m as int, leap),
{
    if m == 2 && leap { 29 }
    else if m == 2 { 28 }
    else if m == 4 || m == 6 || m == 9 || m == 11 { 30 }
    else { 31 }
}

fn list_text(v: &Vec<i64>) -> (r: Vec<char>)
    ensures
        r@ == list_debug(v@),
{
    let mut parts: Vec<Vec<char>> = Vec::new();
    let mut i: usize = 0;
    while i < v.len()
        invariant
            i <= v@.len(),
            parts@.len() == i,
            forall|k: int| 0 <= k < i ==> #[trigger] parts@[k]@ == decimal(v@[k] as int),
        decreases v.len() - i,
    {
        parts.push(render_int(v[i]));
        i = i + 1;
    }
    assert(views_of(parts@) =~= v@.map_values(|x: i64| decimal(x as int)));
    let mut out: Vec<char> = Vec::new();
    extend_str(&mut out, "[");
    let inner = join_commas(&parts);
    extend_chars(&mut out, &inner);
    extend_str(&mut out, "]");
    out
}

/// Cross-checks the day of month against the months (`strict`).
fn check_strict(format: &Vec<char>, expanded: &Vec<Vec<Item>>, strict_year: Option<&[i64]>) -> (r: Result<(), CroniterError>)
    requires
        expanded@.len() >= 5,
    ensures
        ({
            let e = items_views(expanded@);
            let sy = years_view(strict_year);
            &&& strict_refuses(e, sy) ==> (r matches Err(err) && err@ == ErrorView::BadCron(strict_message(format@, e)))
            &&& !strict_refuses(e, sy) ==> r is Ok
        }),
{
    let ghost e = items_views(expanded@);
    let ghost sy = years_view(strict_year);
    let days = &expanded[DAY_FIELD];
    let months = &expanded[MONTH_FIELD];
    assert(e[DAY_FIELD as int] == days@);
    assert(e[MONTH_FIELD as int] == months@);
    if only(days, Item::Star) || only(days, Item::Last) || only(months, Item::Star) {
        return Ok(());
    }
    let int_days = nums_in(days);
    let int_months = nums_in(months);
    if int_days.len() == 0 || int_months.len() == 0 {
        return Ok(());
    }
    let mut has_two = false;
    let mut i: usize = 0;
    while i < int_months.len()
        invariant
            i <= int_months@.len(),
            has_two == (exists|j: int| 0 <= j < i && int_months@[j] == 2),
        decreases int_months.len() - i,
    {
        if int_months[i] == 2 {
            has_two = true;
        }
        i = i + 1;
    }
    assert(has_two == int_months@.contains(2));
    let leap = if !has_two {
        false
    } else {
        match strict_year {
            Some(ys) => some_leap(ys),
            None => {
                if expanded.len() > YEAR_FIELD {
                    let years = &expanded[YEAR_FIELD];
                    assert(e[YEAR_FIELD as int] == years@);
                    if only(years, Item::Star) {
                        true
                    } else {
                        let int_years = nums_in(years);
                        int_years.len() == 0 || some_leap(int_years.as_slice())
                    }
                } else {
                    true
                }
            },
        }
    };
    assert(leap == (int_months@.contains(2) && february_may_leap(e, sy)));
    let mut min_day = int_days[0];
    let mut i: usize = 1;
    while i < int_days.len()
        invariant
            1 <= i <= int_days@.len(),
            forall|j: int| 0 <= j < i ==> min_day <= #[trigger] int_days@[j],
            exists|j: int| 0 <= j < i && min_day == #[trigger] int_days@[j],
        decreases int_days.len() - i,
    {
        if int_days[i] < min_day {
            min_day = int_days[i];
        }
        i = i + 1;
    }
    let mut max_possible = month_len(int_months[0], leap);
    let mut i: usize = 1;
    while i < int_months.len()
        invariant
            1 <= i <= int_months@.len(),
            forall|j: int| 0 <= j < i ==> month_days(#[trigger] int_months@[j] as int, leap) <= max_possible,
            exists|j: int| 0 <= j < i && max_possible == month_days(#[trigger] int_months@[j] as int, leap),
        decreases int_months.len() - i,
    {
        let m = month_len(int_months[i], leap);
        if m > max_possible {
            max_possible = m;
        }
        i = i + 1;
    }
    if min_day > max_possible {
        let mut msg: Vec<char> = Vec::new();
        extend_str(&mut msg, "[");
        extend_chars(&mut msg, format);
        extend_str(&mut msg, "]");
        extend_str(&mut msg, " is not acceptable. Day(s) ");
        let dt = list_text(&int_days);
        extend_chars(&mut msg, &dt);
        extend_str(&mut msg, " can never occur in month(s) ");
        let mt = list_text(&int_months);
        extend_chars(&mut msg, &mt);
        proof {
            assert(msg@ =~= strict_message(format@, e));
        }
        return Err(CroniterError::BadCron(string_of(&msg)));
    }
    proof {
        let jd = choose|j: int| 0 <= j < int_days@.len() && min_day == #[trigger] int_days@[j];
        let jm = choose|j: int| 0 <= j < int_months@.len() && max_possible == month_days(#[trigger] int_months@[j] as int, leap);
        assert(!(int_days@[jd] > month_days(int_months@[jm] as int, leap)));
    }
    Ok(())
}

// ---------------------------------------------------------------------------
// The whole expression.

/// The facts about the whole expression that the reading of every field
/// depends on.
pub struct ExpandCtx {
    pub columns: int,
    pub format: Seq<char>,
    pub joined: Seq<char>,
    pub from_us: Option<i64>,
}

pub open spec fn field_ctx(x: ExpandCtx, f: int) -> FieldCtx {
    FieldCtx { field: f, columns: x.columns, format: x.format, joined: x.joined, from_us: x.from_us }
}

/// `out` is what `expand_field` may give for column `col` of field `f`:
/// the column itself when it is no hash expression, otherwise what
/// `hash_outcome` allows.
pub open spec fn hash_step(f: int, col: Seq<char>, hash_id: Option<Seq<u8>>, out: Result<String, CroniterError>) -> bool {
    &&& (forall|hf: HashForm| !is_hash_expr(col, hf)) ==> (out matches Ok(s) && s@ == col)
    &&& forall|hf: HashForm| is_hash_expr(col, hf) ==> hash_outcome(f, col, hf, hash_id, out)
}

/// The yields of fields `0..k`, given what their hash steps gave; the first
/// refusal met stops the expression.
pub open spec fn fields_outcome(x: ExpandCtx, hashed: Seq<Result<String, CroniterError>>, k: int) -> Result<Seq<Seq<Yield>>, ErrorView>
    decreases k,
{
    if k <= 0 {
        Ok(Seq::empty())
    } else {
        match fields_outcome(x, hashed, k - 1) {
            Err(e) => Err(e),
            Ok(acc) => match hashed[k - 1] {
                Err(e) => Err(e@),
                Ok(text) => match field_yields(field_ctx(x, k - 1), text@) {
                    Err(e) => Err(e),
                    Ok(ys) => Ok(acc.push(ys)),
                },
            },
        }
    }
}

/// The day fields keep an explicit full list when the other day field is
/// restricted (has no `*`).
pub open spec fn keep_explicit(f: int, exprs: Seq<Seq<char>>) -> bool {
    ||| f == DAY_FIELD && !exprs[DOW_FIELD as int].contains('*')
    ||| f == DOW_FIELD && !exprs[DAY_FIELD as int].contains('*')
}

/// An expression expanded: the value list of each field, the `#`/`l`
/// qualifiers of each weekday (Sunday first), the columns as written, and
/// the `W` days.
#[derive(Clone, Debug)]
pub struct Expanded {
    pub expanded: Vec<Vec<Item>>,
    pub nth_weekday_of_month: Vec<Vec<Nth>>,
    pub expressions: Vec<String>,
    pub nearest_weekday: Vec<i64>,
}

impl Expanded {
    /// What the search needs of an expansion: well-formed value lists,
    /// qualifier table and `W` days, and one column per field.
    pub open spec fn wf(&self) -> bool {
        &&& crate::calc::expanded_wf(self.expanded@)
        &&& crate::calc::nth_wf(self.nth_weekday_of_month@)
        &&& crate::calc::nearest_wf(self.nearest_weekday@)
        &&& self.expressions@.len() == self.expanded@.len()
    }
}

pub open spec fn strings_view(v: Seq<String>) -> Seq<Seq<char>> {
    v.map_values(|s: String| s@)
}

/// `e` holds what the yields `fys` of the columns `exprs` give.
pub open spec fn expanded_from(fys: Seq<Seq<Yield>>, exprs: Seq<Seq<char>>, e: Expanded) -> bool {
    &&& e.expanded@.len() == exprs.len()
    &&& forall|f: int| 0 <= f < exprs.len() ==> canonical(fys[f], f, keep_explicit(f, exprs), #[trigger] e.expanded@[f]@)
    &&& nth_table(fys[DOW_FIELD as int], e.nth_weekday_of_month@)
    &&& forall|d: i64| e.nearest_weekday@.contains(d) <==> yields_nearest(fys[DAY_FIELD as int], d as int)
    &&& no_repeats(e.nearest_weekday@)
    &&& strings_view(e.expressions@) == exprs
}

/// The checks on the whole expression, once every field is read.
pub open spec fn completes(x: ExpandCtx, exprs: Seq<Seq<char>>, fys: Seq<Seq<Yield>>, strict: bool,
    strict_year: Option<Seq<i64>>, r: Result<Expanded, CroniterError>) -> bool {
    match r {
        Ok(e) => {
            &&& expanded_from(fys, exprs, e)
            &&& !mixes_nth(e.expanded@[DOW_FIELD as int]@, e.nth_weekday_of_month@)
            &&& !(strict && strict_refuses(items_views(e.expanded@), strict_year))
        },
        Err(err) => exists|e: Expanded| #[trigger] expanded_from(fys, exprs, e) && {
            let d = e.expanded@[DOW_FIELD as int]@;
            let t = e.nth_weekday_of_month@;
            ||| mixes_nth(d, t) && err@ == ErrorView::UnsupportedSyntax(mix_message(x.format, d, t))
            ||| !mixes_nth(d, t) && strict && strict_refuses(items_views(e.expanded@), strict_year)
                && err@ == ErrorView::BadCron(strict_message(x.format, items_views(e.expanded@)))
        },
    }
}

/// `r` is what expanding the columns `exprs` gives when the hash steps of
/// the fields read so far gave `hashed`.
pub open spec fn expansion(x: ExpandCtx, exprs: Seq<Seq<char>>, hash_id: Option<Seq<u8>>, strict: bool,
    strict_year: Option<Seq<i64>>, hashed: Seq<Result<String, CroniterError>>, r: Result<Expanded, CroniterError>) -> bool {
    &&& hashed.len() <= exprs.len()
    &&& forall|f: int| 0 <= f < hashed.len() ==> hash_step(f, exprs[f], hash_id, #[trigger] hashed[f])
    &&& match fields_outcome(x, hashed, hashed.len() as int) {
        Err(err) => r matches Err(e) && e@ == err,
        Ok(fys) => hashed.len() == exprs.len() && completes(x, exprs, fys, strict, strict_year, r),
    }
}

pub open spec fn years_view(strict_year: Option<&[i64]>) -> Option<Seq<i64>> {
    match strict_year {
        Some(ys) => Some(ys@),
        None => None,
    }
}

/// Reads column `f`: its hash step, then (when that succeeds) its field.
fn read_column(f: usize, n: usize, format: &Vec<char>, joined: &Vec<char>, from_us: Option<i64>,
    col: &Vec<char>, hash_id: Option<&[u8]>, keep: bool)
    -> (r: (Result<String, CroniterError>, Option<Result<(Vec<Item>, Vec<ElementYield>), CroniterError>>))
    requires
        f < 7,
    ensures
        hash_step(f as int, col@, id_view(hash_id), r.0),
        r.0 is Err ==> r.1 is None,
        r.0 matches Ok(text) ==> r.1 matches Some(fr) && ({
            let c = ctx_of(f, n, format@, joined@, from_us);
            match field_yields(c, text@) {
                Err(e) => fr matches Err(x) && x@ == e,
                Ok(ys) => fr matches Ok((items, yv)) && yields_view(yv@) == ys
                    && canonical(ys, f as int, keep, items@),
            }
        }),
        r.1 matches Some(Ok((items, yv))) ==> crate::calc::field_wf(items@, f as int) && yield_shapes(yv@, f as int)
            && (strictly_sorted(items@) || items@ == seq![Item::Star]),
{
    let cs = string_of(col);
    let h = expand_field(f, cs.as_str(), hash_id);
    match &h {
        Ok(t) => {
            let text = chars_of(t.as_str());
            let fr = read_field(f, n, format, joined, from_us, &text, keep);
            proof {
                if fr is Ok {
                    let items = fr->Ok_0.0;
                    let c = ctx_of(f, n, format@, joined@, from_us);
                    let ys = field_yields(c, text@)->Ok_0;
                    let r0 = choose|r0: Seq<Item>| #[trigger] strictly_sorted(r0)
                        && (forall|x: Item| r0.contains(x) <==> yields_item(ys, x))
                        && items@ == (if r0.len() == len_means_all(f as int) && !keep { seq![Item::Star] } else { r0 });
                }
            }
            (h, Some(fr))
        },
        Err(_) => (h, None),
    }
}

pub open spec fn column_message() -> Seq<char> {
    "Exactly 5, 6 or 7 columns has to be specified for iterator expression."@
}

fn contains_star(v: &Vec<char>) -> (r: bool)
    ensures
        r == v@.contains('*'),
{
    let k = find_char(v, '*', 0);
    proof {
        if k < v@.len() {
            assert(v@[k as int] == '*');
        } else if v@.contains('*') {
            let j = choose|j: int| 0 <= j < v@.len() && v@[j] == '*';
            assert(v@[j] != '*');
        }
    }
    k < v.len()
}

proof fn lemma_fields_step(x: ExpandCtx, hashed: Seq<Result<String, CroniterError>>, h: Result<String, CroniterError>, k: int)
    requires
        k == hashed.len(),
    ensures
        fields_outcome(x, hashed.push(h), k) == fields_outcome(x, hashed, k),
    decreases k,
{
    if k > 0 {
        lemma_fields_step(x, hashed.drop_last(), hashed.last(), k - 1);
        assert(hashed.drop_last().push(hashed.last()) =~= hashed);
        lemma_fields_prefix(x, hashed, h, k);
    }
}

/// The outcome of the first `k` fields does not depend on the later hash
/// steps.
proof fn lemma_fields_prefix(x: ExpandCtx, hashed: Seq<Result<String, CroniterError>>, h: Result<String, CroniterError>, k: int)
    requires
        0 <= k <= hashed.len(),
    ensures
        fields_outcome(x, hashed.push(h), k) == fields_outcome(x, hashed, k),
    decreases k,
{
    if k > 0 {
        lemma_fields_prefix(x, hashed, h, k - 1);
        assert(hashed.push(h)[k - 1] == hashed[k - 1]);
    }
}

/// `r` is a result that expanding `expr` may give: a column-count error, or
/// what the fields give for some outcome of their hash steps (which are
/// determined except for the random `r` form).
pub open spec fn expand_gives(expr: Seq<char>, hash_id: Option<Seq<u8>>, second_at_beginning: bool,
    from_timestamp: Option<i64>, strict: bool, strict_year: Option<Seq<i64>>, r: Result<Expanded, CroniterError>) -> bool {
    expand_gives_lowered(expr, crate::text::lowercase_of(expr), hash_id, second_at_beginning, from_timestamp, strict,
        strict_year, r)
}

/// `expand_gives` for an expression `expr` whose lowercase form is
/// `lowered`.
pub open spec fn expand_gives_lowered(expr: Seq<char>, lowered: Seq<char>, hash_id: Option<Seq<u8>>,
    second_at_beginning: bool, from_timestamp: Option<i64>, strict: bool, strict_year: Option<Seq<i64>>,
    r: Result<Expanded, CroniterError>) -> bool {
    let cols = columns_of_lowered(lowered, hash_id is Some);
    let exprs = arranged(cols, second_at_beginning);
    let x = ExpandCtx { columns: exprs.len() as int, format: expr, joined: joined_words(exprs), from_us: from_timestamp };
    &&& !(5 <= cols.len() <= 7) ==> (r matches Err(e) && e@ == ErrorView::BadCron(column_message()))
    &&& 5 <= cols.len() <= 7 ==> exists|hashed: Seq<Result<String, CroniterError>>|
        #[trigger] expansion(x, exprs, hash_id, strict, strict_year, hashed, r)
}

/// The value lists of an expression's fields.
///
/// The expression is lowercased, an `@` alias is written out (in its hashed
/// form when a hash id is given), and it is split on whitespace into 5, 6 or
/// 7 columns (else `BadCron`). With `second_at_beginning` the first of 6 or
/// 7 columns is the seconds field. Each field's hash expression is written
/// out, `?` is read as `*`, and its comma-separated elements are read from
/// the last one back; the fields are read in order and the first refusal is
/// the result. Weekdays carrying `#`/`l` qualifiers may not be mixed with
/// plain ones, and with `strict` a day of month that none of the months has
/// is refused. `from_timestamp` (microseconds since the epoch; `0` counts as
/// none) starts every step range at the current date's place on its grid.
pub fn expand(expr_format: &str, hash_id: Option<&[u8]>, second_at_beginning: bool,
    from_timestamp: Option<i64>, strict: bool, strict_year: Option<&[i64]>) -> (r: Result<Expanded, CroniterError>)
    ensures
        expand_gives(expr_format@, id_view(hash_id), second_at_beginning, from_timestamp, strict,
            years_view(strict_year), r),
        crate::text::is_ascii_text(expr_format@) ==> expand_gives_lowered(expr_format@, ascii_lowered(expr_format@),
            id_view(hash_id), second_at_beginning, from_timestamp, strict, years_view(strict_year), r),
        r matches Ok(e) ==> {
            &&& e.wf()
            &&& forall|f: int| 0 <= f < e.expanded@.len() ==> strictly_sorted(#[trigger] e.expanded@[f]@)
                || e.expanded@[f]@ == seq![Item::Star]
        },
{
    let lower = lowercase(expr_format);
    proof {
        if crate::text::is_ascii_text(expr_format@) {
            assert(crate::text::lowercase_of(expr_format@) =~= ascii_lowered(expr_format@));
        }
    }
    let lv = chars_of(lower.as_str());
    let aliased = alias_of(&lv, hash_id.is_some());
    let ws = split_words(&aliased);
    let ghost cols = columns_of(expr_format@, id_view(hash_id) is Some);
    assert(views_of(ws@) == cols);
    if ws.len() < 5 || ws.len() > 7 {
        return Err(CroniterError::BadCron(String::from_str(
            "Exactly 5, 6 or 7 columns has to be specified for iterator expression.")));
    }
    let exprs = arrange(ws, second_at_beginning);
    let ghost ev = views_of(exprs@);
    let n = exprs.len();
    let format = chars_of(expr_format);
    let joined = join_words(&exprs);
    let ghost x = ExpandCtx { columns: n as int, format: expr_format@, joined: joined@, from_us: from_timestamp };
    let keep_day = !contains_star(&exprs[DOW_FIELD]);
    let keep_dow = !contains_star(&exprs[DAY_FIELD]);
    assert(ev[DOW_FIELD as int] == exprs@[DOW_FIELD as int]@);
    assert(ev[DAY_FIELD as int] == exprs@[DAY_FIELD as int]@);
    let ghost mut hashed: Seq<Result<String, CroniterError>> = Seq::empty();
    let ghost mut fys: Seq<Seq<Yield>> = Seq::empty();
    let mut expanded: Vec<Vec<Item>> = Vec::new();
    let mut dow_ys: Vec<ElementYield> = Vec::new();
    let mut day_ys: Vec<ElementYield> = Vec::new();
    let mut f: usize = 0;
    while f < n
        invariant
            5 <= n <= 7,
            f <= n,
            n == exprs@.len(),
            ev == views_of(exprs@),
            x == (ExpandCtx { columns: n as int, format: expr_format@, joined: joined@, from_us: from_timestamp }),
            ev == arranged(columns_of(expr_format@, id_view(hash_id) is Some), second_at_beginning),
            columns_of(expr_format@, id_view(hash_id) is Some).len() == n,
            crate::text::is_ascii_text(expr_format@) ==> crate::text::lowercase_of(expr_format@) == ascii_lowered(expr_format@),
            joined@ == joined_words(ev),
            format@ == expr_format@,
            keep_day == !ev[DOW_FIELD as int].contains('*'),
            keep_dow == !ev[DAY_FIELD as int].contains('*'),
            hashed.len() == f,
            forall|g: int| 0 <= g < f ==> hash_step(g, ev[g], id_view(hash_id), #[trigger] hashed[g]),
            fields_outcome(x, hashed, f as int) == Ok::<Seq<Seq<Yield>>, ErrorView>(fys),
            fys.len() == f,
            expanded@.len() == f,
            forall|g: int| 0 <= g < f ==> canonical(fys[g], g, keep_explicit(g, ev), #[trigger] expanded@[g]@),
            forall|g: int| 0 <= g < f ==> crate::calc::field_wf(#[trigger] expanded@[g]@, g),
            forall|g: int| 0 <= g < f ==> strictly_sorted(#[trigger] expanded@[g]@) || expanded@[g]@ == seq![Item::Star],
            f > DOW_FIELD ==> yields_view(dow_ys@) == fys[DOW_FIELD as int] && yield_shapes(dow_ys@, DOW_FIELD as int),
            f > DAY_FIELD ==> yields_view(day_ys@) == fys[DAY_FIELD as int] && yield_shapes(day_ys@, DAY_FIELD as int),
        decreases n - f,
    {
        let keep = (f == DAY_FIELD && keep_day) || (f == DOW_FIELD && keep_dow);
        assert(keep == keep_explicit(f as int, ev));
        assert(exprs@[f as int]@ == ev[f as int]);
        let (h, fr) = read_column(f, n, &format, &joined, from_timestamp, &exprs[f], hash_id, keep);
        proof {
            lemma_fields_step(x, hashed, h, f as int);
            hashed = hashed.push(h);
        }
        match fr {
            Some(Ok((items, ys))) => {
                proof {
                    let fy = yields_view(ys@);
                    assert(fields_outcome(x, hashed, f + 1) == Ok::<Seq<Seq<Yield>>, ErrorView>(fys.push(fy)));
                    fys = fys.push(fy);
                }
                expanded.push(items);
                if f == DOW_FIELD {
                    dow_ys = ys;
                } else if f == DAY_FIELD {
                    day_ys = ys;
                }
            },
            Some(Err(e)) => {
                proof {
                    assert(fields_outcome(x, hashed, f + 1) == Err::<Seq<Seq<Yield>>, ErrorView>(e@));
                    assert(expansion(x, ev, id_view(hash_id), strict, years_view(strict_year), hashed, Err::<Expanded, CroniterError>(e)));
                }
                return Err(e);
            },
            None => {
                let e = match h { Err(e) => e, Ok(_) => { proof { assert(false); } return Err(CroniterError::BadCron(String::new())); } };
                proof {
                    assert(fields_outcome(x, hashed, f + 1) == Err::<Seq<Seq<Yield>>, ErrorView>(e@));
                    assert(expansion(x, ev, id_view(hash_id), strict, years_view(strict_year), hashed, Err::<Expanded, CroniterError>(e)));
                }
                return Err(e);
            },
        }
        f = f + 1;
    }
    let nth = collect_nth(&dow_ys);
    let nearest = collect_nearest(&day_ys);
    let mut expressions: Vec<String> = Vec::new();
    let mut i: usize = 0;
    while i < n
        invariant
            i <= n,
            n == exprs@.len(),
            ev == views_of(exprs@),
            expressions@.len() == i,
            forall|k: int| 0 <= k < i ==> #[trigger] expressions@[k]@ == ev[k],
        decreases n - i,
    {
        assert(exprs@[i as int]@ == ev[i as int]);
        expressions.push(string_of(&exprs[i]));
        i = i + 1;
    }
    assert(strings_view(expressions@) =~= ev);
    let result = Expanded { expanded, nth_weekday_of_month: nth, expressions, nearest_weekday: nearest };
    let ghost sy = years_view(strict_year);
    proof {
        assert(expanded_from(fys, ev, result));
    }
    match check_nth_mix(&format, &result.expanded[DOW_FIELD], &result.nth_weekday_of_month) {
        Ok(()) => {},
        Err(e) => {
            proof {
                assert(completes(x, ev, fys, strict, sy, Err::<Expanded, CroniterError>(e)));
                assert(expansion(x, ev, id_view(hash_id), strict, sy, hashed, Err::<Expanded, CroniterError>(e)));
            }
            return Err(e);
        },
    }
    if strict {
        match check_strict(&format, &result.expanded, strict_year) {
            Ok(()) => {},
            Err(e) => {
                proof {
                    assert(completes(x, ev, fys, strict, sy, Err::<Expanded, CroniterError>(e)));
                    assert(expansion(x, ev, id_view(hash_id), strict, sy, hashed, Err::<Expanded, CroniterError>(e)));
                }
                return Err(e);
            },
        }
    }
    proof {
        assert(expansion(x, ev, id_view(hash_id), strict, sy, hashed, Ok::<Expanded, CroniterError>(result)));
    }
    Ok(result)
}

} // verus!
