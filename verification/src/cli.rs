//! The command line: `next`, `prev`, `range`, `match`, `validate` and
//! `bench` over the library, as text in and text out.
//!
//! Everything a command decides lives here; the program around it only
//! hands over the arguments, the current time and the version, and prints
//! the [`Outcome`].
use vstd::prelude::*;
use chrono::{Datelike, NaiveDate, NaiveDateTime, Timelike};
use crate::api::{croniter_of, CronIterator, FixedClock, Options, RetType, TzSpec, WallClock};
use crate::calc::{moved, none_fire_on_way, pinned_fire, Croniter};
use crate::expand::{expand, expand_gives, years_view, Expanded};
use crate::hash::id_view;
use crate::matcher::{is_match, match_options, match_precision, on_grid, verdict, within, zoned_hit, zoned_verdict};
use crate::tz::{is_zone, local_instant, TzClock};
use crate::calc::naive_to_timestamp;
use crate::datetime::{micros_in_range, reading_at, WallTime};
use crate::range::{range_options, spec_setup, CroniterRange};
use crate::error::CroniterError;
use crate::text::{all_digits, append_wide, chars_equal_str, chars_of, decimal, digits_value, is_ascii_digit,
    lemma_digits_rest_nonneg, quoted, str_debug};

verus! {

/// What the flags of a command set.
pub struct Args {
    pub count: usize,
    pub start: Option<String>,
    pub stop: Option<String>,
    pub tz: Option<String>,
}

/// The flags as contracts speak of them.
pub struct ArgsView {
    pub count: int,
    pub start: Option<Seq<char>>,
    pub stop: Option<Seq<char>>,
    pub tz: Option<Seq<char>>,
}

pub open spec fn opt_text(o: Option<String>) -> Option<Seq<char>> {
    match o {
        Some(s) => Some(s@),
        None => None,
    }
}

impl View for Args {
    type V = ArgsView;

    open spec fn view(&self) -> ArgsView {
        ArgsView { count: self.count as int, start: opt_text(self.start), stop: opt_text(self.stop), tz: opt_text(self.tz) }
    }
}

/// The texts of a list of arguments.
pub open spec fn texts(args: Seq<String>) -> Seq<Seq<char>> {
    args.map_values(|s: String| s@)
}

/// The digits of a count: the text without one leading `+`.
pub open spec fn count_digits(s: Seq<char>) -> Seq<char> {
    if s.len() > 0 && s[0] == '+' { s.drop_first() } else { s }
}

/// The count a text gives, as `str::parse::<usize>` reads it: an optional
/// `+`, then one or more ASCII digits whose value fits.
pub open spec fn count_value(s: Seq<char>) -> Option<int> {
    let d = count_digits(s);
    if all_digits(d) && digits_value(d) <= usize::MAX { Some(digits_value(d)) } else { None }
}

/// Reads a count (`str::parse::<usize>`).
pub fn parse_count(s: &str) -> (r: Option<usize>)
    ensures
        r matches Some(n) ==> count_value(s@) == Some(n as int),
        r is None ==> count_value(s@) is None,
{
    let v = chars_of(s);
    let start: usize = if v.len() > 0 && v[0] == '+' { 1 } else { 0 };
    let ghost d = count_digits(s@);
    assert(d =~= v@.subrange(start as int, v@.len() as int));
    if start >= v.len() {
        return None;
    }
    let mut acc: u128 = 0;
    let mut i: usize = start;
    while i < v.len()
        invariant
            start <= i <= v@.len(),
            start < v@.len(),
            d == v@.subrange(start as int, v@.len() as int),
            v@ == s@,
            d == count_digits(s@),
            forall|j: int| start <= j < i ==> #[trigger] is_ascii_digit(v@[j]),
            acc == digits_value(v@.subrange(start as int, i as int)),
            acc <= usize::MAX,
        decreases v.len() - i,
    {
        let c = v[i];
        assert(v@.subrange(start as int, i + 1).drop_last() =~= v@.subrange(start as int, i as int));
        if !('0' <= c && c <= '9') {
            assert(!is_ascii_digit(d[i - start]));
            assert(!all_digits(d));
            return None;
        }
        let dv = (c as u32 - '0' as u32) as u128;
        if acc * 10 + dv > usize::MAX as u128 {
            proof {
                lemma_digits_rest_nonneg(d, i - start);
                assert(d.subrange(0, i - start + 1) =~= v@.subrange(start as int, i + 1));
                assert(digits_value(v@.subrange(start as int, i + 1)) == acc * 10 + dv);
            }
            return None;
        }
        acc = acc * 10 + dv;
        i = i + 1;
    }
    assert(v@.subrange(start as int, v@.len() as int) =~= d);
    assert forall|j: int| 0 <= j < d.len() implies #[trigger] is_ascii_digit(d[j]) by {
        assert(is_ascii_digit(v@[start + j]));
    }
    Some(acc as usize)
}

/// The flags before any is read.
pub open spec fn default_args() -> ArgsView {
    ArgsView { count: 10, start: None, stop: None, tz: None }
}

/// Reading the flags from `rest[i]` on, with `acc` set so far.
pub open spec fn flags_from(rest: Seq<Seq<char>>, i: int, acc: ArgsView) -> Result<ArgsView, Seq<char>>
    decreases rest.len() - i,
{
    if i < 0 || i >= rest.len() {
        Ok(acc)
    } else {
        let a = rest[i];
        let more = i + 1 < rest.len();
        if a == "-n"@ || a == "--count"@ {
            if !more {
                Err("-n needs a value"@)
            } else {
                match count_value(rest[i + 1]) {
                    Some(n) => flags_from(rest, i + 2, ArgsView { count: n, ..acc }),
                    None => Err("-n needs a number"@),
                }
            }
        } else if a == "--start"@ {
            if !more { Err("--start needs a value"@) } else { flags_from(rest, i + 2, ArgsView { start: Some(rest[i + 1]), ..acc }) }
        } else if a == "--stop"@ {
            if !more { Err("--stop needs a value"@) } else { flags_from(rest, i + 2, ArgsView { stop: Some(rest[i + 1]), ..acc }) }
        } else if a == "--tz"@ {
            if !more { Err("--tz needs a value"@) } else { flags_from(rest, i + 2, ArgsView { tz: Some(rest[i + 1]), ..acc }) }
        } else {
            Err("unknown option "@ + str_debug(a))
        }
    }
}

/// The flags a list of arguments sets, or the complaint about them.
pub open spec fn flags_outcome(rest: Seq<Seq<char>>) -> Result<ArgsView, Seq<char>> {
    flags_from(rest, 0, default_args())
}

pub open spec fn flags_view(r: Result<Args, String>) -> Result<ArgsView, Seq<char>> {
    match r {
        Ok(a) => Ok(a@),
        Err(m) => Err(m@),
    }
}

/// Reads `-n`/`--count`, `--start`, `--stop` and `--tz`, each followed by
/// its value; anything else is refused.
pub fn parse_flags(rest: &[String]) -> (r: Result<Args, String>)
    ensures
        flags_view(r) == flags_outcome(texts(rest@)),
{
    let ghost rv = texts(rest@);
    let mut args = Args { count: 10, start: None, stop: None, tz: None };
    let mut i: usize = 0;
    while i < rest.len()
        invariant
            i <= rest@.len(),
            rv == texts(rest@),
            flags_outcome(rv) == flags_from(rv, i as int, args@),
        decreases rest.len() - i,
    {
        let a = chars_of(rest[i].as_str());
        assert(a@ == rv[i as int]);
        let more = i + 1 < rest.len();
        if chars_equal_str(&a, "-n") || chars_equal_str(&a, "--count") {
            if !more {
                return Err(String::from_str("-n needs a value"));
            }
            assert(rest[i + 1 as int]@ == rv[i + 1]);
            match parse_count(rest[i + 1].as_str()) {
                Some(n) => { args.count = n; },
                None => { return Err(String::from_str("-n needs a number")); },
            }
        } else if chars_equal_str(&a, "--start") {
            if !more {
                return Err(String::from_str("--start needs a value"));
            }
            assert(rest[i + 1 as int]@ == rv[i + 1]);
            args.start = Some(rest[i + 1].clone());
        } else if chars_equal_str(&a, "--stop") {
            if !more {
                return Err(String::from_str("--stop needs a value"));
            }
            assert(rest[i + 1 as int]@ == rv[i + 1]);
            args.stop = Some(rest[i + 1].clone());
        } else if chars_equal_str(&a, "--tz") {
            if !more {
                return Err(String::from_str("--tz needs a value"));
            }
            assert(rest[i + 1 as int]@ == rv[i + 1]);
            args.tz = Some(rest[i + 1].clone());
        } else {
            let mut m = String::from_str("unknown option ");
            let q = quoted(rest[i].as_str());
            m.append(q.as_str());
            return Err(m);
        }
        i = i + 2;
    }
    Ok(args)
}

/// The fields `NaiveDateTime::parse_from_str` reads from `text` with
/// `format`: year, month, day, hour, minute, second, nanosecond.
pub uninterp spec fn datetime_fields(text: Seq<char>, format: Seq<char>) -> Option<(i64, i64, i64, i64, i64, i64, i64)>;

/// The fields `NaiveDate::parse_from_str` reads from `text` with `format`:
/// year, month, day.
pub uninterp spec fn date_fields(text: Seq<char>, format: Seq<char>) -> Option<(i64, i64, i64)>;


/// `NaiveDateTime::parse_from_str`, as the reading's fields. Claimed: the
/// result is a function of the text and the format.
#[verifier::external_body]
fn parse_datetime_fields(text: &str, format: &str) -> (r: Option<(i64, i64, i64, i64, i64, i64, i64)>)
    ensures
        r == datetime_fields(text@, format@),
{
    let t = NaiveDateTime::parse_from_str(text, format).ok()?;
    Some((t.year() as i64, t.month() as i64, t.day() as i64, t.hour() as i64, t.minute() as i64,
        t.second() as i64, t.nanosecond() as i64))
}

/// `NaiveDate::parse_from_str`, as the date's fields. Claimed: the result
/// is a function of the text and the format.
#[verifier::external_body]
fn parse_date_fields(text: &str, format: &str) -> (r: Option<(i64, i64, i64)>)
    ensures
        r == date_fields(text@, format@),
{
    let d = NaiveDate::parse_from_str(text, format).ok()?;
    Some((d.year() as i64, d.month() as i64, d.day() as i64))
}

/// `NaiveDateTime::format(..).to_string()` on a valid reading, with the
/// one format the command line writes. Claimed, as chrono's formatter
/// writes it: `%Y` is the year in four digits, zero-padded, with a sign
/// outside `0..=9999`; `%m`, `%d`, `%H`, `%M` and `%S` are two digits,
/// zero-padded; the rest is copied.
#[verifier::external_body]
fn format_reading(w: WallTime, format: &str) -> (r: Option<String>)
    requires
        w.wf(),
        format@ == "%Y-%m-%dT%H:%M:%S"@,
    ensures
        r is Some,
        r matches Some(t) ==> t@ == iso_text(w),
{
    let d = NaiveDate::from_ymd_opt(w.year as i32, w.month as u32, w.day as u32)?;
    let t = d.and_hms_micro_opt(w.hour as u32, w.minute as u32, w.second as u32, w.micro as u32)?;
    Some(t.format(format).to_string())
}

/// A reading as the command line writes it: `2025-06-09T09:00:00`.
#[verifier::opaque]
pub open spec fn iso_text(w: WallTime) -> Seq<char> {
    year_text(w.year as int) + "-"@ + padded(w.month as int, 2) + "-"@ + padded(w.day as int, 2) + "T"@
        + padded(w.hour as int, 2) + ":"@ + padded(w.minute as int, 2) + ":"@ + padded(w.second as int, 2)
}

/// `n` (at least 0) in decimal, zero-padded to `k` digits.
pub open spec fn padded(n: int, k: int) -> Seq<char> {
    let d = decimal(n);
    if d.len() >= k { d } else { Seq::new((k - d.len()) as nat, |i: int| '0') + d }
}

/// A year as `%Y` writes it: four digits, zero-padded, signed outside
/// `0..=9999`.
pub open spec fn year_text(y: int) -> Seq<char> {
    if 0 <= y <= 9999 { padded(y, 4) } else if y < 0 { "-"@ + padded(-y, 4) } else { "+"@ + padded(y, 4) }
}

/// Writes a reading as `2025-06-09T09:00:00`.
pub fn iso(w: WallTime) -> (r: String)
    requires
        w.wf(),
    ensures
        r@ == iso_text(w),
{
    match format_reading(w, "%Y-%m-%dT%H:%M:%S") {
        Some(t) => t,
        None => String::new(),
    }
}

/// The reading parsed fields stand for: microseconds from nanoseconds,
/// when the result is a valid reading (a leap second is not).
pub open spec fn fields_wall(f: (i64, i64, i64, i64, i64, i64, i64)) -> Option<WallTime> {
    let w = WallTime { year: f.0, month: f.1, day: f.2, hour: f.3, minute: f.4, second: f.5, micro: (f.6 / 1000) as i64 };
    if 0 <= f.6 && w.wf() { Some(w) } else { None }
}

/// The fields a text gives under the accepted forms, tried in turn:
/// `2025-06-07T12:00:00`, `2025-06-07 12:00:00`, `2025-06-07` (midnight).
pub open spec fn parsed_fields(s: Seq<char>) -> Option<(i64, i64, i64, i64, i64, i64, i64)> {
    match datetime_fields(s, "%Y-%m-%dT%H:%M:%S"@) {
        Some(f) => Some(f),
        None => match datetime_fields(s, "%Y-%m-%d %H:%M:%S"@) {
            Some(f) => Some(f),
            None => match date_fields(s, "%Y-%m-%d"@) {
                Some((y, m, d)) => Some((y, m, d, 0i64, 0i64, 0i64, 0i64)),
                None => None,
            },
        },
    }
}

/// The complaint about a text that is no reading.
pub open spec fn dt_message(s: Seq<char>) -> Seq<char> {
    "cannot parse datetime "@ + str_debug(s) + " (expected ISO 8601)"@
}

/// The reading a text gives, or the complaint about it.
pub open spec fn dt_outcome(s: Seq<char>) -> Result<WallTime, Seq<char>> {
    match parsed_fields(s) {
        Some(f) => match fields_wall(f) {
            Some(w) => Ok(w),
            None => Err(dt_message(s)),
        },
        None => Err(dt_message(s)),
    }
}

pub open spec fn dt_view(r: Result<WallTime, String>) -> Result<WallTime, Seq<char>> {
    match r {
        Ok(w) => Ok(w),
        Err(m) => Err(m@),
    }
}

/// Reads an ISO 8601 reading: `2025-06-07T12:00:00`, `2025-06-07 12:00:00`
/// or a bare date, which means its midnight. A leap second (`:60`) is
/// refused like any text that is no reading.
pub fn parse_dt(s: &str) -> (r: Result<WallTime, String>)
    ensures
        dt_view(r) == dt_outcome(s@),
        r matches Ok(w) ==> w.wf(),
{
    let fields = match parse_datetime_fields(s, "%Y-%m-%dT%H:%M:%S") {
        Some(f) => Some(f),
        None => match parse_datetime_fields(s, "%Y-%m-%d %H:%M:%S") {
            Some(f) => Some(f),
            None => match parse_date_fields(s, "%Y-%m-%d") {
                Some((y, m, d)) => Some((y, m, d, 0i64, 0i64, 0i64, 0i64)),
                None => None,
            },
        },
    };
    assert(fields == parsed_fields(s@));
    wall_from_fields(s, fields)
}

/// The outcome of reading text `s` whose parsed fields (year, month, day,
/// hour, minute, second, nanosecond) are `fields`: the reading they name,
/// or the complaint about `s` when there are none or they name no reading.
pub fn wall_from_fields(s: &str, fields: Option<(i64, i64, i64, i64, i64, i64, i64)>) -> (r: Result<WallTime, String>)
    ensures
        dt_view(r) == (match fields {
            Some(f) => match fields_wall(f) {
                Some(w) => Ok(w),
                None => Err(dt_message(s@)),
            },
            None => Err::<WallTime, Seq<char>>(dt_message(s@)),
        }),
        r matches Ok(w) ==> w.wf(),
{
    if let Some(f) = fields {
        if f.6 >= 0 {
            if let Some(w) = WallTime::new(f.0, f.1, f.2, f.3, f.4, f.5, f.6 / 1000) {
                return Ok(w);
            }
        }
    }
    let mut m = String::from_str("cannot parse datetime ");
    let q = quoted(s);
    m.append(q.as_str());
    m.append(" (expected ISO 8601)");
    Err(m)
}

/// The benchmark workload: six expressions covering plain steps, ranges,
/// last-day, nth-weekday and nearest-weekday, each walked `n / 6` times
/// forward from 2019-01-14 00:00 in naive time. The result is the number
/// of fire times computed and the sum of their timestamps in seconds, so
/// that a single differing fire time changes it.
#[verifier::spinoff_prover]
#[verifier::rlimit(80)]
pub fn bench(n: usize) -> (r: Result<(usize, i128), CroniterError>)
    ensures
        r matches Ok((k, c)) ==> k == n / 6 * 6 && exists|chains: Seq<Seq<WallTime>>| #[trigger] bench_chains(chains, (n / 6) as int)
            && c == chains_sum(chains) / 1_000_000,
        r matches Err(e) ==> e is BadDate || exists|k: int| 0 <= k < 6
            && #[trigger] expand_gives(bench_expr(k), None, false, None, false, None, Err::<Expanded, CroniterError>(e)),
{
    let start = WallTime { year: 2019, month: 1, day: 14, hour: 0, minute: 0, second: 0, micro: 0 };
    assert(start.wf());
    assert(start == bench_start());
    let start_ts = naive_to_timestamp(&start);
    let clock = FixedClock(TzSpec::Naive);
    let per = n / 6;
    assert(per * 6 <= n);
    let mut sink: i128 = 0;
    let mut done: usize = 0;
    let mut k: usize = 0;
    let ghost mut chains: Seq<Seq<WallTime>> = Seq::empty();
    while k < 6
        invariant
            k <= 6,
            per == n / 6,
            per * 6 <= n,
            done == k * per,
            start == bench_start(),
            start_ts == start.epoch(),
            clock == FixedClock(TzSpec::Naive),
            chains.len() == k,
            forall|k2: int| 0 <= k2 < k ==> #[trigger] bench_chain(chains[k2], k2, per as int),
            sink == chains_sum(chains),
            0 <= sink <= (done as int) * 0x8000_0000_0000_0000,
        decreases 6 - k,
    {
        let mut opts = Options::default();
        opts.ret_type = RetType::DateTime;
        assert(opts == bench_options());
        let mut it = match CronIterator::new(bench_expr_text(k), start_ts, opts) {
            Ok(it) => it,
            Err(e) => {
                assert(expand_gives(bench_expr(k as int), None, false, None, false, None, Err::<Expanded, CroniterError>(e)));
                return Err(e);
            },
        };
        let ghost cron = it.cron;
        let ghost mut ws: Seq<WallTime> = Seq::empty();
        let ghost mut tss: Seq<i64> = Seq::empty();
        let mut j: usize = 0;
        while j < per
            invariant
                k < 6,
                j <= per,
                per * 6 <= n,
                done == k * per + j,
                start == bench_start(),
                start_ts == start.epoch(),
                clock == FixedClock(TzSpec::Naive),
                it.cron == cron,
                cron.wf(),
                ws.len() == j,
                walk_from(&clock, cron, start_ts, ws, tss, false),
                it.cur == ts_before(start_ts, tss, ws.len() as int),
                sink == chains_sum(chains) + epochs_sum(ws),
                0 <= sink <= (done as int) * 0x8000_0000_0000_0000,
                all_wf(ws),
            decreases per - j,
        {
            proof {
                lemma_naive_walk(start, cron, ws, tss, false);
            }
            let (w, ts) = match it.get_next(&clock) {
                Ok(v) => v,
                Err(e) => { return Err(e); },
            };
            proof {
                assert(fires_at(cron, w)) by {
                    reveal(fires_at);
                }
                assert(passes_none(cron, clock.wall_at(ts_before(start_ts, tss, ws.len() as int)).epoch(), w.epoch(), false)) by {
                    reveal(passes_none);
                }
                lemma_bench_step(cron, start, ws, tss, w, ts);
            }
            assert((k as int) * per + j + 1 <= n) by (nonlinear_arith)
                requires
                    k < 6,
                    j < per,
                    per * 6 <= n,
            ;
            sink = sink + ts as i128;
            done = done + 1;
            j = j + 1;
            proof {
                ws = ws.push(w);
                tss = tss.push(ts);
            }
        }
        proof {
            lemma_naive_walk(start, cron, ws, tss, false);
            let e = choose|e: Expanded| #[trigger] expand_gives(bench_expr(k as int), None, false, None, false, None,
                Ok::<Expanded, CroniterError>(e)) && cron == croniter_of(e, bench_options());
            assert(in_turn(cron, start, ws, false));
            assert(bench_chain(ws, k as int, per as int));
            let chains2 = chains.push(ws);
            assert(chains2.drop_last() =~= chains);
            assert forall|k2: int| 0 <= k2 < k + 1 implies #[trigger] bench_chain(chains2[k2], k2, per as int) by {
                if k2 < k {
                    assert(chains2[k2] == chains[k2]);
                }
            }
            chains = chains2;
        }
        assert((k + 1) * per == k * per + per) by (nonlinear_arith);
        k = k + 1;
    }
    assert(done == 6 * per) by (nonlinear_arith)
        requires
            k == 6,
            done == k * per,
    ;
    assert(bench_chains(chains, per as int));
    Ok((per * 6, sink / 1_000_000))
}

/// One more fire time of a benchmark walk: the walk goes on, and the
/// instant added is after the start.
#[verifier::spinoff_prover]
#[verifier::rlimit(40)]
proof fn lemma_bench_step(cron: Croniter, start: WallTime, ws: Seq<WallTime>, tss: Seq<i64>, w: WallTime, ts: i64)
    requires
        start == bench_start(),
        walk_from(&FixedClock(TzSpec::Naive), cron, start.epoch() as i64, ws, tss, false),
        all_wf(ws),
        w.wf(),
        fires_at(cron, w),
        ts == w.epoch(),
        moved(FixedClock(TzSpec::Naive).wall_at(ts_before(start.epoch() as i64, tss, ws.len() as int)), w, false),
        passes_none(cron, FixedClock(TzSpec::Naive).wall_at(ts_before(start.epoch() as i64, tss, ws.len() as int)).epoch(),
            w.epoch(), false),
    ensures
        walk_from(&FixedClock(TzSpec::Naive), cron, start.epoch() as i64, ws.push(w), tss.push(ts), false),
        all_wf(ws.push(w)),
        epochs_sum(ws.push(w)) == epochs_sum(ws) + w.epoch(),
        0 < w.epoch() <= i64::MAX,
{
    lemma_walk_push(&FixedClock(TzSpec::Naive), cron, start.epoch() as i64, ws, tss, false, w, ts);
    lemma_all_wf_push(ws, w);
    lemma_naive_walk(start, cron, ws, tss, false);
    crate::datetime::lemma_epoch_bounds(w);
    lemma_bench_start_after_epoch();
    if ws.len() > 0 {
        assert(moved(start, ws[ws.len() - 1], false));
    }
    assert(ws.push(w).drop_last() =~= ws);
}

/// The benchmark starts after 1970.
proof fn lemma_bench_start_after_epoch()
    ensures
        bench_start().epoch() > 0,
{
    reveal(crate::datetime::days_before_year);
}

/// The expressions the benchmark walks: plain steps, a range of weekdays,
/// the last day of the month, an nth weekday, a nearest weekday, and a mix
/// of steps, lists and month names.
pub open spec fn bench_expr(k: int) -> Seq<char> {
    if k == 0 { "*/5 * * * *"@ }
    else if k == 1 { "0 9 * * 1-5"@ }
    else if k == 2 { "0 12 l * *"@ }
    else if k == 3 { "0 9 * * 5#3"@ }
    else if k == 4 { "0 9 15w * *"@ }
    else { "*/13 3-20 1,15 jan-jun *"@ }
}

/// `bench_expr` as text.
fn bench_expr_text(k: usize) -> (r: &'static str)
    ensures
        r@ == bench_expr(k as int),
{
    if k == 0 { "*/5 * * * *" }
    else if k == 1 { "0 9 * * 1-5" }
    else if k == 2 { "0 12 l * *" }
    else if k == 3 { "0 9 * * 5#3" }
    else if k == 4 { "0 9 15w * *" }
    else { "*/13 3-20 1,15 jan-jun *" }
}

/// Where the benchmark starts: 2019-01-14 00:00.
pub open spec fn bench_start() -> WallTime {
    WallTime { year: 2019, month: 1, day: 14, hour: 0, minute: 0, second: 0, micro: 0 }
}

/// The options the benchmark searches with.
pub open spec fn bench_options() -> Options {
    Options {
        ret_type: RetType::DateTime,
        day_or: true,
        max_years_between_matches: None,
        is_prev: false,
        hash_id: None,
        implement_cron_bug: false,
        second_at_beginning: false,
        expand_from_start_time: false,
    }
}

/// `ws` is the first `per` fire times of the `k`-th benchmark expression
/// after the start, in turn.
pub open spec fn bench_chain(ws: Seq<WallTime>, k: int, per: int) -> bool {
    &&& ws.len() == per
    &&& exists|e: Expanded| #[trigger] expand_gives(bench_expr(k), None, false, None, false, None, Ok::<Expanded, CroniterError>(e))
        && in_turn(croniter_of(e, bench_options()), bench_start(), ws, false)
}

/// The fire times the benchmark takes, one list per expression.
pub open spec fn bench_chains(chains: Seq<Seq<WallTime>>, per: int) -> bool {
    &&& chains.len() == 6
    &&& forall|k: int| 0 <= k < 6 ==> #[trigger] bench_chain(chains[k], k, per)
}

/// The sum of the instants of some readings.
pub open spec fn epochs_sum(ws: Seq<WallTime>) -> int
    decreases ws.len(),
{
    if ws.len() == 0 { 0 } else { epochs_sum(ws.drop_last()) + ws.last().epoch() }
}

/// The sum of the instants of lists of readings.
pub open spec fn chains_sum(chains: Seq<Seq<WallTime>>) -> int
    decreases chains.len(),
{
    if chains.len() == 0 { 0 } else { chains_sum(chains.drop_last()) + epochs_sum(chains.last()) }
}

/// A list of readings as the command line writes them, one per line.
pub open spec fn lines_text(ws: Seq<WallTime>) -> Seq<char>
    decreases ws.len(),
{
    if ws.len() == 0 {
        Seq::empty()
    } else {
        lines_text(ws.drop_last()) + iso_text(ws.last()) + "\n"@
    }
}

/// All readings are valid.
pub open spec fn all_wf(ws: Seq<WallTime>) -> bool {
    forall|i: int| 0 <= i < ws.len() ==> (#[trigger] ws[i]).wf()
}

/// The instant a walk stood at before its `i`-th step: where it started,
/// then the instant of each reading found.
pub open spec fn ts_before(cur0: i64, tss: Seq<i64>, i: int) -> i64 {
    if i == 0 { cur0 } else { tss[i - 1] }
}

/// The schedule fires at `w` (kept folded: what firing means is the
/// search's business, not the command line's).
#[verifier::opaque]
pub open spec fn fires_at(cron: Croniter, w: WallTime) -> bool {
    cron.fires(w)
}

/// Nothing fires on the way from instant `from` to instant `to` (kept
/// folded, as `fires_at` is).
#[verifier::opaque]
pub open spec fn passes_none(cron: Croniter, from: int, to: int, dir: bool) -> bool {
    none_fire_on_way(cron, from, to, dir)
}

/// Each reading fires, comes with its instant, and is the first fire time
/// strictly beyond the reading at the instant before it, in the direction
/// of travel.
pub open spec fn walk_from<C: WallClock>(clock: &C, cron: Croniter, cur0: i64, ws: Seq<WallTime>, tss: Seq<i64>,
    dir: bool) -> bool {
    &&& tss.len() == ws.len()
    &&& forall|i: int| 0 <= i < ws.len() ==> fires_at(cron, #[trigger] ws[i]) && tss[i] == ws[i].epoch()
        && moved(clock.wall_at(ts_before(cur0, tss, i)), ws[i], dir)
        && passes_none(cron, clock.wall_at(ts_before(cur0, tss, i)).epoch(), ws[i].epoch(), dir)
}

/// One more step of a walk keeps it a walk.
proof fn lemma_walk_push<C: WallClock>(clock: &C, cron: Croniter, cur0: i64, ws: Seq<WallTime>, tss: Seq<i64>,
    dir: bool, w: WallTime, ts: i64)
    requires
        walk_from(clock, cron, cur0, ws, tss, dir),
        fires_at(cron, w),
        ts == w.epoch(),
        moved(clock.wall_at(ts_before(cur0, tss, ws.len() as int)), w, dir),
        passes_none(cron, clock.wall_at(ts_before(cur0, tss, ws.len() as int)).epoch(), w.epoch(), dir),
    ensures
        walk_from(clock, cron, cur0, ws.push(w), tss.push(ts), dir),
{
    let ws2 = ws.push(w);
    let tss2 = tss.push(ts);
    assert forall|j: int| 0 <= j < ws2.len() implies fires_at(cron, #[trigger] ws2[j]) && tss2[j] == ws2[j].epoch()
        && moved(clock.wall_at(ts_before(cur0, tss2, j)), ws2[j], dir)
        && passes_none(cron, clock.wall_at(ts_before(cur0, tss2, j)).epoch(), ws2[j].epoch(), dir) by {
        if j < ws.len() {
            assert(ws2[j] == ws[j]);
            assert(ts_before(cur0, tss2, j) == ts_before(cur0, tss, j));
        }
    }
}

/// One more pinned fire time keeps a pinned walk.
proof fn lemma_pinned_push<C: WallClock>(clock: &C, cron: Croniter, cur0: i64, ws: Seq<WallTime>, tss: Seq<i64>,
    dir: bool, w: WallTime, ts: i64)
    requires
        pinned_walk(clock, cron, cur0, ws, tss, dir),
        pinned_fire(clock, cron, ts_before(cur0, tss, ws.len() as int), dir, w, ts),
    ensures
        pinned_walk(clock, cron, cur0, ws.push(w), tss.push(ts), dir),
{
    let ws2 = ws.push(w);
    let tss2 = tss.push(ts);
    assert forall|j: int| 0 <= j < ws2.len() implies #[trigger] pinned_fire(clock, cron, ts_before(cur0, tss2, j), dir, ws2[j], tss2[j]) by {
        if j < ws.len() {
            assert(ws2[j] == ws[j] && tss2[j] == tss[j]);
            assert(ts_before(cur0, tss2, j) == ts_before(cur0, tss, j));
            assert(pinned_fire(clock, cron, ts_before(cur0, tss, j), dir, ws[j], tss[j]));
        } else {
            assert(ts_before(cur0, tss2, j) == ts_before(cur0, tss, ws.len() as int));
        }
    }
}

/// In naive time a walk from `start` is a chain of readings, each beyond
/// the one before it.
proof fn lemma_naive_walk(start: WallTime, cron: Croniter, ws: Seq<WallTime>, tss: Seq<i64>, dir: bool)
    requires
        start.wf(),
        all_wf(ws),
        walk_from(&FixedClock(TzSpec::Naive), cron, start.epoch() as i64, ws, tss, dir),
    ensures
        forall|i: int| 0 <= i < ws.len() ==> fires_at(cron, #[trigger] ws[i])
            && moved(reading_before(start, ws, i), ws[i], dir)
            && passes_none(cron, reading_before(start, ws, i).epoch(), ws[i].epoch(), dir),
        forall|i: int| 0 <= i < ws.len() ==> moved(start, #[trigger] ws[i], dir),
        FixedClock(TzSpec::Naive).has_wall(ts_before(start.epoch() as i64, tss, ws.len() as int)),
        FixedClock(TzSpec::Naive).wall_at(ts_before(start.epoch() as i64, tss, ws.len() as int))
            == reading_before(start, ws, ws.len() as int),
{
    crate::datetime::lemma_epoch_bounds(start);
    crate::datetime::lemma_epoch_in_range(start);
    crate::datetime::lemma_reading_at(start);
    assert forall|i: int| 0 <= i < ws.len() implies fires_at(cron, #[trigger] ws[i])
        && moved(reading_before(start, ws, i), ws[i], dir)
        && passes_none(cron, reading_before(start, ws, i).epoch(), ws[i].epoch(), dir) by {
        if i > 0 {
            assert(ws[i - 1].wf());
            crate::datetime::lemma_reading_at(ws[i - 1]);
        }
    }
    lemma_walk_beyond(start, cron, ws, dir, ws.len() as int);
    if ws.len() > 0 {
        assert(ws[ws.len() - 1].wf());
        crate::datetime::lemma_epoch_in_range(ws[ws.len() - 1]);
        crate::datetime::lemma_reading_at(ws[ws.len() - 1]);
    }
}

/// Each reading of a walk lies beyond where the walk started.
proof fn lemma_walk_beyond(start: WallTime, cron: Croniter, ws: Seq<WallTime>, dir: bool, n: int)
    requires
        0 <= n <= ws.len(),
        forall|i: int| 0 <= i < ws.len() ==> moved(reading_before(start, ws, i), #[trigger] ws[i], dir),
    ensures
        forall|i: int| 0 <= i < n ==> moved(start, #[trigger] ws[i], dir),
    decreases n,
{
    if n > 0 {
        lemma_walk_beyond(start, cron, ws, dir, n - 1);
        assert(moved(reading_before(start, ws, n - 1), ws[n - 1], dir));
        if n > 1 {
            assert(moved(start, ws[n - 2], dir));
        }
    }
}

/// Appending one reading appends its line.
proof fn lemma_lines_push(ws: Seq<WallTime>, w: WallTime)
    ensures
        lines_text(ws.push(w)) == lines_text(ws) + iso_text(w) + "\n"@,
{
    assert(ws.push(w).drop_last() =~= ws);
}

/// Appending a valid reading keeps all of them valid.
proof fn lemma_all_wf_push(ws: Seq<WallTime>, w: WallTime)
    requires
        all_wf(ws),
        w.wf(),
    ensures
        all_wf(ws.push(w)),
{
    assert forall|j: int| 0 <= j < ws.push(w).len() implies (#[trigger] ws.push(w)[j]).wf() by {
        if j < ws.len() {
            assert(ws.push(w)[j] == ws[j]);
        }
    }
}

/// The reading before the `i`-th of a walk that started at `from`.
pub open spec fn reading_before(from: WallTime, ws: Seq<WallTime>, i: int) -> WallTime {
    if i == 0 { from } else { ws[i - 1] }
}

/// The options `next` and `prev` search with.
pub open spec fn step_options(is_prev: bool) -> Options {
    Options {
        ret_type: RetType::DateTime,
        day_or: true,
        max_years_between_matches: None,
        is_prev,
        hash_id: None,
        implement_cron_bug: false,
        second_at_beginning: false,
        expand_from_start_time: false,
    }
}

/// The expression expands, each reading fires under it, and each lies
/// strictly beyond the one before it (the first beyond `from`).
pub open spec fn fires_in_turn(expr: Seq<char>, opts: Options, from: WallTime, ws: Seq<WallTime>, dir: bool) -> bool {
    ws.len() > 0 ==> exists|e: Expanded| #[trigger] expand_gives(expr, None, false, None, false, None, Ok::<Expanded, CroniterError>(e))
        && in_turn(croniter_of(e, opts), from, ws, dir)
}

/// Each reading fires and is the first fire time strictly beyond the one
/// before it (the first beyond `from`).
pub open spec fn in_turn(c: Croniter, from: WallTime, ws: Seq<WallTime>, dir: bool) -> bool {
    forall|i: int| 0 <= i < ws.len() ==> fires_at(c, #[trigger] ws[i])
        && moved(reading_before(from, ws, i), ws[i], dir)
        && passes_none(c, reading_before(from, ws, i).epoch(), ws[i].epoch(), dir)
}

/// In zone `z`: the expression expands, and each reading, with its
/// instant, is a fire time pinned onto the timeline by the zone's clock
/// coming from the instant before it (the first from the instant the zone
/// gives `from`).
pub open spec fn pinned_in_turn(expr: Seq<char>, z: Seq<char>, from: WallTime, ws: Seq<WallTime>, dir: bool) -> bool {
    ws.len() > 0 ==> exists|clk: TzClock, e: Expanded, t0: i64, tss: Seq<i64>|
        #[trigger] pinned_walk(&clk, croniter_of(e, step_options(dir)), t0, ws, tss, dir)
        && clk.zone() == z && local_instant(z, from, t0 as int)
        && expand_gives(expr, None, false, None, false, None, Ok::<Expanded, CroniterError>(e))
}

/// Whether `tz` names a zone the command line can use; the complaint if not.
pub open spec fn zone_check(tz: Option<Seq<char>>) -> Result<(), Seq<char>> {
    match tz {
        Some(z) => if is_zone(z) { Ok(()) } else { Err("unknown timezone "@ + str_debug(z)) },
        None => Ok(()),
    }
}

pub open spec fn res_view(r: Result<(), String>) -> Result<(), Seq<char>> {
    match r {
        Ok(()) => Ok(()),
        Err(m) => Err(m@),
    }
}

/// The reading a command starts from: `--start` when given, else now.
pub open spec fn start_outcome(a: ArgsView, now: WallTime) -> Result<WallTime, Seq<char>> {
    match a.start {
        Some(s) => dt_outcome(s),
        None => Ok(now),
    }
}

/// What `next` (`is_prev == false`) or `prev` prints and how it ends: the
/// complaint about a flag, the start or the zone; otherwise up to `-n`
/// readings, all of them when it succeeds, and in naive time each one a
/// fire time of the expression beyond the one before it.
pub open spec fn step_post(expr: Seq<char>, rest: Seq<Seq<char>>, now: WallTime, is_prev: bool,
    out: Seq<char>, res: Result<(), Seq<char>>) -> bool {
    match flags_outcome(rest) {
        Err(m) => out.len() == 0 && res == Err::<(), Seq<char>>(m),
        Ok(a) => match start_outcome(a, now) {
            Err(m) => out.len() == 0 && res == Err::<(), Seq<char>>(m),
            Ok(start) => match zone_check(a.tz) {
                Err(m) => out.len() == 0 && res == Err::<(), Seq<char>>(m),
                Ok(_) => exists|ws: Seq<WallTime>| #[trigger] lines_text(ws) == out
                    && ws.len() <= a.count && all_wf(ws)
                    && (res is Ok ==> ws.len() == a.count)
                    && (a.tz is None ==> fires_in_turn(expr, step_options(is_prev), start, ws, is_prev))
                    && (a.tz matches Some(z) ==> pinned_in_turn(expr, z, start, ws, is_prev)),
            },
        },
    }
}

/// What a walk of up to `count` steps reports: the lines of the readings
/// found, all of them when it succeeds; without a zone a walk, and with one
/// a walk of fire times pinned onto the timeline.
pub open spec fn walk_report<C: WallClock>(clock: &C, cron: Croniter, cur0: i64, ws: Seq<WallTime>, tss: Seq<i64>,
    dir: bool, count: int, out: Seq<char>, ok: bool) -> bool {
    &&& lines_text(ws) == out
    &&& ws.len() <= count
    &&& all_wf(ws)
    &&& (ok ==> ws.len() == count)
    &&& (!clock.aware() ==> walk_from(clock, cron, cur0, ws, tss, dir))
    &&& (clock.aware() ==> pinned_walk(clock, cron, cur0, ws, tss, dir))
}

/// Each reading, with its instant, is a fire time pinned onto the timeline
/// by `clock` coming from the instant before it.
pub open spec fn pinned_walk<C: WallClock>(clock: &C, cron: Croniter, cur0: i64, ws: Seq<WallTime>, tss: Seq<i64>,
    dir: bool) -> bool {
    &&& tss.len() == ws.len()
    &&& forall|i: int| 0 <= i < ws.len() ==> #[trigger] pinned_fire(clock, cron, ts_before(cur0, tss, i), dir, ws[i], tss[i])
}

/// Steps `it` up to `count` times, writing each reading found; stops at the
/// first failure with its message.
#[verifier::rlimit(30)]
fn walk<C: WallClock>(clock: &C, it: &mut CronIterator, count: usize, is_prev: bool) -> (r: (String, Result<(), String>))
    requires
        old(it).cron.wf(),
    ensures
        exists|ws: Seq<WallTime>, tss: Seq<i64>| #[trigger] walk_report(clock, old(it).cron, old(it).cur, ws, tss,
            is_prev, count as int, r.0@, r.1 is Ok),
{
    let ghost cron0 = it.cron;
    let ghost cur0 = it.cur;
    let ghost mut ws: Seq<WallTime> = Seq::empty();
    let ghost mut tss: Seq<i64> = Seq::empty();
    let mut out = String::new();
    let mut i: usize = 0;
    while i < count
        invariant
            i <= count,
            ws.len() == i,
            out@ == lines_text(ws),
            it.cron == cron0,
            cron0 == old(it).cron,
            cur0 == old(it).cur,
            cron0.wf(),
            all_wf(ws),
            !clock.aware() ==> walk_from(clock, cron0, cur0, ws, tss, is_prev),
            clock.aware() ==> pinned_walk(clock, cron0, cur0, ws, tss, is_prev),
            it.cur == ts_before(cur0, tss, ws.len() as int),
        decreases count - i,
    {
        let (w, ts) = match it.step(clock, Some(is_prev), None, true) {
            Ok(v) => v,
            Err(e) => {
                let r = (out, Err(e.message()));
                assert(walk_report(clock, old(it).cron, old(it).cur, ws, tss, is_prev, count as int, r.0@, false));
                assert(exists|ws: Seq<WallTime>, tss: Seq<i64>| #[trigger] walk_report(clock, old(it).cron, old(it).cur,
                    ws, tss, is_prev, count as int, r.0@, r.1 is Ok));
                return r;
            },
        };
        proof {
            if !clock.aware() {
                assert(fires_at(cron0, w)) by {
                    reveal(fires_at);
                }
                assert(passes_none(cron0, clock.wall_at(ts_before(cur0, tss, ws.len() as int)).epoch(), w.epoch(), is_prev)) by {
                    reveal(passes_none);
                }
                lemma_walk_push(clock, cron0, cur0, ws, tss, is_prev, w, ts);
            }
            if clock.aware() {
                lemma_pinned_push(clock, cron0, cur0, ws, tss, is_prev, w, ts);
            }
            lemma_lines_push(ws, w);
            lemma_all_wf_push(ws, w);
        }
        let line = iso(w);
        out.append(line.as_str());
        out.append("\n");
        proof {
            ws = ws.push(w);
            tss = tss.push(ts);
        }
        i = i + 1;
    }
    assert(walk_report(clock, old(it).cron, old(it).cur, ws, tss, is_prev, count as int, out@, true));
    let r = (out, Ok(()));
    assert(r.0@ == out@);
    assert(exists|ws: Seq<WallTime>, tss: Seq<i64>| #[trigger] walk_report(clock, old(it).cron, old(it).cur, ws, tss,
            is_prev, count as int, r.0@, r.1 is Ok));
    r
}

/// `next` and `prev`: the flags after the expression, the start reading,
/// the clock, then up to `-n` fire times.
#[verifier::rlimit(60)]
fn cmd_step(expr: &str, rest: &[String], now: WallTime, is_prev: bool) -> (r: (String, Result<(), String>))
    requires
        now.wf(),
    ensures
        step_post(expr@, texts(rest@), now, is_prev, r.0@, res_view(r.1)),
{
    let args = match parse_flags(rest) {
        Ok(a) => a,
        Err(m) => { return (String::new(), Err(m)); },
    };
    let start = match &args.start {
        Some(s) => match parse_dt(s.as_str()) {
            Ok(w) => w,
            Err(m) => { return (String::new(), Err(m)); },
        },
        None => now,
    };
    assert(start_outcome(args@, now) == Ok::<WallTime, Seq<char>>(start));
    let mut opts = Options::default();
    opts.ret_type = RetType::DateTime;
    opts.is_prev = is_prev;
    assert(opts == step_options(is_prev));
    match &args.tz {
        None => {
            let clock = FixedClock(TzSpec::Naive);
            let ts = match clock.from_wall(start) {
                Ok(t) => t,
                Err(e) => { return (String::new(), Err(e.message())); },
            };
            let mut it = match CronIterator::new(expr, ts, opts) {
                Ok(it) => it,
                Err(e) => {
                    proof {
                        assert(lines_text(Seq::<WallTime>::empty()) == Seq::<char>::empty());
                    }
                    return (String::new(), Err(e.message()));
                },
            };
            let ghost it0 = it;
            let r = walk(&clock, &mut it, args.count, is_prev);
            proof {
                let (ws, tss) = choose|ws: Seq<WallTime>, tss: Seq<i64>| #[trigger] walk_report(&clock, it0.cron, it0.cur,
                    ws, tss, is_prev, args.count as int, r.0@, r.1 is Ok);
                lemma_naive_walk(start, it0.cron, ws, tss, is_prev);
                if ws.len() > 0 {
                    let e = choose|e: Expanded| #[trigger] expand_gives(expr@, None, false, None, false, None,
                        Ok::<Expanded, CroniterError>(e)) && it0.cron == croniter_of(e, opts);
                    assert(fires_in_turn(expr@, step_options(is_prev), start, ws, is_prev));
                }
                assert(lines_text(ws) == r.0@);
            }
            r
        },
        Some(z) => {
            let clock = match TzClock::from_name(z.as_str()) {
                Ok(c) => c,
                Err(e) => { return (String::new(), Err(e.message())); },
            };
            let ts = match clock.from_wall(start) {
                Ok(t) => t,
                Err(e) => {
                    proof {
                        assert(lines_text(Seq::<WallTime>::empty()) == Seq::<char>::empty());
                    }
                    return (String::new(), Err(e.message()));
                },
            };
            let mut it = match CronIterator::new(expr, ts, opts) {
                Ok(it) => it,
                Err(e) => {
                    proof {
                        assert(lines_text(Seq::<WallTime>::empty()) == Seq::<char>::empty());
                    }
                    return (String::new(), Err(e.message()));
                },
            };
            let ghost it0 = it;
            let r = walk(&clock, &mut it, args.count, is_prev);
            proof {
                let (ws, tss) = choose|ws: Seq<WallTime>, tss: Seq<i64>| #[trigger] walk_report(&clock, it0.cron, it0.cur,
                    ws, tss, is_prev, args.count as int, r.0@, r.1 is Ok);
                if ws.len() > 0 {
                    let e = choose|e: Expanded| #[trigger] expand_gives(expr@, None, false, None, false, None,
                        Ok::<Expanded, CroniterError>(e)) && it0.cron == croniter_of(e, opts);
                    assert(pinned_walk(&clock, croniter_of(e, step_options(is_prev)), ts, ws, tss, is_prev));
                    assert(pinned_in_turn(expr@, z@, start, ws, is_prev));
                }
                assert(lines_text(ws) == r.0@);
            }
            r
        },
    }
}


/// What `range` prints of a range from `start` to `stop`, in naive time:
/// the fire times of the expression (searched over the years the range
/// spans), each the first strictly beyond the one before it, the first
/// beyond the start nudged outwards by a microsecond, none past `stop`;
/// and, unless the day fields are searched apart with qualifiers (or the
/// output is too long to count), nothing more fires up to `stop`.
pub open spec fn range_in_turn(expr: Seq<char>, start: WallTime, stop: WallTime, ws: Seq<WallTime>) -> bool {
    let s = spec_setup(start, stop, false);
    let from = reading_at(start.epoch() + s.start_nudge_us);
    let opts = range_options(true, s.year_span, false);
    &&& exists|e: Expanded| #[trigger] expand_gives(expr, None, false, None, false, None, Ok::<Expanded, CroniterError>(e))
        && in_turn(croniter_of(e, opts), from, ws, !s.forward)
        && ((ws.len() < u64::MAX && !croniter_of(e, opts).split_strict()) ==> passes_none(croniter_of(e, opts),
            reading_before(from, ws, ws.len() as int).epoch(), stop.epoch() + s.stop_nudge_us, !s.forward))
    &&& forall|i: int| 0 <= i < ws.len() ==> (if s.forward { (#[trigger] ws[i]).epoch() <= stop.epoch() }
        else { ws[i].epoch() >= stop.epoch() })
}

/// What `range` prints of a range from `start` to `stop` in zone `z`:
/// fire times of the expression (searched over the years the range spans),
/// each with its instant pinned onto the timeline by the zone's clock
/// coming from the instant before it (the first from the instant the zone
/// gives the start nudged outwards by a microsecond), none past `stop`.
pub open spec fn range_pinned(expr: Seq<char>, z: Seq<char>, start: WallTime, stop: WallTime, ws: Seq<WallTime>) -> bool {
    let s = spec_setup(start, stop, false);
    let from = reading_at(start.epoch() + s.start_nudge_us);
    let opts = range_options(true, s.year_span, false);
    &&& ws.len() > 0 ==> exists|clk: TzClock, e: Expanded, t0: i64, tss: Seq<i64>|
        #[trigger] pinned_walk(&clk, croniter_of(e, opts), t0, ws, tss, walks_back(start, stop))
        && clk.zone() == z && local_instant(z, from, t0 as int)
        && expand_gives(expr, None, false, None, false, None, Ok::<Expanded, CroniterError>(e))
    &&& forall|i: int| 0 <= i < ws.len() ==> (if s.forward { (#[trigger] ws[i]).epoch() <= stop.epoch() }
        else { ws[i].epoch() >= stop.epoch() })
}

/// A range from `start` to `stop` steps backwards.
pub open spec fn walks_back(start: WallTime, stop: WallTime) -> bool {
    !spec_setup(start, stop, false).forward
}

/// Where a range's walk ended, nothing more fires up to the bound, when
/// the search window from there still reaches it.
pub open spec fn range_tail<C: WallClock>(clock: &C, rg: CroniterRange, ws: Seq<WallTime>, tss: Seq<i64>) -> bool {
    let last = ts_before(rg.iter.cur, tss, ws.len() as int);
    (clock.has_wall(last) && rg.covers(clock.wall_at(last)))
        ==> passes_none(rg.iter.cron, clock.wall_at(last).epoch(), rg.stop.epoch(), !rg.forward)
}

/// What `range` prints and how it ends: the complaint about a flag, a
/// missing or unreadable bound, or the zone; otherwise the fire times from
/// `--start` to `--stop`, both included.
pub open spec fn range_post(expr: Seq<char>, rest: Seq<Seq<char>>, out: Seq<char>, res: Result<(), Seq<char>>) -> bool {
    match flags_outcome(rest) {
        Err(m) => out.len() == 0 && res == Err::<(), Seq<char>>(m),
        Ok(a) => match a.start {
            None => out.len() == 0 && res == Err::<(), Seq<char>>("range needs --start"@),
            Some(st) => match dt_outcome(st) {
                Err(m) => out.len() == 0 && res == Err::<(), Seq<char>>(m),
                Ok(start) => match a.stop {
                    None => out.len() == 0 && res == Err::<(), Seq<char>>("range needs --stop"@),
                    Some(sp) => match dt_outcome(sp) {
                        Err(m) => out.len() == 0 && res == Err::<(), Seq<char>>(m),
                        Ok(stop) => match zone_check(a.tz) {
                            Err(m) => out.len() == 0 && res == Err::<(), Seq<char>>(m),
                            Ok(_) => exists|ws: Seq<WallTime>| #[trigger] lines_text(ws) == out && all_wf(ws)
                                && (res is Err ==> ws.len() == 0)
                                && ((a.tz is None && res is Ok) ==> range_in_turn(expr, start, stop, ws))
                                && (res is Ok ==> (a.tz matches Some(z) ==> range_pinned(expr, z, start, stop, ws)))
                                && ((a.tz is None && res is Err) ==> range_refused(expr, start, stop, res->Err_0)),
                        },
                    },
                },
            },
        },
    }
}

/// Why a range in naive time is refused: a bound with no reading a
/// microsecond beside it, or an expression that does not expand.
pub open spec fn range_refused(expr: Seq<char>, start: WallTime, stop: WallTime, m: Seq<char>) -> bool {
    ||| !(micros_in_range(start.epoch() - 1) && micros_in_range(start.epoch() + 1)
        && micros_in_range(stop.epoch() - 1) && micros_in_range(stop.epoch() + 1))
        && m == "timestamp out of range"@
    ||| exists|err: CroniterError| #[trigger] expand_gives(expr, None, false, None, false, None, Err::<Expanded, CroniterError>(err))
        && m == err@.message()
}

/// What the walk of a range reports: the lines of the readings found and,
/// without a zone, a walk that stays on this side of the bound.
pub open spec fn range_report<C: WallClock>(clock: &C, rg: CroniterRange, ws: Seq<WallTime>, tss: Seq<i64>,
    out: Seq<char>) -> bool {
    &&& lines_text(ws) == out
    &&& all_wf(ws)
    &&& forall|i: int| 0 <= i < ws.len() ==> (if rg.forward { (#[trigger] ws[i]).epoch() < rg.stop.epoch() }
        else { ws[i].epoch() > rg.stop.epoch() })
    &&& !clock.aware() ==> walk_from(clock, rg.iter.cron, rg.iter.cur, ws, tss, !rg.forward)
    &&& clock.aware() ==> pinned_walk(clock, rg.iter.cron, rg.iter.cur, ws, tss, !rg.forward)
    &&& (!clock.aware() && !rg.done && ws.len() < u64::MAX) ==> range_tail(clock, rg, ws, tss)
}

/// Writes every fire time the range yields.
#[verifier::rlimit(30)]
fn range_lines<C: WallClock>(clock: &C, rg: &mut CroniterRange) -> (r: String)
    requires
        old(rg).wf(),
    ensures
        exists|ws: Seq<WallTime>, tss: Seq<i64>| #[trigger] range_report(clock, *old(rg), ws, tss, r@),
{
    let ghost rg0 = *rg;
    let ghost mut ws: Seq<WallTime> = Seq::empty();
    let ghost mut tss: Seq<i64> = Seq::empty();
    let mut out = String::new();
    let mut fuel: u64 = u64::MAX;
    while fuel > 0 && !rg.done
        invariant
            rg0 == *old(rg),
            rg.wf(),
            rg.iter.cron == rg0.iter.cron,
            rg.stop == rg0.stop,
            rg.forward == rg0.forward,
            out@ == lines_text(ws),
            all_wf(ws),
            !clock.aware() ==> walk_from(clock, rg0.iter.cron, rg0.iter.cur, ws, tss, !rg0.forward),
            clock.aware() ==> pinned_walk(clock, rg0.iter.cron, rg0.iter.cur, ws, tss, !rg0.forward),
            !rg.done ==> rg.iter.cur == ts_before(rg0.iter.cur, tss, ws.len() as int),
            forall|i: int| 0 <= i < ws.len() ==> (if rg0.forward {
                (#[trigger] ws[i]).epoch() < rg0.stop.epoch() } else { ws[i].epoch() > rg0.stop.epoch() }),
            !rg.done ==> ws.len() + fuel == u64::MAX,
            (!clock.aware() && rg.done && !rg0.done) ==> range_tail(clock, rg0, ws, tss),
        decreases fuel,
    {
        let ghost cur = rg.iter.cur;
        let ghost before = *rg;
        match rg.next(clock) {
            Some(w) => {
                let ghost ts = rg.iter.cur;
                proof {
                    if !clock.aware() {
                        assert(fires_at(rg0.iter.cron, w)) by {
                            reveal(fires_at);
                        }
                        assert(passes_none(rg0.iter.cron, clock.wall_at(ts_before(rg0.iter.cur, tss, ws.len() as int)).epoch(),
                            w.epoch(), !rg0.forward)) by {
                            reveal(passes_none);
                        }
                        lemma_walk_push(clock, rg0.iter.cron, rg0.iter.cur, ws, tss, !rg0.forward, w, ts);
                    }
                    if clock.aware() {
                        lemma_pinned_push(clock, rg0.iter.cron, rg0.iter.cur, ws, tss, !rg0.forward, w, ts);
                    }
                    assert forall|i: int| 0 <= i < ws.push(w).len() implies (if rg0.forward {
                        (#[trigger] ws.push(w)[i]).epoch() < rg0.stop.epoch() } else {
                        ws.push(w)[i].epoch() > rg0.stop.epoch() }) by {
                        if i < ws.len() {
                            assert(ws.push(w)[i] == ws[i]);
                        }
                    }
                    lemma_lines_push(ws, w);
                    lemma_all_wf_push(ws, w);
                }
                let line = iso(w);
                out.append(line.as_str());
                out.append("\n");
                proof {
                    ws = ws.push(w);
                    tss = tss.push(ts);
                }
            },
            None => {
                proof {
                    if !clock.aware() && !rg0.done && !before.done {
                        reveal(passes_none);
                        assert(before.covers(clock.wall_at(cur)) == rg0.covers(clock.wall_at(cur)));
                    }
                }
            },
        }
        fuel = fuel - 1;
    }
    assert(range_report(clock, rg0, ws, tss, out@));
    out
}


/// The range `range` walks, once both bounds are a microsecond inside the
/// representable readings.
fn range_setup<C: WallClock>(clock: &C, expr: &str, start: WallTime, stop: WallTime) -> (r: Result<CroniterRange, String>)
    requires
        start.wf(),
        stop.wf(),
    ensures
        r matches Ok(rg) ==> {
            let s = spec_setup(start, stop, false);
            let from = reading_at(start.epoch() + s.start_nudge_us);
            &&& rg.wf()
            &&& !rg.done
            &&& rg.forward == s.forward
            &&& rg.stop.epoch() == stop.epoch() + s.stop_nudge_us
            &&& exists|e: Expanded| #[trigger] expand_gives(expr@, None, false, None, false, None,
                Ok::<Expanded, CroniterError>(e))
                && rg.iter.cron == croniter_of(e, range_options(true, s.year_span, false))
            &&& from.wf() && from.epoch() == start.epoch() + s.start_nudge_us
            &&& !clock.aware() ==> rg.iter.cur == from.epoch() as i64
            &&& (!clock.aware() && !rg.iter.cron.split_strict()) ==> rg.covers(from)
            &&& clock.instant_of(from, rg.iter.cur)
        },
        (!clock.aware() && r is Err) ==> range_refused(expr@, start, stop, r->Err_0@),
{
    let before = start.add_micros(-1);
    let after = start.add_micros(1);
    let stop_before = stop.add_micros(-1);
    let stop_after = stop.add_micros(1);
    match (before, after, stop_before, stop_after) {
        (Some(b), Some(a), Some(_), Some(_)) => {
            proof {
                crate::datetime::lemma_reading_at(b);
                crate::datetime::lemma_reading_at(a);
            }
            match CroniterRange::new(expr, start, stop, clock, true, false, false) {
                Ok(rg) => Ok(rg),
                Err(e) => {
                    let m = e.message();
                    assert(!clock.aware() ==> expand_gives(expr@, None, false, None, false, None,
                        Err::<Expanded, CroniterError>(e)));
                    Err(m)
                },
            }
        },
        _ => Err(String::from_str("timestamp out of range")),
    }
}

/// `range`: the flags after the expression, both bounds, the clock, then
/// every fire time between the bounds.
#[verifier::rlimit(60)]
fn cmd_range(expr: &str, rest: &[String]) -> (r: (String, Result<(), String>))
    ensures
        range_post(expr@, texts(rest@), r.0@, res_view(r.1)),
{
    let args = match parse_flags(rest) {
        Ok(a) => a,
        Err(m) => { return (String::new(), Err(m)); },
    };
    let start = match &args.start {
        Some(s) => match parse_dt(s.as_str()) {
            Ok(w) => w,
            Err(m) => { return (String::new(), Err(m)); },
        },
        None => { return (String::new(), Err(String::from_str("range needs --start"))); },
    };
    let stop = match &args.stop {
        Some(s) => match parse_dt(s.as_str()) {
            Ok(w) => w,
            Err(m) => { return (String::new(), Err(m)); },
        },
        None => { return (String::new(), Err(String::from_str("range needs --stop"))); },
    };
    proof {
        assert(lines_text(Seq::<WallTime>::empty()) == Seq::<char>::empty());
        assert(all_wf(Seq::<WallTime>::empty()));
    }
    match &args.tz {
        None => {
            let clock = FixedClock(TzSpec::Naive);
            let mut rg = match range_setup(&clock, expr, start, stop) {
                Ok(rg) => rg,
                Err(m) => { return (String::new(), Err(m)); },
            };
            let ghost rg0 = rg;
            let out = range_lines(&clock, &mut rg);
            proof {
                let sp = spec_setup(start, stop, false);
                let from = reading_at(start.epoch() + sp.start_nudge_us);
                let (ws, tss) = choose|ws: Seq<WallTime>, tss: Seq<i64>| #[trigger] range_report(&clock, rg0, ws, tss, out@);
                lemma_naive_walk(from, rg0.iter.cron, ws, tss, !rg0.forward);
                let e = choose|e: Expanded| #[trigger] expand_gives(expr@, None, false, None, false, None,
                    Ok::<Expanded, CroniterError>(e))
                    && rg0.iter.cron == croniter_of(e, range_options(true, sp.year_span, false));
                let last = reading_before(from, ws, ws.len() as int);
                if ws.len() < u64::MAX && !rg0.iter.cron.split_strict() {
                    if ws.len() > 0 {
                        assert(ws[ws.len() - 1].wf());
                        assert(moved(from, ws[ws.len() - 1], !rg0.forward));
                    }
                    crate::range::lemma_covers_onward(rg0, from, last);
                    assert(range_tail(&clock, rg0, ws, tss));
                }
                assert(in_turn(croniter_of(e, range_options(true, sp.year_span, false)), from, ws, !sp.forward));
                assert(range_in_turn(expr@, start, stop, ws));
            }
            (out, Ok(()))
        },
        Some(z) => {
            let clock = match TzClock::from_name(z.as_str()) {
                Ok(c) => c,
                Err(e) => { return (String::new(), Err(e.message())); },
            };
            let mut rg = match range_setup(&clock, expr, start, stop) {
                Ok(rg) => rg,
                Err(m) => { return (String::new(), Err(m)); },
            };
            let ghost rg0 = rg;
            let out = range_lines(&clock, &mut rg);
            proof {
                let (ws, tss) = choose|ws: Seq<WallTime>, tss: Seq<i64>| #[trigger] range_report(&clock, rg0, ws, tss, out@);
                let sp = spec_setup(start, stop, false);
                let from = reading_at(start.epoch() + sp.start_nudge_us);
                if ws.len() > 0 {
                    let e = choose|e: Expanded| #[trigger] expand_gives(expr@, None, false, None, false, None,
                        Ok::<Expanded, CroniterError>(e))
                        && rg0.iter.cron == croniter_of(e, range_options(true, sp.year_span, false));
                    assert(pinned_walk(&clock, croniter_of(e, range_options(true, sp.year_span, false)), rg0.iter.cur, ws,
                        tss, walks_back(start, stop)));
                }
                assert(range_pinned(expr@, z@, start, stop, ws));
                assert(lines_text(ws) == out@);
            }
            (out, Ok(()))
        },
    }
}


/// The verdict a naive match of `expr` at `when` gives, with the default
/// tolerance: the search's `verdict`, which at a reading on the
/// expression's grid is whether the expression fires there (unless the day
/// fields are searched apart with qualifiers).
pub open spec fn match_says(expr: Seq<char>, when: WallTime, b: bool) -> bool {
    exists|e: Expanded| #[trigger] expand_gives(expr, None, false, None, false, None, Ok::<Expanded, CroniterError>(e))
        && verdict(croniter_of(e, match_options(true, false)), when, when, match_precision(None, e), b)
        && ((on_grid(croniter_of(e, match_options(true, false)), when)
            && !croniter_of(e, match_options(true, false)).split_strict())
            ==> b == croniter_of(e, match_options(true, false)).fires(when))
}

/// A `true` match of `expr` at `when` in zone `z`: the fire time pinned
/// before the probe lies within the default tolerance of it.
pub open spec fn zoned_match(expr: Seq<char>, z: Seq<char>, when: WallTime) -> bool {
    exists|clk: TzClock, e: Expanded, t0: i64| #![trigger clk.zone(), expand_gives(expr, None, false, None, false, None,
        Ok::<Expanded, CroniterError>(e)), local_instant(z, when, t0 as int)]
        clk.zone() == z && local_instant(z, when, t0 as int) && clk.has_wall(t0)
        && expand_gives(expr, None, false, None, false, None, Ok::<Expanded, CroniterError>(e))
        && zoned_hit(&clk, croniter_of(e, match_options(true, false)), when, when, clk.wall_at(t0), match_precision(None, e))
}

/// The answer `b` of a match of `expr` at `when` in zone `z`: whether the
/// fire time the backward search gives from the probe lies within the
/// default tolerance (`false` when it finds none).
pub open spec fn zoned_says(expr: Seq<char>, z: Seq<char>, when: WallTime, b: bool) -> bool {
    exists|clk: TzClock, e: Expanded, t0: i64| #![trigger clk.zone(), expand_gives(expr, None, false, None, false, None,
        Ok::<Expanded, CroniterError>(e)), local_instant(z, when, t0 as int)]
        clk.zone() == z && local_instant(z, when, t0 as int) && clk.has_wall(t0)
        && expand_gives(expr, None, false, None, false, None, Ok::<Expanded, CroniterError>(e))
        && zoned_verdict(&clk, croniter_of(e, match_options(true, false)), when, when, t0, match_precision(None, e), b)
}

/// Why a naive match is refused: the expression does not expand, or the
/// reading is the last representable one.
pub open spec fn match_refused(expr: Seq<char>, when: WallTime, m: Seq<char>) -> bool {
    ||| exists|err: CroniterError| #[trigger] expand_gives(expr, None, false, None, false, None, Err::<Expanded, CroniterError>(err))
        && m == err@.message()
    ||| when.micro == 0 && !micros_in_range(when.epoch() + 1) && m == "timestamp out of range"@
}

/// What `match` prints and how it ends: the complaint about the reading, a
/// flag or the zone; otherwise `true` (success) or `false` (failure with
/// nothing more said), or the search's error. In naive time `true` means
/// the expression fires at the reading.
pub open spec fn match_post(expr: Seq<char>, when_text: Seq<char>, rest: Seq<Seq<char>>, out: Seq<char>,
    res: Result<(), Seq<char>>) -> bool {
    match dt_outcome(when_text) {
        Err(m) => out.len() == 0 && res == Err::<(), Seq<char>>(m),
        Ok(when) => match flags_outcome(rest) {
            Err(m) => out.len() == 0 && res == Err::<(), Seq<char>>(m),
            Ok(a) => match zone_check(a.tz) {
                Err(m) => out.len() == 0 && res == Err::<(), Seq<char>>(m),
                Ok(_) => {
                    ||| out == "true\n"@ && res is Ok && (a.tz is None ==> match_says(expr, when, true))
                        && (a.tz matches Some(z) ==> zoned_match(expr, z, when) && zoned_says(expr, z, when, true))
                    ||| out == "false\n"@ && res == Err::<(), Seq<char>>(Seq::empty())
                        && (a.tz is None ==> match_says(expr, when, false))
                        && (a.tz matches Some(z) ==> zoned_says(expr, z, when, false))
                    ||| out.len() == 0 && res is Err && (a.tz is None ==> match_refused(expr, when, res->Err_0))
                },
            },
        },
    }
}

/// Prints the verdict of a match.
fn print_verdict(hit: Result<bool, CroniterError>) -> (r: (String, Result<(), String>))
    ensures
        hit matches Ok(true) ==> r.0@ == "true\n"@ && r.1 is Ok,
        hit matches Ok(false) ==> r.0@ == "false\n"@ && res_view(r.1) == Err::<(), Seq<char>>(Seq::empty()),
        hit is Err ==> r.0@.len() == 0 && res_view(r.1) == Err::<(), Seq<char>>(hit->Err_0@.message()),
{
    match hit {
        Ok(true) => (String::from_str("true\n"), Ok(())),
        Ok(false) => (String::from_str("false\n"), Err(String::new())),
        Err(e) => (String::new(), Err(e.message())),
    }
}

/// `match`: the reading, the flags after it, the clock, then the verdict.
#[verifier::rlimit(30)]
fn cmd_match(expr: &str, when_text: &str, rest: &[String]) -> (r: (String, Result<(), String>))
    ensures
        match_post(expr@, when_text@, texts(rest@), r.0@, res_view(r.1)),
{
    let when = match parse_dt(when_text) {
        Ok(w) => w,
        Err(m) => { return (String::new(), Err(m)); },
    };
    let args = match parse_flags(rest) {
        Ok(a) => a,
        Err(m) => { return (String::new(), Err(m)); },
    };
    match &args.tz {
        None => {
            let clock = FixedClock(TzSpec::Naive);
            let hit = is_match(expr, when, &clock, true, false, None);
            proof {
                if hit is Ok {
                    assert(match_says(expr@, when, hit->Ok_0));
                }
                if hit is Err {
                    assert(match_refused(expr@, when, hit->Err_0@.message()));
                }
            }
            print_verdict(hit)
        },
        Some(z) => {
            let clock = match TzClock::from_name(z.as_str()) {
                Ok(c) => c,
                Err(e) => { return (String::new(), Err(e.message())); },
            };
            let hit = is_match(expr, when, &clock, true, false, None);
            proof {
                if hit matches Ok(true) {
                    let (e, t0) = choose|e: Expanded, t0: i64| #![trigger expand_gives(expr@, None, false, None, false, None,
                        Ok::<Expanded, CroniterError>(e)), clock.instant_of(when, t0)]
                        expand_gives(expr@, None, false, None, false, None, Ok::<Expanded, CroniterError>(e))
                        && clock.instant_of(when, t0) && clock.has_wall(t0)
                        && zoned_hit(&clock, croniter_of(e, match_options(true, false)), when, when, clock.wall_at(t0),
                            match_precision(None, e));
                    assert(local_instant(z@, when, t0 as int));
                    assert(zoned_match(expr@, z@, when));
                }
                if hit is Ok {
                    let b = hit->Ok_0;
                    let (e, t0) = choose|e: Expanded, t0: i64| #![trigger expand_gives(expr@, None, false, None, false, None,
                        Ok::<Expanded, CroniterError>(e)), clock.instant_of(when, t0)]
                        expand_gives(expr@, None, false, None, false, None, Ok::<Expanded, CroniterError>(e))
                        && clock.instant_of(when, t0) && clock.has_wall(t0)
                        && zoned_verdict(&clock, croniter_of(e, match_options(true, false)), when, when, t0,
                            match_precision(None, e), b);
                    assert(local_instant(z@, when, t0 as int));
                    assert(zoned_says(expr@, z@, when, b));
                }
            }
            print_verdict(hit)
        },
    }
}

/// What `validate` prints and how it ends: `valid`, or the expansion's
/// complaint.
pub open spec fn validate_post(expr: Seq<char>, out: Seq<char>, res: Result<(), Seq<char>>) -> bool {
    exists|r0: Result<Expanded, CroniterError>| #[trigger] expand_gives(expr, None, false, None, false, None, r0)
        && match r0 {
            Ok(_) => out == "valid\n"@ && res is Ok,
            Err(e) => out.len() == 0 && res == Err::<(), Seq<char>>("invalid: "@ + e@.message()),
        }
}

/// `validate`: whether the expression expands.
fn cmd_validate(expr: &str) -> (r: (String, Result<(), String>))
    ensures
        validate_post(expr@, r.0@, res_view(r.1)),
{
    assert(id_view(None) == None::<Seq<u8>>);
    assert(years_view(None) == None::<Seq<i64>>);
    let e = expand(expr, None, false, None, false, None);
    match e {
        Ok(_) => (String::from_str("valid\n"), Ok(())),
        Err(err) => {
            let mut m = String::from_str("invalid: ");
            let t = err.message();
            m.append(t.as_str());
            (String::new(), Err(m))
        },
    }
}

/// How many fire times `bench` computes: `-n`, or 10 000 when neither `-n`
/// nor `--start` moved off their defaults.
pub open spec fn bench_count(a: ArgsView) -> int {
    if a.start is None && a.count == 10 { 10_000 } else { a.count }
}

/// The line `bench` prints.
pub open spec fn bench_line(k: int, checksum: Seq<char>) -> Seq<char> {
    "iterations="@ + decimal(k) + " checksum="@ + checksum + "\n"@
}

/// What `bench` prints and how it ends: the complaint about a flag; or one
/// line with the number of fire times computed and their checksum.
pub open spec fn bench_post(rest: Seq<Seq<char>>, out: Seq<char>, res: Result<(), Seq<char>>) -> bool {
    match flags_outcome(rest) {
        Err(m) => out.len() == 0 && res == Err::<(), Seq<char>>(m),
        Ok(a) => {
            &&& res is Ok ==> exists|chains: Seq<Seq<WallTime>>| #[trigger] bench_chains(chains, bench_count(a) / 6)
                && out == bench_line(bench_count(a) / 6 * 6, decimal(chains_sum(chains) / 1_000_000))
            &&& res is Err ==> out.len() == 0
        },
    }
}

/// `bench`: the flags, then the benchmark workload.
fn cmd_bench(rest: &[String]) -> (r: (String, Result<(), String>))
    ensures
        bench_post(texts(rest@), r.0@, res_view(r.1)),
{
    let args = match parse_flags(rest) {
        Ok(a) => a,
        Err(m) => { return (String::new(), Err(m)); },
    };
    let n: usize = if args.start.is_none() && args.count == 10 { 10_000 } else { args.count };
    match bench(n) {
        Ok((k, c)) => {
            let mut out = String::from_str("iterations=");
            append_wide(&mut out, k as i128);
            out.append(" checksum=");
            append_wide(&mut out, c);
            out.append("\n");
            proof {
                let chains = choose|chains: Seq<Seq<WallTime>>| #[trigger] bench_chains(chains, (n / 6) as int)
                    && c == chains_sum(chains) / 1_000_000;
                assert(n == bench_count(args@));
                assert(out@ == bench_line(bench_count(args@) / 6 * 6, decimal(chains_sum(chains) / 1_000_000)));
            }
            (out, Ok(()))
        },
        Err(e) => (String::new(), Err(e.message())),
    }
}

/// The help text.
pub open spec fn usage_text() -> Seq<char> {
    "croniter \u{2014} cron expression parsing and next/prev fire times

USAGE:
    croniter next <expr> [-n COUNT] [--start ISO8601] [--tz ZONE]
    croniter prev <expr> [-n COUNT] [--start ISO8601] [--tz ZONE]
    croniter range <expr> --start ISO8601 --stop ISO8601 [--tz ZONE]
    croniter match <expr> <ISO8601> [--tz ZONE]
    croniter validate <expr>
    croniter bench [-n COUNT]

EXAMPLES:
    croniter next '0 9 * * 1-5' -n 5
    croniter next '0 12 L * *' --start 2024-02-01T00:00:00
    croniter match '*/15 * * * *' 2025-06-01T00:15:00
    croniter next '*/30 * * * *' --tz Europe/Athens --start 2013-10-27T02:00:00

Times are ISO 8601 wall-clock. Without --tz they are naive; with --tz they are
local times in that IANA zone, and DST transitions are resolved.
"@
}

/// The help text.
pub fn usage() -> (r: String)
    ensures
        r@ == usage_text(),
{
    String::from_str("croniter \u{2014} cron expression parsing and next/prev fire times

USAGE:
    croniter next <expr> [-n COUNT] [--start ISO8601] [--tz ZONE]
    croniter prev <expr> [-n COUNT] [--start ISO8601] [--tz ZONE]
    croniter range <expr> --start ISO8601 --stop ISO8601 [--tz ZONE]
    croniter match <expr> <ISO8601> [--tz ZONE]
    croniter validate <expr>
    croniter bench [-n COUNT]

EXAMPLES:
    croniter next '0 9 * * 1-5' -n 5
    croniter next '0 12 L * *' --start 2024-02-01T00:00:00
    croniter match '*/15 * * * *' 2025-06-01T00:15:00
    croniter next '*/30 * * * *' --tz Europe/Athens --start 2013-10-27T02:00:00

Times are ISO 8601 wall-clock. Without --tz they are naive; with --tz they are
local times in that IANA zone, and DST transitions are resolved.
")
}


/// What a run of the command line prints and how it ends.
pub struct Outcome {
    pub stdout: String,
    pub stderr: String,
    pub success: bool,
}

/// What the command line writes about a failure: `croniter: ` and the
/// message on a line of its own; nothing for a failure with no message.
pub open spec fn error_line(res: Result<(), Seq<char>>) -> Seq<char> {
    match res {
        Ok(_) => Seq::empty(),
        Err(m) => if m.len() == 0 { Seq::empty() } else { "croniter: "@ + m + "\n"@ },
    }
}

/// What the command named by `a[1]` prints (`out`) and how it ends (`res`).
pub open spec fn dispatch_post(a: Seq<Seq<char>>, now: WallTime, version: Seq<char>, out: Seq<char>,
    res: Result<(), Seq<char>>) -> bool {
    let cmd = a[1];
    let missing_expr = out.len() == 0 && res == Err::<(), Seq<char>>("missing expression"@);
    if cmd == "bench"@ {
        bench_post(a.skip(2), out, res)
    } else if cmd == "next"@ || cmd == "prev"@ {
        if a.len() < 3 { missing_expr } else { step_post(a[2], a.skip(3), now, cmd == "prev"@, out, res) }
    } else if cmd == "range"@ {
        if a.len() < 3 { missing_expr } else { range_post(a[2], a.skip(3), out, res) }
    } else if cmd == "match"@ {
        if a.len() < 3 {
            missing_expr
        } else if a.len() < 4 {
            out.len() == 0 && res == Err::<(), Seq<char>>("missing datetime"@)
        } else {
            match_post(a[2], a[3], a.skip(4), out, res)
        }
    } else if cmd == "validate"@ {
        if a.len() < 3 { missing_expr } else { validate_post(a[2], out, res) }
    } else if cmd == "-h"@ || cmd == "--help"@ || cmd == "help"@ {
        out == usage_text() && res is Ok
    } else if cmd == "--version"@ || cmd == "-V"@ {
        out == "croniter "@ + version + "\n"@ && res is Ok
    } else {
        out.len() == 0 && res == Err::<(), Seq<char>>("unknown command "@ + str_debug(cmd) + "\n\n"@ + usage_text())
    }
}

/// The arguments from `from` on.
fn tail(argv: &[String], from: usize) -> (r: Vec<String>)
    requires
        from <= argv@.len(),
    ensures
        texts(r@) == texts(argv@).skip(from as int),
{
    let mut v: Vec<String> = Vec::new();
    let mut i: usize = from;
    while i < argv.len()
        invariant
            from <= i <= argv@.len(),
            v@.len() == i - from,
            forall|j: int| 0 <= j < v@.len() ==> (#[trigger] v@[j])@ == argv@[from + j]@,
        decreases argv.len() - i,
    {
        let c = argv[i].clone();
        assert(c@ == argv@[i as int]@);
        v.push(c);
        i = i + 1;
    }
    assert(texts(v@) =~= texts(argv@).skip(from as int));
    v
}

/// The command line: `argv[0]` is the program, `argv[1]` the command, the
/// rest its expression, reading and flags. `now` is the reading `next` and
/// `prev` start from without `--start`; `version` is what `--version`
/// prints. Fire times go to `stdout`, one per line; help on the error path
/// and complaints go to `stderr`.
pub fn run(argv: &[String], now: WallTime, version: &str) -> (r: Outcome)
    requires
        now.wf(),
    ensures
        texts(argv@).len() < 2 ==> r.stdout@.len() == 0
            && r.stderr@ == usage_text() + error_line(Err::<(), Seq<char>>("no command given"@)) && !r.success,
        texts(argv@).len() >= 2 ==> exists|res: Result<(), Seq<char>>| #[trigger] dispatch_post(texts(argv@), now,
            version@, r.stdout@, res) && r.stderr@ == error_line(res) && r.success == res is Ok,
{
    let ghost a = texts(argv@);
    if argv.len() < 2 {
        let mut err = usage();
        err.append("croniter: ");
        err.append("no command given");
        err.append("\n");
        proof {
            reveal_strlit("no command given");
        }
        assert(err@ =~= usage_text() + error_line(Err::<(), Seq<char>>("no command given"@)));
        return Outcome { stdout: String::new(), stderr: err, success: false };
    }
    let cmd = chars_of(argv[1].as_str());
    assert(cmd@ == a[1]);
    let (out, res) = if chars_equal_str(&cmd, "bench") {
        let rest = tail(argv, 2);
        cmd_bench(rest.as_slice())
    } else if chars_equal_str(&cmd, "next") || chars_equal_str(&cmd, "prev") {
        if argv.len() < 3 {
            (String::new(), Err(String::from_str("missing expression")))
        } else {
            assert(argv[2 as int]@ == a[2]);
            let rest = tail(argv, 3);
            let is_prev = chars_equal_str(&cmd, "prev");
            cmd_step(argv[2].as_str(), rest.as_slice(), now, is_prev)
        }
    } else if chars_equal_str(&cmd, "range") {
        if argv.len() < 3 {
            (String::new(), Err(String::from_str("missing expression")))
        } else {
            assert(argv[2 as int]@ == a[2]);
            let rest = tail(argv, 3);
            cmd_range(argv[2].as_str(), rest.as_slice())
        }
    } else if chars_equal_str(&cmd, "match") {
        if argv.len() < 3 {
            (String::new(), Err(String::from_str("missing expression")))
        } else if argv.len() < 4 {
            (String::new(), Err(String::from_str("missing datetime")))
        } else {
            assert(argv[2 as int]@ == a[2]);
            assert(argv[3 as int]@ == a[3]);
            let rest = tail(argv, 4);
            cmd_match(argv[2].as_str(), argv[3].as_str(), rest.as_slice())
        }
    } else if chars_equal_str(&cmd, "validate") {
        if argv.len() < 3 {
            (String::new(), Err(String::from_str("missing expression")))
        } else {
            assert(argv[2 as int]@ == a[2]);
            cmd_validate(argv[2].as_str())
        }
    } else if chars_equal_str(&cmd, "-h") || chars_equal_str(&cmd, "--help") || chars_equal_str(&cmd, "help") {
        (usage(), Ok(()))
    } else if chars_equal_str(&cmd, "--version") || chars_equal_str(&cmd, "-V") {
        let mut out = String::from_str("croniter ");
        out.append(version);
        out.append("\n");
        (out, Ok(()))
    } else {
        let mut m = String::from_str("unknown command ");
        let q = quoted(argv[1].as_str());
        m.append(q.as_str());
        m.append("\n\n");
        let u = usage();
        m.append(u.as_str());
        (String::new(), Err(m))
    };
    assert(dispatch_post(a, now, version@, out@, res_view(res)));
    let mut err = String::new();
    let success = match &res {
        Ok(()) => {
            assert(err@ =~= error_line(res_view(res)));
            true
        },
        Err(m) => {
            if m.as_str().unicode_len() > 0 {
                err.append("croniter: ");
                err.append(m.as_str());
                err.append("\n");
            }
            assert(err@ =~= error_line(res_view(res)));
            false
        },
    };
    let r = Outcome { stdout: out, stderr: err, success };
    assert(dispatch_post(texts(argv@), now, version@, r.stdout@, res_view(res)));
    r
}

} // verus!
