//! The read-only queries: is an expression well formed, and does an instant
//! fall on its schedule.
//!
//! Matching is defined through the search itself: step backwards from the
//! instant in question and see whether the previous fire time lands within
//! the tolerance.
use vstd::prelude::*;
use crate::api::{croniter_of, step_ctx, owned_id_view, CronIterator, Options, RetType, WallClock};
use crate::calc::{a_side_none_within_window, calc_next_post, last_year, none_fire_between, none_within_window, pinned_fire, year_in_window, Croniter};
use crate::consts::UNIX_CRON_LEN;
use crate::datetime::{micros_in_range, reading_at, WallTime};
use crate::error::ErrorView;
use crate::error::CroniterError;
use crate::expand::{expand, expand_gives, years_view, Expanded};
use crate::hash::id_view;

verus! {

/// Whether the expression expands.
pub fn is_valid(expression: &str, hash_id: Option<&[u8]>, second_at_beginning: bool, strict: bool,
    strict_year: Option<&[i64]>) -> (r: bool)
    ensures
        exists|res: Result<Expanded, CroniterError>| #[trigger] expand_gives(expression@, id_view(hash_id),
            second_at_beginning, None, strict, years_view(strict_year), res) && r == res is Ok,
{
    let res = expand(expression, hash_id, second_at_beginning, None, strict, strict_year);
    res.is_ok()
}

/// A difference of instants in microseconds; 0 when it does not fit in an
/// `i64`.
pub open spec fn micros_between(a: int, b: int) -> int {
    if i64::MIN <= a - b <= i64::MAX { a - b } else { 0 }
}

fn micros_between_exec(a: i64, b: i64) -> (r: i128)
    ensures
        r == micros_between(a as int, b as int),
{
    let d = a as i128 - b as i128;
    if d < i64::MIN as i128 || d > i64::MAX as i128 { 0 } else { d }
}

/// The default tolerance of a match: a second with a seconds field, a
/// minute without.
pub open spec fn default_precision(columns: int) -> int {
    if columns > UNIX_CRON_LEN { 1_000_000 } else { 60_000_000 }
}

/// The verdict of a match: the previous fire time `found` lies within the
/// span from `from` to `to` plus the tolerance of the probe `probe`.
pub open spec fn within(from: WallTime, to: WallTime, probe: WallTime, found: WallTime, precision: int) -> bool {
    let gap = micros_between(probe.epoch(), found.epoch());
    let gap_abs = if gap < 0 { -gap } else { gap };
    gap_abs < micros_between(to.epoch(), from.epoch()) + precision
}

/// The tolerance of a match: as given, or the default for the number of
/// columns.
pub open spec fn match_precision(precision_us: Option<i64>, e: Expanded) -> int {
    match precision_us {
        Some(p) => p as int,
        None => default_precision(e.expanded@.len() as int),
    }
}

/// The options a match searches with.
pub open spec fn match_options(day_or: bool, second_at_beginning: bool) -> Options {
    Options {
        ret_type: RetType::DateTime,
        day_or,
        max_years_between_matches: None,
        is_prev: false,
        hash_id: None,
        implement_cron_bug: false,
        second_at_beginning,
        expand_from_start_time: false,
    }
}

/// The reading a match looks back from: `to_wall`, a microsecond later
/// when it falls on a whole second.
pub open spec fn match_probe(to_wall: WallTime) -> WallTime {
    if to_wall.micro == 0 { reading_at(to_wall.epoch() + 1) } else { to_wall }
}

/// `found` is the latest fire time strictly before `probe`, within the
/// window of years a backward search from `probe` looks through.
pub open spec fn prev_fire(c: Croniter, probe: WallTime, found: WallTime) -> bool {
    &&& found.wf()
    &&& c.fires(found)
    &&& found.epoch() < probe.epoch()
    &&& none_fire_between(c, found.epoch(), probe.epoch())
    &&& year_in_window(c, probe, found, true)
}

/// The verdict of a match from `from_wall` to `to_wall` under search `c`:
/// `true` when the latest fire time before the probe lies within the
/// tolerance; `false` when it lies beyond it or nothing fires within the
/// window (when the day fields are searched apart with qualifiers: one of
/// the two sides has nothing within the window).
pub open spec fn verdict(c: Croniter, from_wall: WallTime, to_wall: WallTime, precision: int, b: bool) -> bool {
    let probe = match_probe(to_wall);
    &&& probe.wf()
    &&& probe.epoch() == (if to_wall.micro == 0 { to_wall.epoch() + 1 } else { to_wall.epoch() })
    &&& b ==> exists|found: WallTime| #[trigger] prev_fire(c, probe, found)
        && within(from_wall, to_wall, probe, found, precision)
    &&& !b ==> (exists|found: WallTime| #[trigger] prev_fire(c, probe, found)
        && !within(from_wall, to_wall, probe, found, precision))
        || (if c.split_strict() { a_side_none_within_window(c, probe, true) } else { none_within_window(c, probe, true) })
}

/// A `true` verdict of a match in a time zone, from the reading `at` that
/// the instant of `to_wall` has: the fire time pinned before the probe's
/// instant lies within the tolerance of the probe.
pub open spec fn zoned_hit<C: WallClock>(clock: &C, c: Croniter, from_wall: WallTime, to_wall: WallTime,
    at: WallTime, precision: int) -> bool {
    let probe = match_probe(at);
    &&& probe.wf()
    &&& exists|t1: i64, found: WallTime, ts: i64| #[trigger] pinned_fire(clock, c, t1, true, found, ts)
        && clock.instant_of(probe, t1) && within(from_wall, to_wall, probe, found, precision)
}

/// `r` is what a backward step of `c` from instant `t1` gives: the
/// search from the reading at `t1` with its time-zone context, or a
/// failure when `t1` has no reading.
pub open spec fn step_back_gives<C: WallClock>(clock: &C, c: Croniter, t1: i64, r: Result<(WallTime, i64), CroniterError>) -> bool {
    &&& clock.has_wall(t1) ==> calc_next_post(c, clock, clock.wall_at(t1), true, step_ctx(clock, t1), r)
    &&& !clock.has_wall(t1) ==> r is Err
}

/// The answer `b` of a match in a time zone, where `t0` is the instant of
/// `to_wall`: the probe is the reading at `t0` (a microsecond on when it
/// falls on a whole second); from the probe's instant `t1` the search steps
/// back, and `b` is whether the fire time it gives lies within the
/// tolerance, `false` when it reports `BadDate`.
pub open spec fn zoned_verdict<C: WallClock>(clock: &C, c: Croniter, from_wall: WallTime, to_wall: WallTime, t0: i64,
    precision: int, b: bool) -> bool {
    let probe = match_probe(clock.wall_at(t0));
    &&& probe.wf()
    &&& exists|t1: i64, r: Result<(WallTime, i64), CroniterError>| #[trigger] step_back_gives(clock, c, t1, r)
        && clock.instant_of(probe, t1)
        && match r {
            Ok((found, _)) => b == within(from_wall, to_wall, probe, found, precision),
            Err(err) => !b && err is BadDate,
        }
}

/// How a match in a time zone fails with `err` once the expression has
/// expanded and `to_wall` has the instant `t0`: `t0` has no reading, the
/// probe lies past the last representable reading or has no instant, or the
/// backward step from the probe's instant fails with other than `BadDate`.
pub open spec fn zoned_failure<C: WallClock>(clock: &C, c: Croniter, t0: i64, err: CroniterError) -> bool {
    let at = clock.wall_at(t0);
    let probe = match_probe(at);
    ||| !clock.has_wall(t0)
    ||| at.micro == 0 && !micros_in_range(at.epoch() + 1) && err@ == ErrorView::Value("timestamp out of range"@)
    ||| !clock.has_instant(probe)
    ||| exists|t1: i64| #[trigger] step_back_gives(clock, c, t1, Err::<(WallTime, i64), CroniterError>(err))
        && clock.instant_of(probe, t1) && !(err is BadDate)
}

/// Whether the expression fires between `from_wall`
/// and `to_wall`, give or take `precision_us` microseconds (a second or a
/// minute by default).
///
/// The probe is the reading at `to_wall`, a microsecond later when it falls
/// on a whole second; the previous fire time before it is looked up, and
/// the verdict is `within` of the two. When the search finds nothing the
/// answer is `false`. Without a time zone the answer is the `verdict` of
/// the expression's search; the only failures are an expression that does
/// not expand and a probe past the last representable reading. In a time
/// zone the answer is the `zoned_verdict` of the search from the probe's
/// instant, and the failures are those `zoned_failure` lists.
#[verifier::spinoff_prover]
#[verifier::rlimit(60)]
pub fn match_range<C: WallClock>(cron_expression: &str, from_wall: WallTime, to_wall: WallTime, clock: &C,
    day_or: bool, second_at_beginning: bool, precision_us: Option<i64>) -> (r: Result<bool, CroniterError>)
    requires
        from_wall.wf(),
        to_wall.wf(),
    ensures
        !clock.aware() ==> (r matches Ok(b) ==> exists|e: Expanded|
            #[trigger] expand_gives(cron_expression@, None, second_at_beginning, None, false, None, Ok::<Expanded, CroniterError>(e))
            && verdict(croniter_of(e, match_options(day_or, second_at_beginning)), from_wall, to_wall,
                match_precision(precision_us, e), b)),
        !clock.aware() ==> (r matches Err(err) ==> expand_gives(cron_expression@, None, second_at_beginning, None, false,
            None, Err::<Expanded, CroniterError>(err))
            || (to_wall.micro == 0 && !micros_in_range(to_wall.epoch() + 1)
                && err@ == ErrorView::Value("timestamp out of range"@))),
        clock.aware() ==> (r matches Ok(true) ==> exists|e: Expanded, t0: i64| #![trigger expand_gives(cron_expression@,
            None, second_at_beginning, None, false, None, Ok::<Expanded, CroniterError>(e)), clock.instant_of(to_wall, t0)]
            expand_gives(cron_expression@, None, second_at_beginning, None, false, None, Ok::<Expanded, CroniterError>(e))
            && clock.instant_of(to_wall, t0) && clock.has_wall(t0)
            && zoned_hit(clock, croniter_of(e, match_options(day_or, second_at_beginning)), from_wall, to_wall,
                clock.wall_at(t0), match_precision(precision_us, e))),
        clock.aware() ==> (r matches Ok(b) ==> exists|e: Expanded, t0: i64| #![trigger expand_gives(cron_expression@,
            None, second_at_beginning, None, false, None, Ok::<Expanded, CroniterError>(e)), clock.instant_of(to_wall, t0)]
            expand_gives(cron_expression@, None, second_at_beginning, None, false, None, Ok::<Expanded, CroniterError>(e))
            && clock.instant_of(to_wall, t0) && clock.has_wall(t0)
            && zoned_verdict(clock, croniter_of(e, match_options(day_or, second_at_beginning)), from_wall, to_wall,
                t0, match_precision(precision_us, e), b)),
        clock.aware() ==> (r matches Err(err) ==> !clock.has_instant(to_wall)
            || expand_gives(cron_expression@, None, second_at_beginning, None, false, None, Err::<Expanded, CroniterError>(err))
            || exists|e: Expanded, t0: i64| #![trigger expand_gives(cron_expression@, None, second_at_beginning, None, false,
                None, Ok::<Expanded, CroniterError>(e)), clock.instant_of(to_wall, t0)]
                expand_gives(cron_expression@, None, second_at_beginning, None, false, None, Ok::<Expanded, CroniterError>(e))
                && clock.instant_of(to_wall, t0)
                && zoned_failure(clock, croniter_of(e, match_options(day_or, second_at_beginning)), t0, err)),
{
    let opts = Options {
        ret_type: RetType::DateTime,
        day_or,
        max_years_between_matches: None,
        is_prev: false,
        hash_id: None,
        implement_cron_bug: false,
        second_at_beginning,
        expand_from_start_time: false,
    };
    assert(opts == match_options(day_or, second_at_beginning));
    assert(owned_id_view(opts.hash_id) == None::<Seq<u8>>);
    let to_ts = match clock.from_wall(to_wall) {
        Ok(t) => t,
        Err(e) => { return Err(e); },
    };
    let mut cron = match CronIterator::new(cron_expression, to_ts, opts) {
        Ok(c) => c,
        Err(e) => { return Err(e); },
    };
    let ghost eg = choose|e: Expanded| #[trigger] expand_gives(cron_expression@, None, second_at_beginning,
        None, false, None, Ok::<Expanded, CroniterError>(e)) && cron.cron == croniter_of(e, match_options(day_or, second_at_beginning));
    let mut tdp = match cron.get_current_wall(clock) {
        Ok(w) => w,
        Err(e) => { return Err(e); },
    };
    let ghost at = tdp;
    if tdp.micro == 0 {
        tdp = match tdp.add_micros(1) {
            Some(w) => w,
            None => { return Err(CroniterError::Value(String::from_str("timestamp out of range"))); },
        };
    }
    let probe_ts = match clock.from_wall(tdp) {
        Ok(t) => t,
        Err(e) => {
            proof {
                crate::datetime::lemma_reading_at(tdp);
                assert(tdp == match_probe(at));
                assert(expand_gives(cron_expression@, None, second_at_beginning, None, false, None,
                    Ok::<Expanded, CroniterError>(eg)));
                assert(clock.instant_of(to_wall, to_ts));
                assert(zoned_failure(clock, croniter_of(eg, match_options(day_or, second_at_beginning)), to_ts, e));
            }
            return Err(e);
        },
    };
    cron.set_current(probe_ts);
    proof {
        crate::datetime::lemma_reading_at(tdp);
        assert(tdp == match_probe(at));
    }
    let ghost c = cron.cron;
    let ghost mut tdt_ts: i64 = 0;
    let stepped = cron.step(clock, Some(true), None, true);
    proof {
        assert(step_back_gives(clock, c, probe_ts, stepped));
    }
    let tdt = match stepped {
        Ok((w, t)) => {
            proof {
                tdt_ts = t;
            }
            w
        },
        Err(CroniterError::BadDate(_)) => {
            proof {
                if !clock.aware() {
                    assert(verdict(c, from_wall, to_wall, match_precision(precision_us, eg), false));
                } else {
                    assert(clock.instant_of(tdp, probe_ts));
                    assert(zoned_verdict(clock, c, from_wall, to_wall, to_ts, match_precision(precision_us, eg), false));
                }
            }
            return Ok(false);
        },
        Err(e) => { return Err(e); },
    };
    let precision: i64 = match precision_us {
        Some(p) => p,
        None => if cron.cron.len() > UNIX_CRON_LEN { 1_000_000 } else { 60_000_000 },
    };
    let span = micros_between_exec(to_wall.to_micros(), from_wall.to_micros());
    let gap = micros_between_exec(tdp.to_micros(), tdt.to_micros());
    let gap_abs = if gap < 0 { -gap } else { gap };
    let hit = gap_abs < span + precision as i128;
    proof {
        if !clock.aware() {
            assert(expand_gives(cron_expression@, None, second_at_beginning, None, false, None,
                Ok::<Expanded, CroniterError>(eg)));
            assert(prev_fire(c, tdp, tdt));
            assert(hit == within(from_wall, to_wall, tdp, tdt, match_precision(precision_us, eg)));
            assert(verdict(c, from_wall, to_wall, match_precision(precision_us, eg), hit));
        }
        if clock.aware() {
            assert(clock.instant_of(tdp, probe_ts));
            assert(hit == within(from_wall, to_wall, tdp, tdt, match_precision(precision_us, eg)));
            assert(zoned_verdict(clock, c, from_wall, to_wall, to_ts, match_precision(precision_us, eg), hit));
        }
        if clock.aware() && hit {
            assert(pinned_fire(clock, c, probe_ts, true, tdt, tdt_ts));
            assert(within(from_wall, to_wall, tdp, tdt, match_precision(precision_us, eg)));
            assert(zoned_hit(clock, c, from_wall, to_wall, at, match_precision(precision_us, eg)));
            assert(expand_gives(cron_expression@, None, second_at_beginning, None, false, None,
                Ok::<Expanded, CroniterError>(eg)));
        }
    }
    Ok(hit)
}

/// Whether reading `w` lies on the grid a search of `c` steps along: no
/// microseconds, and no seconds without a seconds field.
pub open spec fn on_grid(c: Croniter, w: WallTime) -> bool {
    w.micro == 0 && (c.expanded@.len() <= UNIX_CRON_LEN ==> w.second == 0)
}

/// Whether the expression fires at `moment`, give or take
/// the tolerance.
///
/// Without a time zone the answer is the `verdict` of the expression's
/// search at `moment`; with the default tolerance, at a reading on the
/// expression's grid, that is whether the expression fires there (unless the
/// day fields are searched apart with qualifiers).
pub fn is_match<C: WallClock>(cron_expression: &str, moment: WallTime, clock: &C, day_or: bool,
    second_at_beginning: bool, precision_us: Option<i64>) -> (r: Result<bool, CroniterError>)
    requires
        moment.wf(),
    ensures
        !clock.aware() ==> (r matches Ok(b) ==> exists|e: Expanded|
            #[trigger] expand_gives(cron_expression@, None, second_at_beginning, None, false, None, Ok::<Expanded, CroniterError>(e))
            && verdict(croniter_of(e, match_options(day_or, second_at_beginning)), moment, moment,
                match_precision(precision_us, e), b)
            && ((precision_us is None && on_grid(croniter_of(e, match_options(day_or, second_at_beginning)), moment)
                && !croniter_of(e, match_options(day_or, second_at_beginning)).split_strict())
                ==> b == croniter_of(e, match_options(day_or, second_at_beginning)).fires(moment))),
        !clock.aware() ==> (r matches Err(err) ==> expand_gives(cron_expression@, None, second_at_beginning, None, false,
            None, Err::<Expanded, CroniterError>(err))
            || (moment.micro == 0 && !micros_in_range(moment.epoch() + 1)
                && err@ == ErrorView::Value("timestamp out of range"@))),
        clock.aware() ==> (r matches Ok(true) ==> exists|e: Expanded, t0: i64| #![trigger expand_gives(cron_expression@,
            None, second_at_beginning, None, false, None, Ok::<Expanded, CroniterError>(e)), clock.instant_of(moment, t0)]
            expand_gives(cron_expression@, None, second_at_beginning, None, false, None, Ok::<Expanded, CroniterError>(e))
            && clock.instant_of(moment, t0) && clock.has_wall(t0)
            && zoned_hit(clock, croniter_of(e, match_options(day_or, second_at_beginning)), moment, moment,
                clock.wall_at(t0), match_precision(precision_us, e))),
        clock.aware() ==> (r matches Ok(b) ==> exists|e: Expanded, t0: i64| #![trigger expand_gives(cron_expression@,
            None, second_at_beginning, None, false, None, Ok::<Expanded, CroniterError>(e)), clock.instant_of(moment, t0)]
            expand_gives(cron_expression@, None, second_at_beginning, None, false, None, Ok::<Expanded, CroniterError>(e))
            && clock.instant_of(moment, t0) && clock.has_wall(t0)
            && zoned_verdict(clock, croniter_of(e, match_options(day_or, second_at_beginning)), moment, moment,
                t0, match_precision(precision_us, e), b)),
        clock.aware() ==> (r matches Err(err) ==> !clock.has_instant(moment)
            || expand_gives(cron_expression@, None, second_at_beginning, None, false, None, Err::<Expanded, CroniterError>(err))
            || exists|e: Expanded, t0: i64| #![trigger expand_gives(cron_expression@, None, second_at_beginning, None, false,
                None, Ok::<Expanded, CroniterError>(e)), clock.instant_of(moment, t0)]
                expand_gives(cron_expression@, None, second_at_beginning, None, false, None, Ok::<Expanded, CroniterError>(e))
                && clock.instant_of(moment, t0)
                && zoned_failure(clock, croniter_of(e, match_options(day_or, second_at_beginning)), t0, err)),
{
    let r = match_range(cron_expression, moment, moment, clock, day_or, second_at_beginning, precision_us);
    proof {
        if !clock.aware() && r is Ok {
            let b = r->Ok_0;
            let e = choose|e: Expanded| #[trigger] expand_gives(cron_expression@, None, second_at_beginning, None, false,
                None, Ok::<Expanded, CroniterError>(e))
                && verdict(croniter_of(e, match_options(day_or, second_at_beginning)), moment, moment,
                    match_precision(precision_us, e), b);
            let c = croniter_of(e, match_options(day_or, second_at_beginning));
            if precision_us is None && on_grid(c, moment) && !c.split_strict() {
                lemma_match_on_grid(c, moment, match_precision(precision_us, e), b);
            }
        }
    }
    r
}

/// At a reading on the grid, with the grid's own tolerance, the verdict of
/// a match is whether the expression fires there.
proof fn lemma_match_on_grid(c: Croniter, moment: WallTime, precision: int, b: bool)
    requires
        moment.wf(),
        on_grid(c, moment),
        !c.split_strict(),
        c.max_years_between_matches == 50,
        precision == default_precision(c.expanded@.len() as int),
        verdict(c, moment, moment, precision, b),
    ensures
        b == c.fires(moment),
{
    let probe = match_probe(moment);
    crate::datetime::lemma_reading_at(moment);
    assert(last_year(probe) == moment.year);
    if b {
        let found = choose|found: WallTime| #[trigger] prev_fire(c, probe, found)
            && within(moment, moment, probe, found, precision);
        if !c.fires(moment) {
            if found.epoch() == moment.epoch() {
                crate::datetime::lemma_epoch_injective(found, moment.year as int, moment.month as int, moment.day as int,
                    moment.hour as int, moment.minute as int, moment.second as int, moment.micro as int);
            }
            lemma_grid_gap(c, found, moment);
            lemma_gap_fits(found, moment);
        }
    } else {
        if c.fires(moment) {
            if exists|found: WallTime| #[trigger] prev_fire(c, probe, found) && !within(moment, moment, probe, found, precision) {
                let found = choose|found: WallTime| #[trigger] prev_fire(c, probe, found)
                    && !within(moment, moment, probe, found, precision);
                assert(c.fires(moment) && moment.wf());
                assert(found.epoch() == moment.epoch());
            } else {
                assert(c.fires(moment) && moment.wf());
            }
        }
    }
}

/// Two readings on a search's grid lie a whole grid step apart.
#[verifier::spinoff_prover]
proof fn lemma_grid_gap(c: Croniter, a: WallTime, b: WallTime)
    requires
        a.wf(),
        b.wf(),
        on_grid(c, a),
        on_grid(c, b),
        a.epoch() < b.epoch(),
    ensures
        b.epoch() - a.epoch() >= default_precision(c.expanded@.len() as int),
{
    crate::skip::lemma_units(a);
    crate::skip::lemma_units(b);
    if c.expanded@.len() <= UNIX_CRON_LEN {
        let ma = crate::skip::abs_minute(a);
        let mb = crate::skip::abs_minute(b);
        assert(a.epoch() == ma * 60_000_000);
        assert(b.epoch() == mb * 60_000_000);
        assert(mb * 60_000_000 - ma * 60_000_000 >= 60_000_000) by (nonlinear_arith)
            requires
                ma * 60_000_000 < mb * 60_000_000;
    } else {
        let sa = crate::skip::abs_second(a);
        let sb = crate::skip::abs_second(b);
        assert(a.epoch() == sa * 1_000_000);
        assert(b.epoch() == sb * 1_000_000);
        assert(sb * 1_000_000 - sa * 1_000_000 >= 1_000_000) by (nonlinear_arith)
            requires
                sa * 1_000_000 < sb * 1_000_000;
    }
}

/// A reading no more than fifty years before `moment` lies within an
/// `i64` of microseconds of it.
proof fn lemma_gap_fits(found: WallTime, moment: WallTime)
    requires
        found.wf(),
        moment.wf(),
        found.year >= moment.year - 50,
        found.epoch() <= moment.epoch(),
    ensures
        moment.epoch() + 1 - found.epoch() <= i64::MAX,
{
    crate::skip::lemma_units(found);
    crate::skip::lemma_units(moment);
    crate::datetime::lemma_end_of_year(found.year as int, found.month as int, found.day as int);
    crate::datetime::lemma_end_of_year(moment.year as int, moment.month as int, moment.day as int);
    crate::datetime::lemma_years_ordered(moment.year - 50, found.year as int);
    crate::datetime::lemma_years_bounded(moment.year - 50, moment.year + 1);
}

} // verus!
