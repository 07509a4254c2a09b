//! Every fire time between two bounds, in either direction.
use vstd::prelude::*;
use crate::api::{croniter_of, owned_id_view, CronIterator, Options, RetType, WallClock};
use crate::expand::{expand_gives, Expanded};
use crate::calc::{first_year, last_year, moved, none_fire_on_way, pinned_fire};
use crate::datetime::{micros_in_range, reading_at, WallTime};
use crate::error::CroniterError;

verus! {

/// Direction and bounds adjustment for a range.
#[derive(Clone, Copy, Debug, PartialEq, Eq)]
pub struct RangeSetup {
    /// `start` is before `stop`: iterate forwards; otherwise backwards.
    pub forward: bool,
    /// Microseconds added to `start` (0 with `exclude_ends`).
    pub start_nudge_us: i64,
    /// Microseconds added to `stop` (0 with `exclude_ends`).
    pub stop_nudge_us: i64,
    /// The search window in years: the years the range spans.
    pub year_span: i64,
}

/// The range is widened by a microsecond at each end unless `exclude_ends`,
/// so a fire time exactly on a bound is included.
pub open spec fn spec_setup(start: WallTime, stop: WallTime, exclude_ends: bool) -> RangeSetup {
    let forward = start.epoch() < stop.epoch();
    let span = if stop.year >= start.year { stop.year - start.year } else { start.year - stop.year };
    RangeSetup {
        forward,
        start_nudge_us: if exclude_ends { 0i64 } else if forward { -1i64 } else { 1i64 },
        stop_nudge_us: if exclude_ends { 0i64 } else if forward { 1i64 } else { -1i64 },
        year_span: (span + 1) as i64,
    }
}

/// The direction, nudges and year span of a range from `start` to `stop`.
pub fn setup(start: WallTime, stop: WallTime, exclude_ends: bool) -> (r: RangeSetup)
    requires
        start.wf(),
        stop.wf(),
    ensures
        r == spec_setup(start, stop, exclude_ends),
{
    let forward = start.to_micros() < stop.to_micros();
    let (start_nudge_us, stop_nudge_us) = if exclude_ends {
        (0, 0)
    } else if forward {
        (-1, 1)
    } else {
        (1, -1)
    };
    let span = if stop.year >= start.year { stop.year - start.year } else { start.year - stop.year };
    RangeSetup { forward, start_nudge_us, stop_nudge_us, year_span: span + 1 }
}

/// The fire times of an expression between two bounds.
pub struct CroniterRange {
    pub iter: CronIterator,
    /// The (nudged) bound the range stops at.
    pub stop: WallTime,
    pub forward: bool,
    pub done: bool,
}

/// The options a range searches with.
pub open spec fn range_options(day_or: bool, year_span: i64, second_at_beginning: bool) -> Options {
    Options {
        ret_type: RetType::DateTime,
        day_or,
        max_years_between_matches: Some(year_span),
        is_prev: false,
        hash_id: None,
        implement_cron_bug: false,
        second_at_beginning,
        expand_from_start_time: false,
    }
}

impl CroniterRange {
    /// What every range keeps: a well-formed search and bound.
    pub open spec fn wf(&self) -> bool {
        self.iter.cron.wf() && self.stop.wf()
    }

    /// From reading `now` on the way, a search that fails has passed over
    /// nothing before the bound: the day fields do not fail on their own,
    /// and the window of years searched from `now` (while a first step
    /// from it exists) reaches the bound's year.
    pub open spec fn covers(&self, now: WallTime) -> bool {
        let c = self.iter.cron;
        let d: int = if c.expanded@.len() > 5 { 1_000_000int } else { 60_000_000int };
        &&& !c.split_strict()
        &&& (self.forward && micros_in_range(now.epoch() + d)) ==>
            self.stop.year <= first_year(now, c.expanded@.len() > 5) + c.max_years_between_matches
        &&& (!self.forward && micros_in_range(now.epoch() - 1)) ==>
            self.stop.year >= last_year(now) - c.max_years_between_matches
    }

    /// `croniter_range`: the fire times from `start` towards `stop` (both
    /// included unless `exclude_ends`).
    pub fn new<C: WallClock>(expr_format: &str, start: WallTime, stop: WallTime, clock: &C, day_or: bool,
        exclude_ends: bool, second_at_beginning: bool) -> (r: Result<CroniterRange, CroniterError>)
        requires
            start.wf(),
            stop.wf(),
            micros_in_range(start.epoch() - 1),
            micros_in_range(start.epoch() + 1),
            micros_in_range(stop.epoch() - 1),
            micros_in_range(stop.epoch() + 1),
        ensures
            r matches Ok(rg) ==> {
                let s = spec_setup(start, stop, exclude_ends);
                &&& rg.wf()
                &&& !rg.done
                &&& rg.forward == s.forward
                &&& rg.stop.epoch() == stop.epoch() + s.stop_nudge_us
                &&& rg.iter.cron.max_years_between_matches == (if s.year_span < 1 { 1 } else { s.year_span })
                &&& rg.iter.cron.day_or == day_or
                &&& exists|e: Expanded| #[trigger] expand_gives(expr_format@, None, second_at_beginning, None, false, None,
                    Ok::<Expanded, CroniterError>(e))
                    && rg.iter.cron == croniter_of(e, range_options(day_or, s.year_span, second_at_beginning))
                &&& !clock.aware() ==> rg.iter.cur == (start.epoch() + s.start_nudge_us) as i64
                &&& (!clock.aware() && !rg.iter.cron.split_strict()) ==> rg.covers(reading_at(rg.iter.cur as int))
                &&& clock.instant_of(reading_at(start.epoch() + s.start_nudge_us), rg.iter.cur)
            },
            (!clock.aware() && r is Err) ==> expand_gives(expr_format@, None, second_at_beginning, None, false, None,
                Err::<Expanded, CroniterError>(r->Err_0)),
    {
        let s = setup(start, stop, exclude_ends);
        proof {
            crate::datetime::lemma_epoch_in_range(start);
            crate::datetime::lemma_epoch_in_range(stop);
        }
        let start2 = match start.add_micros(s.start_nudge_us) {
            Some(w) => w,
            None => { return Err(CroniterError::Value(String::from_str("timestamp out of range"))); },
        };
        let stop2 = match stop.add_micros(s.stop_nudge_us) {
            Some(w) => w,
            None => { return Err(CroniterError::Value(String::from_str("timestamp out of range"))); },
        };
        let opts = Options {
            ret_type: RetType::DateTime,
            day_or,
            max_years_between_matches: Some(s.year_span),
            is_prev: false,
            hash_id: None,
            implement_cron_bug: false,
            second_at_beginning,
            expand_from_start_time: false,
        };
        let start_ts = match clock.from_wall(start2) {
            Ok(t) => t,
            Err(e) => { return Err(e); },
        };
        assert(opts == range_options(day_or, s.year_span, second_at_beginning));
        assert(owned_id_view(opts.hash_id) == None::<Seq<u8>>);
        let iter = match CronIterator::new(expr_format, start_ts, opts) {
            Ok(it) => it,
            Err(e) => { return Err(e); },
        };
        let rg = CroniterRange { iter, stop: stop2, forward: s.forward, done: false };
        proof {
            crate::datetime::lemma_reading_at(start2);
            if !clock.aware() {
                let now = start2;
                let c = rg.iter.cron;
                let d: int = if c.expanded@.len() > 5 { 1_000_000int } else { 60_000_000int };
                crate::datetime::lemma_reading_at(start2);
                crate::skip::lemma_year_within_one(stop, stop2);
                if s.forward {
                    crate::skip::lemma_not_earlier_date(start, stop);
                    if micros_in_range(now.epoch() + d) {
                        crate::datetime::lemma_reading_exists(now.epoch() + d);
                        crate::skip::lemma_not_earlier_date(start, reading_at(now.epoch() + d));
                    }
                } else {
                    crate::skip::lemma_not_earlier_date(stop, start);
                    if micros_in_range(now.epoch() - 1) {
                        crate::datetime::lemma_reading_exists(now.epoch() - 1);
                        crate::skip::lemma_not_earlier_date(reading_at(now.epoch() - 1), start);
                    }
                }
            }
        }
        Ok(rg)
    }

    /// The next fire time of the range, or `None` once it is exhausted
    /// (past the bound, or nothing more in the search window).
    pub fn next<C: WallClock>(&mut self, clock: &C) -> (r: Option<WallTime>)
        requires
            old(self).wf(),
        ensures
            final(self).wf(),
            final(self).iter.cron == old(self).iter.cron,
            final(self).stop == old(self).stop,
            final(self).forward == old(self).forward,
            old(self).done ==> r is None && final(self).done,
            r is None ==> final(self).done,
            r matches Some(w) ==> w.wf() && !final(self).done
                && (if old(self).forward { w.epoch() < old(self).stop.epoch() } else { w.epoch() > old(self).stop.epoch() }),
            !clock.aware() ==> (r matches Some(w) ==> old(self).iter.cron.fires(w)
                && moved(clock.wall_at(old(self).iter.cur), w, !old(self).forward)
                && final(self).iter.cur == w.epoch()
                && none_fire_on_way(old(self).iter.cron, clock.wall_at(old(self).iter.cur).epoch(), w.epoch(),
                    !old(self).forward)),
            clock.aware() ==> (r matches Some(w) ==> pinned_fire(clock, old(self).iter.cron, old(self).iter.cur,
                !old(self).forward, w, final(self).iter.cur)),
            (!clock.aware() && !old(self).done && r is None && clock.has_wall(old(self).iter.cur)
                && old(self).covers(clock.wall_at(old(self).iter.cur))) ==> none_fire_on_way(old(self).iter.cron,
                clock.wall_at(old(self).iter.cur).epoch(), old(self).stop.epoch(), !old(self).forward),
    {
        if self.done {
            return None;
        }
        let step = if self.forward {
            self.iter.get_next(clock)
        } else {
            self.iter.get_prev(clock)
        };
        proof {
            let c = self.iter.cron;
            let now = clock.wall_at(self.iter.cur);
            if !clock.aware() && clock.has_wall(self.iter.cur) && self.covers(now) && step is Err {
                let d: int = if c.expanded@.len() > 5 { 1_000_000int } else { 60_000_000int };
                if self.forward {
                    if micros_in_range(now.epoch() + d) {
                        assert forall|x: WallTime| #[trigger] c.fires(x) && x.wf()
                            implies !(now.epoch() < x.epoch() < self.stop.epoch()) by {
                            if now.epoch() < x.epoch() < self.stop.epoch() {
                                crate::skip::lemma_not_earlier_date(x, self.stop);
                            }
                        }
                    } else {
                        crate::calc::lemma_nothing_beyond(c, now, false);
                    }
                } else {
                    if micros_in_range(now.epoch() - 1) {
                        assert forall|x: WallTime| #[trigger] c.fires(x) && x.wf()
                            implies !(self.stop.epoch() < x.epoch() < now.epoch()) by {
                            if self.stop.epoch() < x.epoch() < now.epoch() {
                                crate::skip::lemma_not_earlier_date(self.stop, x);
                            }
                        }
                    } else {
                        crate::calc::lemma_nothing_beyond(c, now, true);
                    }
                }
            }
        }
        match step {
            Ok((wall, _)) => {
                let w_us = wall.to_micros();
                let stop_us = self.stop.to_micros();
                let keep = if self.forward { w_us < stop_us } else { w_us > stop_us };
                if keep {
                    Some(wall)
                } else {
                    self.done = true;
                    None
                }
            },
            Err(_) => {
                self.done = true;
                None
            },
        }
    }
}

/// The window only gains on the bound as a range moves: from a reading
/// further along than one the window covers, it covers too.
pub proof fn lemma_covers_onward(rg: CroniterRange, a: WallTime, b: WallTime)
    requires
        rg.covers(a),
        a.wf(),
        b.wf(),
        if rg.forward { a.epoch() <= b.epoch() } else { b.epoch() <= a.epoch() },
    ensures
        rg.covers(b),
{
    let c = rg.iter.cron;
    let d: int = if c.expanded@.len() > 5 { 1_000_000int } else { 60_000_000int };
    crate::datetime::lemma_epoch_bounds(a);
    crate::datetime::lemma_epoch_bounds(b);
    if rg.forward && micros_in_range(b.epoch() + d) {
        crate::datetime::lemma_range_iff(a.epoch() + d);
        crate::datetime::lemma_range_iff(b.epoch() + d);
        crate::datetime::lemma_reading_exists(a.epoch() + d);
        crate::datetime::lemma_reading_exists(b.epoch() + d);
        crate::skip::lemma_not_earlier_date(reading_at(a.epoch() + d), reading_at(b.epoch() + d));
    }
    if !rg.forward && micros_in_range(b.epoch() - 1) {
        crate::datetime::lemma_range_iff(a.epoch() - 1);
        crate::datetime::lemma_range_iff(b.epoch() - 1);
        crate::datetime::lemma_reading_exists(a.epoch() - 1);
        crate::datetime::lemma_reading_exists(b.epoch() - 1);
        crate::skip::lemma_not_earlier_date(reading_at(b.epoch() - 1), reading_at(a.epoch() - 1));
    }
}

} // verus!
