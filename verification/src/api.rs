//! The stateful surface: the cursor that steps through fire times, and the
//! clock that maps instants to wall-clock readings.
//!
//! Instants are microseconds since 1970-01-01 00:00:00 UTC; the search
//! engine works on wall-clock readings and a `WallClock` converts between
//! the two.
use vstd::prelude::*;
use crate::calc::{a_side_none_within_window, bad_date_view, calc_next_post, moved, none_fire_between, none_within_window, pinned_fire, search_window, year_in_window, AwareCtx, Croniter};
use crate::datetime::{micros_in_range, reading_at, WallTime};
use crate::error::CroniterError;
use crate::expand::{expand, expand_gives, Expanded};

verus! {

/// Outcome of pinning a wall-clock reading onto the timeline.
#[derive(Clone, Copy, Debug)]
pub struct Resolved {
    /// The reading actually used: later than the one asked for when that one
    /// was skipped by a transition.
    pub wall: WallTime,
    /// The instant it corresponds to, in microseconds since the epoch.
    pub utc: i64,
    /// UTC offset in seconds east.
    pub offset: i64,
    /// False when the requested reading was skipped by a transition.
    pub exists: bool,
}

/// `a` comes after `b` in the direction of travel.
pub open spec fn spec_is_successor(a_utc: int, b_utc: int, is_prev: bool) -> bool {
    if is_prev { a_utc < b_utc } else { a_utc > b_utc }
}

/// `a` comes after `b` in the direction of travel.
pub fn is_successor(a_utc: i64, b_utc: i64, is_prev: bool) -> (r: bool)
    ensures
        r == spec_is_successor(a_utc as int, b_utc as int, is_prev),
{
    if is_prev {
        a_utc < b_utc
    } else {
        a_utc > b_utc
    }
}

/// `x` microseconds as whole seconds, rounded half away from zero and
/// saturated to the `i64` range.
pub open spec fn spec_round_seconds(x: int) -> int {
    let q = if x >= 0 { (x + 500_000) / 1_000_000 } else { -((-x + 500_000) / 1_000_000) };
    if q > i64::MAX { i64::MAX as int } else if q < i64::MIN { i64::MIN as int } else { q }
}

/// The time-zone context a search from instant `cur` runs with: none
/// without a time zone; else `cur` and its offset, in whole seconds.
pub open spec fn step_ctx<C: WallClock>(clock: &C, cur: i64) -> Option<AwareCtx> {
    if clock.aware() {
        Some(AwareCtx { now_utc: cur, now_offset: spec_round_seconds(clock.wall_at(cur).epoch() - cur) as i64 })
    } else {
        None
    }
}

pub fn round_seconds(x: i128) -> (r: i64)
    requires
        -0x1_0000_0000_0000_0000_0000 <= x <= 0x1_0000_0000_0000_0000_0000,
    ensures
        r == spec_round_seconds(x as int),
{
    let q: i128 = if x >= 0 { (x + 500_000) / 1_000_000 } else { -((-x + 500_000) / 1_000_000) };
    if q > i64::MAX as i128 {
        i64::MAX
    } else if q < i64::MIN as i128 {
        i64::MIN
    } else {
        q as i64
    }
}

/// Converts between instants and the wall-clock readings the cron fields
/// are matched against. This is the only place a time zone is consulted.
pub trait WallClock {
    /// The reading at instant `ts`, when the clock has one.
    spec fn wall_at(&self, ts: i64) -> WallTime;

    /// Whether instant `ts` has a reading on this clock.
    spec fn has_wall(&self, ts: i64) -> bool;

    /// Whether a time zone is attached at all.
    spec fn aware(&self) -> bool;

    /// The reading at instant `ts`.
    fn to_wall(&self, ts: i64) -> (r: Result<WallTime, CroniterError>)
        ensures
            r matches Ok(w) ==> w.wf() && w == self.wall_at(ts),
            r is Ok <==> self.has_wall(ts);

    /// `t` is the instant this clock gives reading `wall`.
    spec fn instant_of(&self, wall: WallTime, t: i64) -> bool;

    /// The instant of reading `wall`; without a time zone, the reading
    /// taken as UTC.
    fn from_wall(&self, wall: WallTime) -> (r: Result<i64, CroniterError>)
        requires
            wall.wf(),
        ensures
            !self.aware() ==> r == Ok::<i64, CroniterError>(wall.epoch() as i64)
                && self.has_wall(wall.epoch() as i64) && self.wall_at(wall.epoch() as i64) == wall,
            r matches Ok(t) ==> self.instant_of(wall, t),
            r is Ok <==> self.has_instant(wall);

    /// Whether reading `wall` has an instant on this clock.
    spec fn has_instant(&self, wall: WallTime) -> bool;

    /// Whether a time zone is attached at all.
    fn is_aware(&self) -> (r: bool)
        ensures
            r == self.aware();

    /// `v` is how this clock pins `wall` onto the timeline, coming from
    /// `prev_utc` in the direction of travel.
    spec fn resolves(&self, wall: WallTime, prev_utc: i64, is_prev: bool, v: Resolved) -> bool;

    /// Pin `wall` onto the timeline across a transition: an
    /// ambiguous reading takes the side nearer `prev_utc` that is still in
    /// the direction of travel; a skipped reading moves forward until it
    /// exists and is reported with `exists == false`.
    fn resolve(&self, wall: WallTime, prev_utc: i64, is_prev: bool) -> (r: Result<Resolved, CroniterError>)
        requires
            wall.wf(),
        ensures
            r matches Ok(v) ==> v.wall.wf() && self.resolves(wall, prev_utc, is_prev, v),
            r is Ok <==> self.resolvable(wall);

    /// Whether this clock can pin `wall` onto the timeline at all.
    spec fn resolvable(&self, wall: WallTime) -> bool;
}

/// How wall-clock time relates to UTC for a clock without transitions.
#[derive(Clone, Copy, Debug, PartialEq, Eq)]
pub enum TzSpec {
    Naive,
    /// A fixed offset, in seconds east of UTC.
    Offset(i32),
}

impl TzSpec {
    pub open spec fn spec_offset_seconds(&self) -> int {
        match self {
            TzSpec::Naive => 0,
            TzSpec::Offset(s) => *s as int,
        }
    }

    pub fn offset_seconds(&self) -> (r: i64)
        ensures
            r == self.spec_offset_seconds(),
    {
        match self {
            TzSpec::Naive => 0,
            TzSpec::Offset(s) => *s as i64,
        }
    }
}

/// A clock for naive and fixed-offset time: no transitions.
#[derive(Clone, Copy, Debug)]
pub struct FixedClock(pub TzSpec);

impl WallClock for FixedClock {
    /// The reading at `ts` plus the offset.
    open spec fn wall_at(&self, ts: i64) -> WallTime {
        reading_at(ts + self.0.spec_offset_seconds() * 1_000_000)
    }

    open spec fn has_wall(&self, ts: i64) -> bool {
        micros_in_range(ts + self.0.spec_offset_seconds() * 1_000_000)
    }

    open spec fn aware(&self) -> bool {
        !(self.0 is Naive)
    }

    /// The reading's instant less the offset.
    open spec fn instant_of(&self, wall: WallTime, t: i64) -> bool {
        t == wall.epoch() - self.0.spec_offset_seconds() * 1_000_000
    }

    /// Every reading has an instant.
    open spec fn has_instant(&self, wall: WallTime) -> bool {
        true
    }

    /// Every reading can be pinned.
    open spec fn resolvable(&self, wall: WallTime) -> bool {
        true
    }

    /// The reading itself, at its instant less the offset.
    open spec fn resolves(&self, wall: WallTime, prev_utc: i64, is_prev: bool, v: Resolved) -> bool {
        v == Resolved { wall, utc: (wall.epoch() - self.0.spec_offset_seconds() * 1_000_000) as i64,
            offset: self.0.spec_offset_seconds() as i64, exists: true }
    }

    /// The reading at `ts` shifted by the offset; `Value` when it falls
    /// outside the representable range.
    fn to_wall(&self, ts: i64) -> (r: Result<WallTime, CroniterError>)
        ensures
            r matches Ok(w) ==> w.epoch() == ts + self.0.spec_offset_seconds() * 1_000_000,
            r is Err ==> r->Err_0 is Value,
            r is Ok <==> micros_in_range(ts + self.0.spec_offset_seconds() * 1_000_000),
    {
        let off = self.0.offset_seconds();
        match WallTime::from_micros(ts as i128 + off as i128 * 1_000_000) {
            Some(w) => {
                proof {
                    crate::datetime::lemma_reading_at(w);
                }
                Ok(w)
            },
            None => Err(CroniterError::Value(String::from_str("timestamp out of range"))),
        }
    }

    /// The instant of `wall`, less the offset.
    fn from_wall(&self, wall: WallTime) -> (r: Result<i64, CroniterError>)
        ensures
            r == Ok::<i64, CroniterError>((wall.epoch() - self.0.spec_offset_seconds() * 1_000_000) as i64),
    {
        proof {
            crate::datetime::lemma_day_number_bounds(wall.year as int, wall.month as int, wall.day as int);
            lemma_fixed_roundtrip(*self, wall);
        }
        let off = self.0.offset_seconds();
        Ok(wall.to_micros() - off * 1_000_000)
    }

    fn is_aware(&self) -> (r: bool)
        ensures
            r == !(self.0 is Naive),
    {
        match self.0 {
            TzSpec::Naive => false,
            TzSpec::Offset(_) => true,
        }
    }

    /// With no transitions every reading exists once: its instant and the
    /// fixed offset.
    fn resolve(&self, wall: WallTime, prev_utc: i64, is_prev: bool) -> (r: Result<Resolved, CroniterError>)
        ensures
            r matches Ok(v) ==> v.wall == wall && v.exists
                && v.utc == wall.epoch() - self.0.spec_offset_seconds() * 1_000_000
                && v.offset == self.0.spec_offset_seconds(),
            r is Ok,
    {
        let utc = match self.from_wall(wall) {
            Ok(u) => u,
            Err(e) => { return Err(e); },
        };
        proof {
            crate::datetime::lemma_day_number_bounds(wall.year as int, wall.month as int, wall.day as int);
        }
        let off = self.0.offset_seconds();
        let diff = wall.to_micros() as i128 - utc as i128;
        assert(diff == off * 1_000_000);
        if off >= 0 {
            assert((off * 1_000_000 + 500_000) / 1_000_000 == off);
        } else {
            assert((-(off * 1_000_000) + 500_000) / 1_000_000 == -off);
        }
        let offset = round_seconds(diff);
        Ok(Resolved { wall, utc, offset, exists: true })
    }
}

/// Without transitions, the instant `from_wall` gives a reading has that
/// reading again: `to_wall` undoes `from_wall`.
pub proof fn lemma_fixed_roundtrip(c: FixedClock, w: WallTime)
    requires
        w.wf(),
    ensures
        ({
            let t = (w.epoch() - c.0.spec_offset_seconds() * 1_000_000) as i64;
            c.has_wall(t) && c.wall_at(t) == w
        }),
{
    crate::datetime::lemma_epoch_bounds(w);
    crate::datetime::lemma_epoch_in_range(w);
    crate::datetime::lemma_reading_at(w);
}

/// What a caller wants back from a step: the instant or the reading.
#[derive(Clone, Copy, Debug, PartialEq, Eq)]
pub enum RetType {
    Float,
    DateTime,
}

/// The options an iterator takes besides the expression and its start.
#[derive(Clone, Debug)]
pub struct Options {
    pub ret_type: RetType,
    /// Day of month and day of week both restricted means either (`true`)
    /// or both (`false`).
    pub day_or: bool,
    /// How many years a search looks ahead (50 when not given).
    pub max_years_between_matches: Option<i64>,
    /// Step backwards by default.
    pub is_prev: bool,
    /// The key of `h` expressions.
    pub hash_id: Option<Vec<u8>>,
    /// Intersect the day fields when either raw field starts with `*`.
    pub implement_cron_bug: bool,
    /// The first of 6 or 7 columns is the seconds field.
    pub second_at_beginning: bool,
    /// Start step ranges at the start time's place on their grid.
    pub expand_from_start_time: bool,
}

impl Default for Options {
    fn default() -> (r: Self)
        ensures
            r.ret_type == RetType::Float,
            r.day_or,
            r.max_years_between_matches is None,
            !r.is_prev,
            r.hash_id is None,
            !r.implement_cron_bug,
            !r.second_at_beginning,
            !r.expand_from_start_time,
    {
        Options {
            ret_type: RetType::Float,
            day_or: true,
            max_years_between_matches: None,
            is_prev: false,
            hash_id: None,
            implement_cron_bug: false,
            second_at_beginning: false,
            expand_from_start_time: false,
        }
    }
}

/// The bytes of an owned hash id, if one is given.
pub open spec fn owned_id_view(hash_id: Option<Vec<u8>>) -> Option<Seq<u8>> {
    match hash_id {
        Some(v) => Some(v@),
        None => None,
    }
}

/// The instant step ranges start from, when the options ask for it.
pub open spec fn expand_start(opts: Options, start_ts: i64) -> Option<i64> {
    if opts.expand_from_start_time { Some(start_ts) } else { None }
}

/// The search an iterator made from expansion `e` with options `opts` runs.
pub open spec fn croniter_of(e: Expanded, opts: Options) -> Croniter {
    Croniter {
        expanded: e.expanded,
        nth_weekday_of_month: e.nth_weekday_of_month,
        expressions: e.expressions,
        nearest_weekday: e.nearest_weekday,
        day_or: opts.day_or,
        implement_cron_bug: opts.implement_cron_bug,
        max_years_between_matches: search_window(opts.max_years_between_matches),
        max_years_explicitly_set: opts.max_years_between_matches is Some,
        is_prev: opts.is_prev,
    }
}

/// A cursor over the fire times of an expression. Instants are
/// microseconds since the epoch.
#[derive(Clone, Debug)]
pub struct CronIterator {
    pub cron: Croniter,
    pub ret_type: RetType,
    pub start_time: i64,
    pub dst_start_time: i64,
    pub cur: i64,
    pub is_prev: bool,
    pub second_at_beginning: bool,
    pub expand_from_start_time: bool,
}

impl CronIterator {
    /// Expands `expr_format` and places the cursor at
    /// `start_ts`.
    pub fn new(expr_format: &str, start_ts: i64, opts: Options) -> (r: Result<CronIterator, CroniterError>)
        ensures
            ({
                let from = expand_start(opts, start_ts);
                match r {
                    Ok(it) => {
                        &&& exists|e: Expanded| #[trigger] expand_gives(expr_format@, owned_id_view(opts.hash_id),
                            opts.second_at_beginning, from, false, None, Ok::<Expanded, CroniterError>(e))
                            && it.cron == croniter_of(e, opts)
                        &&& it.cur == start_ts && it.start_time == start_ts && it.dst_start_time == start_ts
                        &&& it.ret_type == opts.ret_type && it.is_prev == opts.is_prev
                        &&& it.second_at_beginning == opts.second_at_beginning
                        &&& it.expand_from_start_time == opts.expand_from_start_time
                        &&& it.cron.wf()
                    },
                    Err(err) => expand_gives(expr_format@, owned_id_view(opts.hash_id), opts.second_at_beginning,
                        from, false, None, Err::<Expanded, CroniterError>(err)),
                }
            }),
    {
        let from_timestamp = if opts.expand_from_start_time { Some(start_ts) } else { None };
        let hid: Option<&[u8]> = match &opts.hash_id {
            Some(v) => Some(v.as_slice()),
            None => None,
        };
        assert(crate::hash::id_view(hid) == owned_id_view(opts.hash_id));
        assert(crate::expand::years_view(None) == None::<Seq<i64>>);
        let e = match expand(expr_format, hid, opts.second_at_beginning, from_timestamp, false, None) {
            Ok(e) => e,
            Err(err) => { return Err(err); },
        };
        let ghost eg = e;
        let cron = Croniter::from_expanded(e, opts.day_or, opts.implement_cron_bug,
            opts.max_years_between_matches, opts.is_prev);
        assert(cron == croniter_of(eg, opts));
        Ok(CronIterator {
            cron,
            ret_type: opts.ret_type,
            start_time: start_ts,
            dst_start_time: start_ts,
            cur: start_ts,
            is_prev: opts.is_prev,
            second_at_beginning: opts.second_at_beginning,
            expand_from_start_time: opts.expand_from_start_time,
        })
    }

    /// Moves the cursor to `ts`.
    pub fn set_current(&mut self, ts: i64)
        ensures
            *final(self) == (CronIterator { start_time: ts, dst_start_time: ts, cur: ts, ..*old(self) }),
    {
        self.start_time = ts;
        self.dst_start_time = ts;
        self.cur = ts;
    }

    /// The reading at the cursor.
    pub fn get_current_wall<C: WallClock>(&self, clock: &C) -> (r: Result<WallTime, CroniterError>)
        ensures
            r matches Ok(w) ==> w.wf() && w == clock.wall_at(self.cur),
            r is Ok <==> clock.has_wall(self.cur),
    {
        clock.to_wall(self.cur)
    }

    /// The next fire time (or the previous one when
    /// stepping backwards) from the cursor, or from `start_time` when given,
    /// as a reading and an instant. With `update_current` the cursor moves
    /// to it.
    ///
    /// Without a time zone the instant is the reading taken as UTC, the
    /// reading lies strictly after (before) the one at the cursor, and the
    /// expression fires at it; the only failures are `BadDate` (nothing in
    /// the search window) and an instant the clock cannot read.
    pub fn step<C: WallClock>(&mut self, clock: &C, is_prev: Option<bool>, start_time: Option<i64>,
        update_current: bool) -> (r: Result<(WallTime, i64), CroniterError>)
        requires
            old(self).cron.wf(),
        ensures
            ({
                let cur0 = match start_time { Some(t) => t, None => old(self).cur };
                let dir = match is_prev { Some(b) => b, None => old(self).is_prev };
                &&& final(self).cron == old(self).cron
                &&& final(self).is_prev == dir
                &&& final(self).ret_type == old(self).ret_type
                &&& final(self).second_at_beginning == old(self).second_at_beginning
                &&& final(self).expand_from_start_time == old(self).expand_from_start_time
                &&& final(self).start_time == (match start_time { Some(t) => t, None => old(self).start_time })
                &&& final(self).dst_start_time == (match start_time { Some(t) => t, None => old(self).dst_start_time })
                &&& final(self).cur == (if update_current && r is Ok { r->Ok_0.1 } else { cur0 })
                &&& r matches Ok((w, ts)) ==> w.wf()
                &&& !clock.aware() ==> (r matches Ok((w, ts)) ==> ts == w.epoch()
                    && moved(clock.wall_at(cur0), w, dir) && old(self).cron.fires(w))
                &&& (!clock.aware() && !dir) ==> (r matches Ok((w, ts)) ==> none_fire_between(old(self).cron,
                    clock.wall_at(cur0).epoch(), w.epoch()))
                &&& (!clock.aware() && dir) ==> (r matches Ok((w, ts)) ==> none_fire_between(old(self).cron,
                    w.epoch(), clock.wall_at(cur0).epoch()))
                &&& !clock.aware() ==> (r matches Err(e) ==> e is BadDate || !clock.has_wall(cur0))
                &&& (!clock.aware() && r is Err && clock.has_wall(cur0) && !old(self).cron.split_strict())
                    ==> none_within_window(old(self).cron, clock.wall_at(cur0), dir)
                &&& (!clock.aware() && r is Err && clock.has_wall(cur0) && old(self).cron.split_strict())
                    ==> a_side_none_within_window(old(self).cron, clock.wall_at(cur0), dir)
                &&& (!clock.aware() && clock.has_wall(cur0)) ==> (r matches Err(e) ==> e@ == bad_date_view(dir))
                &&& !clock.has_wall(cur0) ==> r is Err
                &&& clock.has_wall(cur0) ==> clock.wall_at(cur0).wf()
                &&& !clock.aware() ==> (r matches Ok((w, ts)) ==> year_in_window(old(self).cron, clock.wall_at(cur0), w, dir))
                &&& clock.aware() ==> (r matches Ok((w, ts)) ==> pinned_fire(clock, old(self).cron, cur0, dir, w, ts))
                &&& clock.has_wall(cur0) ==> calc_next_post(old(self).cron, clock, clock.wall_at(cur0), dir,
                    step_ctx(clock, cur0), r)
            }),
    {
        if let Some(ts) = start_time {
            self.set_current(ts);
        }
        let is_prev = match is_prev {
            Some(b) => b,
            None => self.is_prev,
        };
        self.is_prev = is_prev;
        let current = match clock.to_wall(self.cur) {
            Ok(w) => w,
            Err(e) => { return Err(e); },
        };
        let aware = if clock.is_aware() {
            proof {
                crate::datetime::lemma_epoch_bounds(current);
            }
            let now_offset = round_seconds(current.to_micros() as i128 - self.cur as i128);
            Some(AwareCtx { now_utc: self.cur, now_offset })
        } else {
            None
        };
        let (result, timestamp) = match self.cron.calc_next(current, is_prev, aware, clock) {
            Ok(v) => v,
            Err(e) => { return Err(e); },
        };
        if update_current {
            self.cur = timestamp;
        }
        Ok((result, timestamp))
    }

    /// The next fire time; the cursor moves to it.
    pub fn get_next<C: WallClock>(&mut self, clock: &C) -> (r: Result<(WallTime, i64), CroniterError>)
        requires
            old(self).cron.wf(),
        ensures
            final(self).cron == old(self).cron,
            !final(self).is_prev,
            final(self).cur == (if r is Ok { r->Ok_0.1 } else { old(self).cur }),
            final(self).start_time == old(self).start_time,
            final(self).dst_start_time == old(self).dst_start_time,
            final(self).ret_type == old(self).ret_type,
            r matches Ok((w, ts)) ==> w.wf(),
            !clock.aware() ==> (r matches Ok((w, ts)) ==> ts == w.epoch()
                && moved(clock.wall_at(old(self).cur), w, false) && old(self).cron.fires(w)),
            !clock.aware() ==> (r matches Ok((w, ts)) ==> none_fire_between(old(self).cron,
                clock.wall_at(old(self).cur).epoch(), w.epoch())),
            !clock.aware() ==> (r matches Err(e) ==> e is BadDate || !clock.has_wall(old(self).cur)),
            (!clock.aware() && r is Err && clock.has_wall(old(self).cur) && !old(self).cron.split_strict())
                ==> none_within_window(old(self).cron, clock.wall_at(old(self).cur), false),
            (!clock.aware() && r is Err && clock.has_wall(old(self).cur) && old(self).cron.split_strict())
                ==> a_side_none_within_window(old(self).cron, clock.wall_at(old(self).cur), false),
            (!clock.aware() && clock.has_wall(old(self).cur)) ==> (r matches Err(e) ==> e@ == bad_date_view(false)),
            clock.has_wall(old(self).cur) ==> clock.wall_at(old(self).cur).wf(),
            !clock.aware() ==> (r matches Ok((w, ts)) ==> year_in_window(old(self).cron, clock.wall_at(old(self).cur), w, false)),
            clock.aware() ==> (r matches Ok((w, ts)) ==> pinned_fire(clock, old(self).cron, old(self).cur, false, w, ts)),
    {
        self.step(clock, Some(false), None, true)
    }

    /// The previous fire time; the cursor moves to it.
    pub fn get_prev<C: WallClock>(&mut self, clock: &C) -> (r: Result<(WallTime, i64), CroniterError>)
        requires
            old(self).cron.wf(),
        ensures
            final(self).cron == old(self).cron,
            final(self).is_prev,
            final(self).cur == (if r is Ok { r->Ok_0.1 } else { old(self).cur }),
            final(self).start_time == old(self).start_time,
            final(self).dst_start_time == old(self).dst_start_time,
            final(self).ret_type == old(self).ret_type,
            r matches Ok((w, ts)) ==> w.wf(),
            !clock.aware() ==> (r matches Ok((w, ts)) ==> ts == w.epoch()
                && moved(clock.wall_at(old(self).cur), w, true) && old(self).cron.fires(w)),
            !clock.aware() ==> (r matches Ok((w, ts)) ==> none_fire_between(old(self).cron,
                w.epoch(), clock.wall_at(old(self).cur).epoch())),
            !clock.aware() ==> (r matches Err(e) ==> e is BadDate || !clock.has_wall(old(self).cur)),
            (!clock.aware() && r is Err && clock.has_wall(old(self).cur) && !old(self).cron.split_strict())
                ==> none_within_window(old(self).cron, clock.wall_at(old(self).cur), true),
            (!clock.aware() && r is Err && clock.has_wall(old(self).cur) && old(self).cron.split_strict())
                ==> a_side_none_within_window(old(self).cron, clock.wall_at(old(self).cur), true),
            (!clock.aware() && clock.has_wall(old(self).cur)) ==> (r matches Err(e) ==> e@ == bad_date_view(true)),
            clock.has_wall(old(self).cur) ==> clock.wall_at(old(self).cur).wf(),
            !clock.aware() ==> (r matches Ok((w, ts)) ==> year_in_window(old(self).cron, clock.wall_at(old(self).cur), w, true)),
            clock.aware() ==> (r matches Ok((w, ts)) ==> pinned_fire(clock, old(self).cron, old(self).cur, true, w, ts)),
    {
        self.step(clock, Some(true), None, true)
    }

    /// Whether the search window was given explicitly.
    pub fn max_years_explicitly_set(&self) -> (r: bool)
        ensures
            r == self.cron.max_years_explicitly_set,
    {
        self.cron.max_years_explicitly_set
    }
}

} // verus!
