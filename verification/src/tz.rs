//! A clock over the IANA time zones, for schedules kept in local time
//! across daylight-saving transitions.
//!
//! The zone rules are chrono-tz's: the offset a zone has at a UTC instant,
//! and the offsets a local reading can have (none when a transition skips
//! it, two when a transition repeats it). What to do at a transition is
//! decided here: an ambiguous reading takes the side nearer the previous
//! instant that is still in the direction of travel, and a skipped reading
//! moves forward a minute at a time until it exists.
use vstd::prelude::*;
use chrono::{LocalResult, NaiveDate, Offset, TimeZone};
use crate::api::{is_successor, spec_is_successor, Resolved, WallClock};
use crate::datetime::{lemma_reading_at, micros_in_range, reading_at, WallTime};
use crate::error::{CroniterError, ErrorView};
use crate::text::{quoted, str_debug};

verus! {

/// The UTC offsets a zone gives a local reading, in seconds east of UTC.
#[derive(Clone, Copy, Debug, PartialEq, Eq)]
pub enum LocalOffsets {
    /// The reading is skipped by a transition.
    Missing,
    /// The reading happens once.
    Single(i64),
    /// The reading happens twice: the offset before the transition, then
    /// the one after it.
    Ambiguous(i64, i64),
}

/// Whether chrono-tz knows a zone by this name.
pub uninterp spec fn is_zone(name: Seq<char>) -> bool;

/// The offset (seconds east of UTC) zone `zone` has at the UTC reading `utc`.
pub uninterp spec fn zone_utc_offset(zone: Seq<char>, utc: WallTime) -> int;

/// The offsets zone `zone` gives the local reading `local`.
pub uninterp spec fn zone_local_offsets(zone: Seq<char>, local: WallTime) -> LocalOffsets;

/// An offset chrono can hold: less than a day either way.
pub open spec fn offset_ok(o: int) -> bool {
    -86_400 < o < 86_400
}

pub open spec fn offsets_ok(l: LocalOffsets) -> bool {
    match l {
        LocalOffsets::Missing => true,
        LocalOffsets::Single(o) => offset_ok(o as int),
        LocalOffsets::Ambiguous(a, b) => offset_ok(a as int) && offset_ok(b as int),
    }
}

/// `name.parse::<chrono_tz::Tz>().is_ok()`: whether chrono-tz has the zone.
#[verifier::external_body]
fn zone_exists(name: &str) -> (r: bool)
    ensures
        r == is_zone(name@),
{
    name.parse::<chrono_tz::Tz>().is_ok()
}

/// `TimeZone::offset_from_utc_datetime` of chrono-tz, as seconds east
/// (`Offset::fix`, `local_minus_utc`). Claimed: for a zone chrono-tz has and
/// a valid reading there is a result, it is a function of the zone and the
/// reading, and (as every chrono `FixedOffset`) less than a day either way.
#[verifier::external_body]
fn offset_at_utc(zone: &str, utc: WallTime) -> (r: Option<i64>)
    requires
        is_zone(zone@),
        utc.wf(),
    ensures
        r is Some,
        r matches Some(o) ==> o == zone_utc_offset(zone@, utc) && offset_ok(o as int),
{
    let tz: chrono_tz::Tz = zone.parse().ok()?;
    let d = NaiveDate::from_ymd_opt(utc.year as i32, utc.month as u32, utc.day as u32)?;
    let t = d.and_hms_micro_opt(utc.hour as u32, utc.minute as u32, utc.second as u32, utc.micro as u32)?;
    Some(tz.offset_from_utc_datetime(&t).fix().local_minus_utc() as i64)
}

/// `TimeZone::offset_from_local_datetime` of chrono-tz: the offsets of a
/// local reading, as seconds east. Claimed: for a zone chrono-tz has and a
/// valid reading there is a result, it is a function of the zone and the
/// reading, and each offset is less than a day either way; and each offset
/// it gives is the one `offset_from_utc_datetime` gives at the instant the
/// reading has under it (chrono-tz's local spans are its UTC spans shifted
/// by their own offset).
#[verifier::external_body]
fn offsets_at_local(zone: &str, local: WallTime) -> (r: Option<LocalOffsets>)
    requires
        is_zone(zone@),
        local.wf(),
    ensures
        r is Some,
        r matches Some(l) ==> l == zone_local_offsets(zone@, local) && offsets_ok(l),
        r matches Some(LocalOffsets::Single(o)) ==> comes_back(zone@, local, o as int),
        r matches Some(LocalOffsets::Ambiguous(a, b)) ==> comes_back(zone@, local, a as int)
            && comes_back(zone@, local, b as int),
{
    let tz: chrono_tz::Tz = zone.parse().ok()?;
    let d = NaiveDate::from_ymd_opt(local.year as i32, local.month as u32, local.day as u32)?;
    let t = d.and_hms_micro_opt(local.hour as u32, local.minute as u32, local.second as u32, local.micro as u32)?;
    Some(match tz.offset_from_local_datetime(&t) {
        LocalResult::Single(o) => LocalOffsets::Single(o.fix().local_minus_utc() as i64),
        LocalResult::Ambiguous(a, b) => LocalOffsets::Ambiguous(a.fix().local_minus_utc() as i64, b.fix().local_minus_utc() as i64),
        LocalResult::None => LocalOffsets::Missing,
    })
}

/// Zone `zone` has offset `o` at the instant of `local` read with offset `o`.
pub open spec fn comes_back(zone: Seq<char>, local: WallTime, o: int) -> bool {
    micros_in_range(local.epoch() - o * 1_000_000)
        ==> zone_utc_offset(zone, reading_at(local.epoch() - o * 1_000_000)) == o
}

/// The first offset of a local reading (the one before a transition).
pub open spec fn first_offset(l: LocalOffsets) -> Option<int> {
    match l {
        LocalOffsets::Missing => None,
        LocalOffsets::Single(o) => Some(o as int),
        LocalOffsets::Ambiguous(o, _) => Some(o as int),
    }
}

/// The reading `k` minutes from `wall` (before it when `k` is negative).
pub open spec fn minutes_from(wall: WallTime, k: int) -> WallTime {
    reading_at(wall.epoch() + k * 60_000_000)
}

/// The first offset of the reading `k` minutes from `wall`, when that
/// reading exists in the zone.
pub open spec fn offset_near(zone: Seq<char>, wall: WallTime, k: int) -> Option<int> {
    if micros_in_range(wall.epoch() + k * 60_000_000) {
        first_offset(zone_local_offsets(zone, minutes_from(wall, k)))
    } else {
        None
    }
}

/// The first offset of the reading `k` minutes before `wall`, when that
/// reading exists in the zone.
pub open spec fn offset_before(zone: Seq<char>, wall: WallTime, k: int) -> Option<int> {
    offset_near(zone, wall, -k)
}

/// `t` is the instant zone `zone` gives the local reading `wall`: with its
/// (first) offset when it exists; inside a gap, with the offset of the
/// nearest earlier minute that exists (at most a day back).
pub open spec fn local_instant(zone: Seq<char>, wall: WallTime, t: int) -> bool {
    match first_offset(zone_local_offsets(zone, wall)) {
        Some(o) => t == wall.epoch() - o * 1_000_000,
        None => exists|k: int| 1 <= k <= 1440 && #[trigger] offset_before(zone, wall, k) is Some
            && t == wall.epoch() - offset_before(zone, wall, k)->0 * 1_000_000
            && forall|j: int| 1 <= j < k ==> #[trigger] offset_before(zone, wall, j) is None,
    }
}

/// A clock in an IANA time zone.
pub struct TzClock {
    name: String,
}

impl TzClock {
    #[verifier::type_invariant]
    spec fn inv(self) -> bool {
        is_zone(self.name@)
    }

    /// The zone's name.
    pub closed spec fn zone(self) -> Seq<char> {
        self.name@
    }

    /// The clock of the zone named `name` (`"Europe/London"`); `Value` when
    /// chrono-tz has no such zone.
    pub fn from_name(name: &str) -> (r: Result<TzClock, CroniterError>)
        ensures
            is_zone(name@) ==> (r matches Ok(c) && c.zone() == name@),
            !is_zone(name@) ==> (r matches Err(e) && e@ == ErrorView::Value("unknown timezone "@ + str_debug(name@))),
    {
        if zone_exists(name) {
            Ok(TzClock { name: String::from_str(name) })
        } else {
            let mut m = String::from_str("unknown timezone ");
            let q = quoted(name);
            m.append(q.as_str());
            Err(CroniterError::Value(m))
        }
    }

    /// The zone's name.
    pub fn name(&self) -> (r: &str)
        ensures
            r@ == self.zone(),
    {
        self.name.as_str()
    }
    /// The first offset of the reading `k` minutes from `wall`, when that
    /// reading exists in the zone.
    fn offset_minutes_from(&self, wall: WallTime, k: i64) -> (r: Option<i64>)
        requires
            wall.wf(),
            -1440 <= k <= 1440,
        ensures
            r matches Some(o) ==> offset_near(self.zone(), wall, k as int) == Some(o as int) && offset_ok(o as int),
            r is None ==> offset_near(self.zone(), wall, k as int) is None,
    {
        proof {
            use_type_invariant(self);
        }
        match wall.add_micros(k * 60_000_000) {
            Some(probe) => {
                proof {
                    lemma_reading_at(probe);
                }
                match offsets_at_local(self.name.as_str(), probe) {
                    Some(LocalOffsets::Single(o)) => Some(o),
                    Some(LocalOffsets::Ambiguous(o, _)) => Some(o),
                    _ => None,
                }
            },
            None => None,
        }
    }
}

impl WallClock for TzClock {
    /// The reading at `ts` plus the zone's offset at that instant.
    open spec fn wall_at(&self, ts: i64) -> WallTime {
        reading_at(ts + zone_utc_offset(self.zone(), reading_at(ts as int)) * 1_000_000)
    }

    open spec fn has_wall(&self, ts: i64) -> bool {
        &&& micros_in_range(ts as int)
        &&& micros_in_range(ts + zone_utc_offset(self.zone(), reading_at(ts as int)) * 1_000_000)
    }

    open spec fn aware(&self) -> bool {
        true
    }

    /// The instant the zone gives the local reading.
    open spec fn instant_of(&self, wall: WallTime, t: i64) -> bool {
        local_instant(self.zone(), wall, t as int)
    }

    /// A reading that exists once is itself; an ambiguous reading takes its
    /// side nearer `prev_utc` (the later one when stepping backwards) if that
    /// is still a successor of `prev_utc`, else the other side; a skipped
    /// reading moves to the first minute after it that exists (at most a day
    /// on), with `exists == false`.
    open spec fn resolves(&self, wall: WallTime, prev_utc: i64, is_prev: bool, v: Resolved) -> bool {
        let zone = self.zone();
        let e = wall.epoch();
        match zone_local_offsets(zone, wall) {
            LocalOffsets::Single(o) => v == Resolved { wall, utc: (e - o * 1_000_000) as i64, offset: o, exists: true },
            LocalOffsets::Ambiguous(a, b) => {
                let (c, f) = if is_prev { (b, a) } else { (a, b) };
                let cu = e - c * 1_000_000;
                v == (if spec_is_successor(cu, prev_utc as int, is_prev) {
                    Resolved { wall, utc: cu as i64, offset: c, exists: true }
                } else {
                    Resolved { wall, utc: (e - f * 1_000_000) as i64, offset: f, exists: true }
                })
            },
            LocalOffsets::Missing => !v.exists && exists|k: int| 1 <= k <= 1440 && #[trigger] offset_near(zone, wall, k) is Some
                && v.wall == minutes_from(wall, k)
                && v.offset == offset_near(zone, wall, k)->0
                && v.utc == v.wall.epoch() - v.offset * 1_000_000
                && forall|j: int| 1 <= j < k ==> #[trigger] offset_near(zone, wall, j) is None,
        }
    }

    /// A reading that exists, or one in a gap that began within a day.
    open spec fn has_instant(&self, wall: WallTime) -> bool {
        first_offset(zone_local_offsets(self.zone(), wall)) is Some
            || exists|k: int| 1 <= k <= 1440 && #[trigger] offset_before(self.zone(), wall, k) is Some
    }

    /// A reading that exists, or one in a gap that ends within a day.
    open spec fn resolvable(&self, wall: WallTime) -> bool {
        !(zone_local_offsets(self.zone(), wall) is Missing)
            || exists|k: int| 1 <= k <= 1440 && #[trigger] offset_near(self.zone(), wall, k) is Some
    }

    /// The local reading at `ts`; `Value` when it cannot be represented.
    fn to_wall(&self, ts: i64) -> (r: Result<WallTime, CroniterError>)
        ensures
            r matches Err(e) ==> e@ == ErrorView::Value("timestamp out of range"@),
    {
        proof {
            use_type_invariant(self);
        }
        let utc = match WallTime::from_micros(ts as i128) {
            Some(w) => w,
            None => { return Err(CroniterError::Value(String::from_str("timestamp out of range"))); },
        };
        proof {
            lemma_reading_at(utc);
        }
        let off = match offset_at_utc(self.name.as_str(), utc) {
            Some(o) => o,
            None => { return Err(CroniterError::Value(String::from_str("timestamp out of range"))); },
        };
        match utc.add_micros(off * 1_000_000) {
            Some(w) => {
                proof {
                    lemma_reading_at(w);
                }
                Ok(w)
            },
            None => Err(CroniterError::Value(String::from_str("timestamp out of range"))),
        }
    }

    /// The instant of a local reading: with its (first) offset when it
    /// exists; inside a gap, with the offset of the nearest earlier minute
    /// that exists (at most a day back).
    fn from_wall(&self, wall: WallTime) -> (r: Result<i64, CroniterError>)
        ensures
            ({
                let zone = self.zone();
                match first_offset(zone_local_offsets(zone, wall)) {
                    Some(o) => r == Ok::<i64, CroniterError>((wall.epoch() - o * 1_000_000) as i64)
                        && (micros_in_range(wall.epoch() - o * 1_000_000) ==> self.has_wall(r->Ok_0)
                            && self.wall_at(r->Ok_0) == wall),
                    None => match r {
                        Ok(t) => exists|k: int| 1 <= k <= 1440 && #[trigger] offset_before(zone, wall, k) is Some
                            && t == wall.epoch() - offset_before(zone, wall, k)->0 * 1_000_000
                            && forall|j: int| 1 <= j < k ==> #[trigger] offset_before(zone, wall, j) is None,
                        Err(e) => e@ == ErrorView::Value("could not resolve local time to an instant"@)
                            && forall|k: int| 1 <= k <= 1440 ==> #[trigger] offset_before(zone, wall, k) is None,
                    },
                }
            }),
            r matches Ok(t) ==> local_instant(self.zone(), wall, t as int),
    {
        proof {
            use_type_invariant(self);
            crate::datetime::lemma_epoch_bounds(wall);
        }
        let e = wall.to_micros();
        proof {
            crate::datetime::lemma_epoch_in_range(wall);
            lemma_reading_at(wall);
        }
        match offsets_at_local(self.name.as_str(), wall) {
            Some(LocalOffsets::Single(o)) => { return Ok(e - o * 1_000_000); },
            Some(LocalOffsets::Ambiguous(o, _)) => { return Ok(e - o * 1_000_000); },
            _ => {},
        }
        let ghost zone = self.zone();
        let mut back: i64 = 1;
        while back <= 1440
            invariant
                1 <= back <= 1441,
                wall.wf(),
                e == wall.epoch(),
                zone == self.zone(),
                is_zone(zone),
                zone == self.name@,
                crate::datetime::epoch_min() <= wall.epoch() < crate::datetime::epoch_max(),
                first_offset(zone_local_offsets(zone, wall)) is None,
                forall|j: int| 1 <= j < back ==> #[trigger] offset_before(zone, wall, j) is None,
            decreases 1441 - back,
        {
            match self.offset_minutes_from(wall, -back) {
                Some(o) => {
                    assert(offset_before(zone, wall, back as int) == Some(o as int));
                    return Ok(e - o * 1_000_000);
                },
                None => {},
            }
            back = back + 1;
        }
        Err(CroniterError::Value(String::from_str("could not resolve local time to an instant")))
    }

    fn is_aware(&self) -> (r: bool) {
        true
    }

    /// A reading that exists once is itself; an ambiguous
    /// reading takes its side nearer `prev_utc` (the later one when stepping
    /// backwards) if that is still a successor of `prev_utc`, else the other
    /// side; a skipped reading moves to the first minute after it that
    /// exists (at most a day on), reported with `exists == false`.
    fn resolve(&self, wall: WallTime, prev_utc: i64, is_prev: bool) -> (r: Result<Resolved, CroniterError>)
        ensures
            ({
                let zone = self.zone();
                let e = wall.epoch();
                match zone_local_offsets(zone, wall) {
                    LocalOffsets::Single(o) => r == Ok::<Resolved, CroniterError>(
                        Resolved { wall, utc: (e - o * 1_000_000) as i64, offset: o, exists: true }),
                    LocalOffsets::Ambiguous(a, b) => {
                        let (c, f) = if is_prev { (b, a) } else { (a, b) };
                        let cu = e - c * 1_000_000;
                        r == Ok::<Resolved, CroniterError>(if spec_is_successor(cu, prev_utc as int, is_prev) {
                            Resolved { wall, utc: cu as i64, offset: c, exists: true }
                        } else {
                            Resolved { wall, utc: (e - f * 1_000_000) as i64, offset: f, exists: true }
                        })
                    },
                    LocalOffsets::Missing => match r {
                        Ok(v) => !v.exists && exists|k: int| 1 <= k <= 1440 && #[trigger] offset_near(zone, wall, k) is Some
                            && v.wall == minutes_from(wall, k)
                            && v.offset == offset_near(zone, wall, k)->0
                            && v.utc == v.wall.epoch() - v.offset * 1_000_000
                            && forall|j: int| 1 <= j < k ==> #[trigger] offset_near(zone, wall, j) is None,
                        Err(err) => err@ == ErrorView::Value("could not resolve a non-existent local time"@)
                            && forall|k: int| 1 <= k <= 1440 ==> #[trigger] offset_near(zone, wall, k) is None,
                    },
                }
            }),
    {
        proof {
            use_type_invariant(self);
            crate::datetime::lemma_epoch_bounds(wall);
        }
        let e = wall.to_micros();
        match offsets_at_local(self.name.as_str(), wall) {
            Some(LocalOffsets::Single(o)) => {
                return Ok(Resolved { wall, utc: e - o * 1_000_000, offset: o, exists: true });
            },
            Some(LocalOffsets::Ambiguous(a, b)) => {
                let (c, f) = if is_prev { (b, a) } else { (a, b) };
                let cu = e - c * 1_000_000;
                if is_successor(cu, prev_utc, is_prev) {
                    return Ok(Resolved { wall, utc: cu, offset: c, exists: true });
                }
                return Ok(Resolved { wall, utc: e - f * 1_000_000, offset: f, exists: true });
            },
            _ => {},
        }
        let ghost zone = self.zone();
        let mut k: i64 = 1;
        while k <= 1440
            invariant
                1 <= k <= 1441,
                wall.wf(),
                e == wall.epoch(),
                zone == self.zone(),
                is_zone(zone),
                zone == self.name@,
                zone_local_offsets(zone, wall) == LocalOffsets::Missing,
                crate::datetime::epoch_min() <= wall.epoch() < crate::datetime::epoch_max(),
                forall|j: int| 1 <= j < k ==> #[trigger] offset_near(zone, wall, j) is None,
            decreases 1441 - k,
        {
            match self.offset_minutes_from(wall, k) {
                Some(o) => {
                    let probe = match wall.add_micros(k * 60_000_000) {
                        Some(p) => p,
                        None => { return Err(CroniterError::Value(String::from_str("could not resolve a non-existent local time"))); },
                    };
                    proof {
                        lemma_reading_at(probe);
                        crate::datetime::lemma_epoch_bounds(probe);
                    }
                    let pe = probe.to_micros();
                    assert(offset_near(zone, wall, k as int) == Some(o as int));
                    return Ok(Resolved { wall: probe, utc: pe - o * 1_000_000, offset: o, exists: false });
                },
                None => {},
            }
            k = k + 1;
        }
        Err(CroniterError::Value(String::from_str("could not resolve a non-existent local time")))
    }
}

} // verus!
