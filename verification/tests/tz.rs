use croniter::api::{CronIterator, Options, RetType, WallClock};
use croniter::calc::naive_to_timestamp;
use croniter::datetime::WallTime;
use croniter::error::CroniterError;
use croniter::tz::TzClock;

fn wall(y: i64, m: i64, d: i64, h: i64, mi: i64) -> WallTime {
    WallTime::new(y, m, d, h, mi, 0, 0).unwrap()
}

fn fires(expr: &str, zone: &str, start: WallTime, n: usize) -> Vec<(WallTime, i64)> {
    let clock = TzClock::from_name(zone).unwrap();
    let ts = clock.from_wall(start).unwrap();
    let mut opts = Options::default();
    opts.ret_type = RetType::DateTime;
    let mut it = CronIterator::new(expr, ts, opts).unwrap();
    let mut out = Vec::new();
    for _ in 0..n {
        let (w, t) = it.get_next(&clock).unwrap();
        // The offset the engine chose, from the pair it returned.
        let off = (naive_to_timestamp(&w) - t) / 1_000_000;
        out.push((w, off));
    }
    out
}

#[test]
fn unknown_zone_is_rejected() {
    assert!(TzClock::from_name("Mars/Olympus_Mons").is_err());
    assert!(TzClock::from_name("Europe/London").is_ok());
}

#[test]
fn unknown_zone_message_quotes_the_name() {
    match TzClock::from_name("Mars/Olympus_Mons") {
        Err(CroniterError::Value(m)) => assert_eq!(m, "unknown timezone \"Mars/Olympus_Mons\""),
        _ => panic!("accepted an unknown zone"),
    }
    assert_eq!(TzClock::from_name("Europe/London").unwrap().name(), "Europe/London");
}

#[test]
fn fall_back_repeats_the_ambiguous_hour() {
    // Athens 2013-10-27: 04:00 +03:00 -> 03:00 +02:00.
    let got = fires("*/30 * * * *", "Europe/Athens", wall(2013, 10, 27, 2, 0), 7);
    let want = [
        (wall(2013, 10, 27, 2, 30), 3 * 3600),
        (wall(2013, 10, 27, 3, 0), 3 * 3600),
        (wall(2013, 10, 27, 3, 30), 3 * 3600),
        (wall(2013, 10, 27, 3, 0), 2 * 3600),
        (wall(2013, 10, 27, 3, 30), 2 * 3600),
        (wall(2013, 10, 27, 4, 0), 2 * 3600),
        (wall(2013, 10, 27, 4, 30), 2 * 3600),
    ];
    for (i, (w, o)) in want.iter().enumerate() {
        assert_eq!(got[i].0, *w, "index {i}");
        assert_eq!(got[i].1, *o, "offset at index {i}");
    }
}

#[test]
fn spring_forward_skips_the_missing_hour() {
    // New York 2013-03-10: 02:00 EST -> 03:00 EDT, so 02:30 never happens.
    let got = fires("30 * * * *", "America/New_York", wall(2013, 3, 10, 1, 0), 3);
    assert_eq!(got[0].0, wall(2013, 3, 10, 1, 30));
    assert_eq!(got[1].0, wall(2013, 3, 10, 3, 30));
    assert_eq!(got[2].0, wall(2013, 3, 10, 4, 30));
}

#[test]
fn roundtrip_through_the_epoch_is_stable() {
    let clock = TzClock::from_name("Asia/Kolkata").unwrap();
    let w = wall(2025, 6, 15, 9, 30);
    let ts = clock.from_wall(w).unwrap();
    assert_eq!(clock.to_wall(ts).unwrap(), w);
    // Kolkata is UTC+5:30 year round.
    assert_eq!(clock.resolve(w, ts, false).unwrap().offset, 5 * 3600 + 1800);
}

#[test]
fn half_hour_dst_shift_is_handled() {
    // Lord Howe is the only 30-minute DST shift in the world.
    let clock = TzClock::from_name("Australia/Lord_Howe").unwrap();
    let before = clock.resolve(wall(2019, 10, 6, 1, 0), 0, false).unwrap();
    let after = clock.resolve(wall(2019, 10, 6, 3, 0), 0, false).unwrap();
    assert_eq!(before.offset, 10 * 3600 + 1800);
    assert_eq!(after.offset, 11 * 3600);
    // 02:00 does not exist that day; it is walked forward to 02:30.
    let gap = clock.resolve(wall(2019, 10, 6, 2, 0), 0, false).unwrap();
    assert!(!gap.exists);
    assert_eq!(gap.wall, wall(2019, 10, 6, 2, 30));
}

#[test]
fn gap_reading_takes_the_offset_before_the_gap() {
    // New York 2013-03-10 02:30 does not exist; it is read with EST (-5h).
    let clock = TzClock::from_name("America/New_York").unwrap();
    let ts = clock.from_wall(wall(2013, 3, 10, 2, 30)).unwrap();
    assert_eq!(ts, naive_to_timestamp(&wall(2013, 3, 10, 7, 30)));
}

#[test]
fn ambiguous_reading_picks_the_side_after_the_previous_instant() {
    // Athens 2013-10-27 03:00 happens at 00:00 UTC (+3) and 01:00 UTC (+2).
    let clock = TzClock::from_name("Europe/Athens").unwrap();
    let w = wall(2013, 10, 27, 3, 0);
    let first = naive_to_timestamp(&wall(2013, 10, 27, 0, 0));
    let second = naive_to_timestamp(&wall(2013, 10, 27, 1, 0));
    assert_eq!(clock.resolve(w, 0, false).unwrap().utc, first);
    // Forward from the first instant, the first side is no successor.
    assert_eq!(clock.resolve(w, first, false).unwrap().utc, second);
    // Backwards, the later side is tried first.
    assert_eq!(clock.resolve(w, second + 1, true).unwrap().utc, second);
    assert_eq!(clock.resolve(w, second, true).unwrap().utc, first);
}

#[test]
fn utc_offset_is_applied_to_readings() {
    let clock = TzClock::from_name("Asia/Kolkata").unwrap();
    let ts = naive_to_timestamp(&wall(2025, 1, 1, 0, 0));
    assert_eq!(clock.to_wall(ts).unwrap(), wall(2025, 1, 1, 5, 30));
    assert!(clock.is_aware());
}

#[test]
fn zoned_match_says_false_away_from_a_fire_time() {
    let clock = TzClock::from_name("Europe/Berlin").unwrap();
    let at_nine = wall(2025, 6, 2, 9, 0);
    let half_past = wall(2025, 6, 2, 9, 30);
    assert_eq!(croniter::matcher::is_match("0 9 * * *", at_nine, &clock, true, false, None), Ok(true));
    assert_eq!(croniter::matcher::is_match("0 9 * * *", half_past, &clock, true, false, None), Ok(false));
    assert_eq!(
        croniter::matcher::match_range("0 9 * * *", at_nine, half_past, &clock, true, false, None),
        Ok(true)
    );
}
