use croniter::api::{CronIterator, FixedClock, Options, TzSpec, WallClock};
use croniter::calc::naive_to_timestamp;
use croniter::datetime::WallTime;
use croniter::error::CroniterError;
use croniter::matcher::{is_match, is_valid, match_range};

fn wall(y: i64, m: i64, d: i64, h: i64, mi: i64, s: i64) -> WallTime {
    WallTime::new(y, m, d, h, mi, s, 0).unwrap()
}

const CLOCK: FixedClock = FixedClock(TzSpec::Naive);

fn it(expr: &str, start: WallTime) -> CronIterator {
    CronIterator::new(expr, naive_to_timestamp(&start), Options::default()).unwrap()
}

#[test]
fn every_minute() {
    let mut c = it("* * * * *", wall(2010, 1, 25, 4, 46, 0));
    assert_eq!(c.get_next(&CLOCK).unwrap().0, wall(2010, 1, 25, 4, 47, 0));
    assert_eq!(c.get_next(&CLOCK).unwrap().0, wall(2010, 1, 25, 4, 48, 0));
}

#[test]
fn weekday_nine_am() {
    // 2025-06-07 is a Saturday; next weekday 9am is Monday the 9th.
    let mut c = it("0 9 * * 1-5", wall(2025, 6, 7, 12, 0, 0));
    assert_eq!(c.get_next(&CLOCK).unwrap().0, wall(2025, 6, 9, 9, 0, 0));
}

#[test]
fn last_day_of_month() {
    let mut c = it("0 12 l * *", wall(2024, 2, 1, 0, 0, 0));
    assert_eq!(c.get_next(&CLOCK).unwrap().0, wall(2024, 2, 29, 12, 0, 0));
}

#[test]
fn third_friday() {
    let mut c = it("0 9 * * 5#3", wall(2025, 6, 1, 0, 0, 0));
    assert_eq!(c.get_next(&CLOCK).unwrap().0, wall(2025, 6, 20, 9, 0, 0));
}

#[test]
fn nearest_weekday_to_the_15th() {
    // 2025-03-15 is a Saturday -> fires Friday the 14th.
    let mut c = it("0 9 15w * *", wall(2025, 3, 1, 0, 0, 0));
    assert_eq!(c.get_next(&CLOCK).unwrap().0, wall(2025, 3, 14, 9, 0, 0));
}

#[test]
fn get_prev_walks_backwards() {
    let mut c = it("0 0 * * *", wall(2025, 6, 15, 12, 0, 0));
    assert_eq!(c.get_prev(&CLOCK).unwrap().0, wall(2025, 6, 15, 0, 0, 0));
    assert_eq!(c.get_prev(&CLOCK).unwrap().0, wall(2025, 6, 14, 0, 0, 0));
}

#[test]
fn day_and_dow_are_a_union() {
    // "the 15th OR any Friday": from 2025-08-01 the next are Aug 8, 15, 22.
    let mut c = it("0 0 15 * 5", wall(2025, 8, 1, 0, 0, 0));
    assert_eq!(c.get_next(&CLOCK).unwrap().0, wall(2025, 8, 8, 0, 0, 0));
    assert_eq!(c.get_next(&CLOCK).unwrap().0, wall(2025, 8, 15, 0, 0, 0));
    assert_eq!(c.get_next(&CLOCK).unwrap().0, wall(2025, 8, 22, 0, 0, 0));
}

#[test]
fn seconds_field() {
    let mut c = it("* * * * * */15", wall(2025, 6, 1, 0, 0, 0));
    assert_eq!(c.get_next(&CLOCK).unwrap().0, wall(2025, 6, 1, 0, 0, 15));
}

#[test]
fn match_is_true_on_a_fire_time() {
    assert!(is_match("0 9 * * *", wall(2025, 6, 2, 9, 0, 0), &CLOCK, true, false, None).unwrap());
    assert!(!is_match("0 9 * * *", wall(2025, 6, 2, 9, 1, 0), &CLOCK, true, false, None).unwrap());
}

#[test]
fn impossible_date_reports_bad_date() {
    // Feb 30th never happens.
    let mut c = CronIterator::new(
        "0 0 30 2 *",
        naive_to_timestamp(&wall(2025, 1, 1, 0, 0, 0)),
        Options {
            max_years_between_matches: Some(2),
            ..Default::default()
        },
    )
    .unwrap();
    assert!(matches!(c.get_next(&CLOCK), Err(CroniterError::BadDate(_))));
}

// ---------------------------------------------------------------------------

#[test]
fn next_then_prev_returns_to_the_fire_time() {
    let mut c = it("*/7 3-5 * * *", wall(2025, 6, 1, 4, 10, 0));
    let (a, ta) = c.get_next(&CLOCK).unwrap();
    assert_eq!(a, wall(2025, 6, 1, 4, 14, 0));
    let (b, _) = c.get_next(&CLOCK).unwrap();
    assert_eq!(b, wall(2025, 6, 1, 4, 21, 0));
    let (p, tp) = c.get_prev(&CLOCK).unwrap();
    assert_eq!((p, tp), (a, ta));
}

#[test]
fn fixed_offset_clock_shifts_readings() {
    let clock = FixedClock(TzSpec::Offset(3600));
    let ts = clock.from_wall(wall(2025, 6, 1, 10, 0, 0)).unwrap();
    assert_eq!(ts, naive_to_timestamp(&wall(2025, 6, 1, 9, 0, 0)));
    assert_eq!(clock.to_wall(ts).unwrap(), wall(2025, 6, 1, 10, 0, 0));
    let mut c = CronIterator::new("0 12 * * *", ts, Options::default()).unwrap();
    let (w, t) = c.get_next(&clock).unwrap();
    assert_eq!(w, wall(2025, 6, 1, 12, 0, 0));
    assert_eq!(t, naive_to_timestamp(&wall(2025, 6, 1, 11, 0, 0)));
    assert!(clock.is_aware());
    assert!(!CLOCK.is_aware());
}

#[test]
fn step_from_an_explicit_start_without_moving() {
    let mut c = it("0 0 1 * *", wall(2025, 6, 15, 0, 0, 0));
    let start = naive_to_timestamp(&wall(2030, 2, 10, 0, 0, 0));
    let (w, _) = c.step(&CLOCK, Some(false), Some(start), false).unwrap();
    assert_eq!(w, wall(2030, 3, 1, 0, 0, 0));
    assert_eq!(c.cur, start);
    assert_eq!(c.start_time, start);
}

#[test]
fn match_range_and_validity() {
    assert!(match_range(
        "0 12 * * *",
        wall(2025, 6, 1, 11, 0, 0),
        wall(2025, 6, 1, 13, 0, 0),
        &CLOCK,
        true,
        false,
        None
    )
    .unwrap());
    assert!(!match_range(
        "0 12 * * *",
        wall(2025, 6, 1, 12, 30, 0),
        wall(2025, 6, 1, 13, 0, 0),
        &CLOCK,
        true,
        false,
        None
    )
    .unwrap());
    assert!(is_valid("0 9 * * 1-5", None, false, false, None));
    assert!(!is_valid("99 * * * *", None, false, false, None));
    assert!(!is_valid("0 0 31 2 *", None, false, true, None));
    assert!(is_valid("h * * * *", Some(b"id"), false, false, None));
    assert!(!is_valid("h * * * *", None, false, false, None));
}

#[test]
fn the_cron_bug_intersects_the_day_fields() {
    let opts = Options {
        implement_cron_bug: true,
        ..Default::default()
    };
    // With the bug, "*/2 in the day field and Friday" means both.
    let mut c = CronIterator::new(
        "0 0 */2 * 5",
        naive_to_timestamp(&wall(2025, 8, 1, 0, 0, 0)),
        opts,
    )
    .unwrap();
    let (w, _) = c.get_next(&CLOCK).unwrap();
    assert_eq!(w, wall(2025, 8, 15, 0, 0, 0));
    assert_eq!(w.weekday_from_sunday(), 5);
    assert!(!c.max_years_explicitly_set());
}

#[test]
fn match_on_the_grid_is_whether_it_fires() {
    // Seconds field: the grid is the second.
    assert!(is_match("0 9 * * * 30", wall(2025, 6, 2, 9, 0, 30), &CLOCK, true, false, None).unwrap());
    assert!(!is_match("0 9 * * * 30", wall(2025, 6, 2, 9, 0, 31), &CLOCK, true, false, None).unwrap());
    // The union of the day fields: the 15th, or any Monday.
    assert!(is_match("0 0 15 * 1", wall(2025, 8, 15, 0, 0, 0), &CLOCK, true, false, None).unwrap());
    assert!(is_match("0 0 15 * 1", wall(2025, 8, 18, 0, 0, 0), &CLOCK, true, false, None).unwrap());
    assert!(!is_match("0 0 15 * 1", wall(2025, 8, 16, 0, 0, 0), &CLOCK, true, false, None).unwrap());
    // Off the grid, the tolerance of a minute still counts the minute.
    assert!(is_match("0 9 * * *", wall(2025, 6, 2, 9, 0, 30), &CLOCK, true, false, None).unwrap());
}

#[test]
fn match_reports_an_expression_that_does_not_expand() {
    assert!(matches!(
        is_match("61 * * * *", wall(2025, 6, 2, 9, 0, 0), &CLOCK, true, false, None),
        Err(CroniterError::BadCron(_))
    ));
}

#[test]
fn impossible_date_names_the_direction() {
    let opts = || Options {
        max_years_between_matches: Some(2),
        ..Default::default()
    };
    let start = naive_to_timestamp(&wall(2025, 1, 1, 0, 0, 0));
    let mut c = CronIterator::new("0 0 30 2 *", start, opts()).unwrap();
    assert_eq!(
        c.get_next(&CLOCK).unwrap_err(),
        CroniterError::BadDate(String::from("failed to find next date"))
    );
    let mut c = CronIterator::new("0 0 30 2 *", start, opts()).unwrap();
    assert_eq!(
        c.get_prev(&CLOCK).unwrap_err(),
        CroniterError::BadDate(String::from("failed to find prev date"))
    );
}

#[test]
fn is_valid_answers_whether_expand_succeeds() {
    let cases: [(&str, Option<&[u8]>, bool); 5] = [
        ("0 0 30 2 *", None, false),
        ("0 0 30 2 *", None, true),
        ("h h * * *", Some(b"job"), false),
        ("0 0 * * 1#2,3", None, false),
        ("61 * * * *", None, false),
    ];
    for (expr, id, strict) in cases {
        let direct = croniter::expand::expand(expr, id, false, None, strict, None).is_ok();
        assert_eq!(is_valid(expr, id, false, strict, None), direct);
    }
    assert!(is_valid("0 0 30 2 *", None, false, false, None));
    assert!(!is_valid("0 0 30 2 *", None, false, true, None));
}
