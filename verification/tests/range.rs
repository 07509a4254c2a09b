use croniter::api::{FixedClock, TzSpec};
use croniter::datetime::WallTime;
use croniter::range::{setup, CroniterRange};

const CLOCK: FixedClock = FixedClock(TzSpec::Naive);

fn wall(y: i64, m: i64, d: i64, h: i64, mi: i64) -> WallTime {
    WallTime::new(y, m, d, h, mi, 0, 0).unwrap()
}

fn collect(mut r: CroniterRange) -> Vec<WallTime> {
    let mut got = Vec::new();
    while let Some(d) = r.next(&CLOCK) {
        got.push(d);
    }
    got
}

#[test]
fn inclusive_ends_by_default() {
    let r = CroniterRange::new(
        "0 0 * * *",
        wall(2025, 6, 1, 0, 0),
        wall(2025, 6, 4, 0, 0),
        &CLOCK,
        true,
        false,
        false,
    )
    .unwrap();
    assert_eq!(
        collect(r),
        vec![
            wall(2025, 6, 1, 0, 0),
            wall(2025, 6, 2, 0, 0),
            wall(2025, 6, 3, 0, 0),
            wall(2025, 6, 4, 0, 0),
        ]
    );
}

#[test]
fn exclude_ends_drops_both_bounds() {
    let r = CroniterRange::new(
        "0 0 * * *",
        wall(2025, 6, 1, 0, 0),
        wall(2025, 6, 4, 0, 0),
        &CLOCK,
        true,
        true,
        false,
    )
    .unwrap();
    assert_eq!(collect(r), vec![wall(2025, 6, 2, 0, 0), wall(2025, 6, 3, 0, 0)]);
}

#[test]
fn reverse_order_when_start_is_after_stop() {
    let r = CroniterRange::new(
        "0 0 * * *",
        wall(2025, 6, 4, 0, 0),
        wall(2025, 6, 1, 0, 0),
        &CLOCK,
        true,
        false,
        false,
    )
    .unwrap();
    assert_eq!(
        collect(r),
        vec![
            wall(2025, 6, 4, 0, 0),
            wall(2025, 6, 3, 0, 0),
            wall(2025, 6, 2, 0, 0),
            wall(2025, 6, 1, 0, 0),
        ]
    );
}

#[test]
fn setup_computes_year_span_and_direction() {
    let s = setup(wall(2024, 1, 1, 0, 0), wall(2026, 1, 1, 0, 0), false);
    assert!(s.forward);
    assert_eq!(s.year_span, 3);
    assert_eq!((s.start_nudge_us, s.stop_nudge_us), (-1, 1));

    let s = setup(wall(2026, 1, 1, 0, 0), wall(2024, 1, 1, 0, 0), true);
    assert!(!s.forward);
    assert_eq!((s.start_nudge_us, s.stop_nudge_us), (0, 0));
}

#[test]
fn an_exhausted_range_stays_exhausted() {
    // Feb 30th never happens: the search window ends the range quietly.
    let mut r = CroniterRange::new(
        "0 0 30 2 *",
        wall(2025, 1, 1, 0, 0),
        wall(2026, 1, 1, 0, 0),
        &CLOCK,
        true,
        false,
        false,
    )
    .unwrap();
    assert_eq!(r.next(&CLOCK), None);
    assert!(r.done);
    assert_eq!(r.next(&CLOCK), None);
}

#[test]
fn a_range_over_years_misses_no_fire_time() {
    // Once a year, on the first of January: the window of years the range
    // spans still reaches the last one, which is the stop bound itself.
    let r = CroniterRange::new(
        "0 0 1 1 *",
        wall(2020, 6, 1, 0, 0),
        wall(2025, 1, 1, 0, 0),
        &CLOCK,
        true,
        false,
        false,
    )
    .unwrap();
    assert_eq!(
        collect(r),
        vec![
            wall(2021, 1, 1, 0, 0),
            wall(2022, 1, 1, 0, 0),
            wall(2023, 1, 1, 0, 0),
            wall(2024, 1, 1, 0, 0),
            wall(2025, 1, 1, 0, 0),
        ]
    );
}

#[test]
fn a_backward_range_over_years_misses_no_fire_time() {
    let r = CroniterRange::new(
        "0 0 29 2 *",
        wall(2032, 3, 1, 0, 0),
        wall(2024, 2, 29, 0, 0),
        &CLOCK,
        true,
        false,
        false,
    )
    .unwrap();
    assert_eq!(
        collect(r),
        vec![wall(2032, 2, 29, 0, 0), wall(2028, 2, 29, 0, 0), wall(2024, 2, 29, 0, 0)]
    );
}
