use croniter::datetime::WallTime;
use croniter::reldelta::{add, RelDelta};

fn dt(y: i64, m: i64, d: i64, h: i64, mi: i64, s: i64) -> WallTime {
    WallTime::new(y, m, d, h, mi, s, 0).unwrap()
}

#[test]
fn month_subtraction_clamps_the_day() {
    let r = add(dt(2021, 3, 31, 0, 0, 0), &RelDelta::new().months(-1)).unwrap();
    assert_eq!(r, dt(2021, 2, 28, 0, 0, 0));
}

#[test]
fn month_addition_wraps_the_year() {
    let r = add(dt(2025, 12, 15, 1, 2, 3), &RelDelta::new().months(1)).unwrap();
    assert_eq!(r, dt(2026, 1, 15, 1, 2, 3));
    let r = add(dt(2025, 1, 15, 1, 2, 3), &RelDelta::new().months(-1)).unwrap();
    assert_eq!(r, dt(2024, 12, 15, 1, 2, 3));
}

#[test]
fn absolute_fields_apply_before_relative_ones() {
    let r = add(
        dt(2025, 6, 1, 10, 45, 30),
        &RelDelta::new().hours(2).minute_at(0).second_at(0),
    )
    .unwrap();
    assert_eq!(r, dt(2025, 6, 1, 12, 0, 0));
}

#[test]
fn leap_day_clamp() {
    let r = add(dt(2024, 2, 29, 0, 0, 0), &RelDelta::new().years(1)).unwrap();
    assert_eq!(r, dt(2025, 2, 28, 0, 0, 0));
}

#[test]
fn day_absolute_is_clamped_to_month_length() {
    let r = add(dt(2025, 4, 10, 0, 0, 0), &RelDelta::new().day_at(31)).unwrap();
    assert_eq!(r, dt(2025, 4, 30, 0, 0, 0));
}

#[test]
fn microsecond_step_back() {
    let base = dt(2025, 6, 1, 0, 0, 0);
    let r = add(base, &RelDelta::new().microseconds(-1)).unwrap();
    assert_eq!(r, WallTime::new(2025, 5, 31, 23, 59, 59, 999_999).unwrap());
}

#[test]
fn days_and_seconds_carry_across_units() {
    let r = add(dt(2024, 2, 28, 23, 59, 30), &RelDelta::new().days(1).seconds(45)).unwrap();
    assert_eq!(r, dt(2024, 3, 1, 0, 0, 15));
    let r = add(dt(2025, 1, 31, 0, 0, 0), &RelDelta::new().month_at(2).hour_at(7)).unwrap();
    assert_eq!(r, dt(2025, 2, 28, 7, 0, 0));
    assert!(add(dt(2025, 1, 1, 0, 0, 0), &RelDelta::new().years(300_000)).is_none());
}

#[test]
fn an_absolute_microsecond_of_a_million_gives_none() {
    let dt = WallTime::new(2025, 6, 30, 23, 59, 59, 0).unwrap();
    let mut rd = RelDelta::new();
    rd.microsecond = Some(1_000_000);
    assert_eq!(add(dt, &rd), None);
    rd.microsecond = Some(999_999);
    assert_eq!(add(dt, &rd), Some(WallTime::new(2025, 6, 30, 23, 59, 59, 999_999).unwrap()));
}
