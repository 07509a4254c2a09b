use croniter::calc::{
    naive_to_timestamp, nearest_weekday, next_nearest_diff, nth_weekday_of_month,
    prev_nearest_diff, timestamp_to_naive,
};
use croniter::datetime::WallTime;
use croniter::item::Item;

fn wall(y: i64, m: i64, d: i64, h: i64, mi: i64, s: i64) -> WallTime {
    WallTime::new(y, m, d, h, mi, s, 0).unwrap()
}

#[test]
fn nth_weekday_lists_all_matching_days() {
    // June 2025: Sundays are 1, 8, 15, 22, 29.
    assert_eq!(nth_weekday_of_month(2025, 6, 0), vec![1, 8, 15, 22, 29]);
    // Fridays in Feb 2024 (leap): 2, 9, 16, 23.
    assert_eq!(nth_weekday_of_month(2024, 2, 5), vec![2, 9, 16, 23]);
}

#[test]
fn nearest_weekday_rules() {
    assert_eq!(nearest_weekday(2025, 3, 15), 14);
    assert_eq!(nearest_weekday(2025, 3, 16), 17);
    assert_eq!(nearest_weekday(2025, 3, 17), 17);
    assert_eq!(nearest_weekday(2025, 2, 1), 3);
    assert_eq!(nearest_weekday(2025, 8, 31), 29);
}

#[test]
fn timestamp_roundtrip() {
    let d = wall(2019, 1, 14, 15, 21, 0);
    let ts = naive_to_timestamp(&d);
    // Microseconds: whole seconds are 1_547_479_260.
    assert_eq!(ts / 1_000_000, 1_547_479_260);
    assert_eq!(timestamp_to_naive(ts).unwrap(), d);
}

#[test]
fn next_nearest_diff_wraps_when_no_larger_value() {
    let to_check = vec![Item::Num(0), Item::Num(30)];
    assert_eq!(next_nearest_diff(0, &to_check, Some(60)), Some(0));
    assert_eq!(next_nearest_diff(15, &to_check, Some(60)), Some(15));
    assert_eq!(next_nearest_diff(45, &to_check, Some(60)), Some(15));
}

#[test]
fn prev_nearest_diff_wraps_backwards() {
    let to_check = vec![Item::Num(0), Item::Num(30)];
    assert_eq!(prev_nearest_diff(45, &to_check, Some(60)), Some(-15));
    assert_eq!(prev_nearest_diff(0, &to_check, Some(60)), Some(0));
    assert_eq!(prev_nearest_diff(10, &to_check, Some(60)), Some(-10));
}

#[test]
fn year_field_has_no_wraparound() {
    let to_check = vec![Item::Num(2030)];
    assert_eq!(next_nearest_diff(2025, &to_check, None), Some(5));
    assert_eq!(next_nearest_diff(2031, &to_check, None), None);
}

#[test]
fn epoch_and_negative_instants() {
    assert_eq!(naive_to_timestamp(&wall(1970, 1, 1, 0, 0, 0)), 0);
    assert_eq!(
        timestamp_to_naive(-1).unwrap(),
        WallTime::new(1969, 12, 31, 23, 59, 59, 999_999).unwrap()
    );
    assert!(timestamp_to_naive(i64::MAX).is_none());
}

#[test]
fn weekday_is_counted_from_sunday() {
    // 2025-06-01 was a Sunday, 1970-01-01 a Thursday.
    assert_eq!(wall(2025, 6, 1, 0, 0, 0).weekday_from_sunday(), 0);
    assert_eq!(wall(1970, 1, 1, 0, 0, 0).weekday_from_sunday(), 4);
    assert!(WallTime::new(2025, 2, 29, 0, 0, 0, 0).is_none());
}

#[test]
fn nearest_diffs_reach_the_ends_of_i64() {
    let list = [Item::Num(1), Item::Num(3)];
    assert_eq!(next_nearest_diff(5, &list, Some(i64::MAX)), Some(i64::MAX - 4));
    assert_eq!(next_nearest_diff(-i64::MAX, &[Item::Num(0)], None), Some(i64::MAX));
    assert_eq!(prev_nearest_diff(i64::MAX, &list, Some(12)), Some(3 - i64::MAX));
    assert_eq!(prev_nearest_diff(0, &list, Some(i64::MAX)), Some(3 - i64::MAX));
}

#[test]
fn nearest_diffs_land_on_the_nearest_listed_value() {
    let list = [Item::Num(5), Item::Num(20), Item::Num(40)];
    // forward from 21: 40 is the nearest listed minute
    assert_eq!(next_nearest_diff(21, &list, Some(60)), Some(19));
    // forward from 50: wraps round to 5 in the next hour
    assert_eq!(next_nearest_diff(50, &list, Some(60)), Some(15));
    // backward from 21: 20 is the nearest listed minute
    assert_eq!(prev_nearest_diff(21, &list, Some(60)), Some(-1));
    // backward from 3: wraps round to 40 in the previous hour
    assert_eq!(prev_nearest_diff(3, &list, Some(60)), Some(-23));
}
