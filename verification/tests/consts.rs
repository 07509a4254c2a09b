use croniter::consts::{cron_fields, is_leap, last_day_of_month};
use croniter::item::Item;

#[test]
fn leap_years_match_python() {
    assert!(is_leap(2000));
    assert!(!is_leap(1900));
    assert!(is_leap(2024));
    assert!(!is_leap(2025));
}

#[test]
fn february_length_honours_leap() {
    assert_eq!(last_day_of_month(2024, 2), 29);
    assert_eq!(last_day_of_month(2025, 2), 28);
    assert_eq!(last_day_of_month(2025, 1), 31);
    assert_eq!(last_day_of_month(2025, 4), 30);
}

#[test]
fn field_indices_by_column_count() {
    assert_eq!(cron_fields(5), vec![0, 1, 2, 3, 4]);
    assert_eq!(cron_fields(6), vec![0, 1, 2, 3, 4, 5]);
    assert_eq!(cron_fields(7), vec![0, 1, 2, 3, 4, 5, 6]);
}

#[test]
fn only_numbers_have_a_number() {
    assert_eq!(Item::Num(7).as_num(), Some(7));
    assert_eq!(Item::Star.as_num(), None);
    assert_eq!(Item::Last.as_num(), None);
}
