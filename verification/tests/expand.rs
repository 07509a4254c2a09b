use croniter::error::CroniterError;
use croniter::expand::{expand, value_alias};
use croniter::item::{Item, Nth};

fn ex(s: &str) -> Vec<Vec<Item>> {
    expand(s, None, false, None, false, None).unwrap().expanded
}

fn nums(v: &[i64]) -> Vec<Item> {
    v.iter().map(|n| Item::Num(*n)).collect()
}

#[test]
fn every_minute_is_all_stars() {
    assert_eq!(ex("* * * * *"), vec![vec![Item::Star]; 5]);
}

#[test]
fn on_the_hour() {
    let e = ex("0 0 * * *");
    assert_eq!(e[0], vec![Item::Num(0)]);
    assert_eq!(e[1], vec![Item::Num(0)]);
    assert_eq!(e[2], vec![Item::Star]);
}

#[test]
fn list_and_range_with_alpha_dow() {
    let e = ex("0-5,10 * * * mon-fri");
    assert_eq!(e[0], nums(&[0, 1, 2, 3, 4, 5, 10]));
    assert_eq!(e[4], nums(&[1, 2, 3, 4, 5]));
}

#[test]
fn nth_weekday_is_lifted_out_of_the_dow_field() {
    let r = expand("* * * * 2#3", None, false, None, false, None).unwrap();
    assert_eq!(r.expanded[4], vec![Item::Num(2)]);
    assert_eq!(r.nth_weekday_of_month[2], vec![Nth::Num(3)]);
}

#[test]
fn last_day_of_month_marker() {
    let e = ex("0 * l * *");
    assert_eq!(e[2], vec![Item::Last]);
}

#[test]
fn seconds_field_step() {
    let e = ex("0 0 * * * */15");
    assert_eq!(e[5], nums(&[0, 15, 30, 45]));
}

#[test]
fn wrong_column_count_is_rejected() {
    assert!(expand("* * * *", None, false, None, false, None).is_err());
    assert!(expand("* * * * * * * *", None, false, None, false, None).is_err());
}

#[test]
fn out_of_range_is_rejected() {
    assert!(expand("60 * * * *", None, false, None, false, None).is_err());
    assert!(expand("* 24 * * *", None, false, None, false, None).is_err());
    assert!(expand("* * 32 * *", None, false, None, false, None).is_err());
    assert!(expand("* * * 13 *", None, false, None, false, None).is_err());
}

#[test]
fn zero_step_is_rejected() {
    assert!(expand("*/0 * * * *", None, false, None, false, None).is_err());
}

#[test]
fn bad_alpha_is_not_alpha_error() {
    let err = expand("* * * * xyz", None, false, None, false, None).unwrap_err();
    assert!(matches!(err, CroniterError::NotAlpha(_)));
}

#[test]
fn dow_seven_normalises_to_zero_on_unix_cron() {
    let e = ex("0 0 * * 7");
    assert_eq!(e[4], vec![Item::Num(0)]);
}

#[test]
fn nearest_weekday_is_lifted_out() {
    let r = expand("0 9 15w * *", None, false, None, false, None).unwrap();
    assert!(r.nearest_weekday.contains(&15));
}

#[test]
fn nearest_weekday_rejects_lists() {
    assert!(expand("0 9 1,15w * *", None, false, None, false, None).is_err());
}

#[test]
fn item_ordering_matches_python_string_sort() {
    let mut v = vec![Item::Last, Item::Num(5), Item::Star, Item::Num(1)];
    v.sort();
    assert_eq!(v, vec![Item::Star, Item::Num(1), Item::Num(5), Item::Last]);
}

// ---------------------------------------------------------------------------

#[test]
fn error_messages_name_the_expression() {
    let bad = |s: &str| expand(s, None, false, None, false, None).unwrap_err();
    assert_eq!(
        bad("* * * *"),
        CroniterError::BadCron(
            "Exactly 5, 6 or 7 columns has to be specified for iterator expression.".to_string()
        )
    );
    assert_eq!(
        bad("60 * * * *"),
        CroniterError::BadCron("[60 * * * *] is not acceptable, out of range".to_string())
    );
    assert_eq!(
        bad("*/0 * * * *"),
        CroniterError::BadCron("[*/0 * * * *] step '0' in field 0 is not acceptable".to_string())
    );
    assert_eq!(
        bad("* * * * XYZ"),
        CroniterError::NotAlpha("[* * * * xyz] is not acceptable".to_string())
    );
    assert_eq!(
        bad("-1 * * * *"),
        CroniterError::BadCron("[-1 * * * *] is not acceptable, negative numbers not allowed".to_string())
    );
    assert_eq!(
        bad("0-70 * * * *"),
        CroniterError::BadCron("0-70 * * * * is out of bands".to_string())
    );
    assert_eq!(
        bad("* * * * 1#6"),
        CroniterError::BadCron("[* * * * 1#6] is not acceptable. Invalid day_of_week value: '6'".to_string())
    );
    assert_eq!(
        bad("0 9 32w * *"),
        CroniterError::BadCron(
            "[0 9 32w * *] is not acceptable, nearest weekday day value '32' out of range".to_string()
        )
    );
    assert_eq!(
        bad("? * * * *"),
        CroniterError::BadCron(
            "[? * * * *] is not acceptable. Question mark can only used in day_of_month or day_of_week"
                .to_string()
        )
    );
    assert_eq!(
        bad("* * 1? * *"),
        CroniterError::BadCron(
            "[* * 1? * *] is not acceptable. Question mark can not used with other characters".to_string()
        )
    );
    assert_eq!(
        bad("* * * * 1,2#3"),
        CroniterError::UnsupportedSyntax(
            "day-of-week field does not support mixing literal values and nth day of week syntax.  \
             Cron: '* * * * 1,2#3'    dow={Num(1)} vs nth={Num(2): {Num(3)}}"
                .to_string()
        )
    );
    assert_eq!(
        bad("* * * * a-b"),
        CroniterError::NotAlpha("[* * * * a-b] is not acceptable".to_string())
    );
    assert_eq!(
        bad("* * 0-5 * *"),
        CroniterError::BadCron("[* * 0-5 * *] is not acceptable, out of range".to_string())
    );
}

#[test]
fn aliases_and_their_hashed_forms() {
    assert_eq!(ex("@daily"), ex("0 0 * * *"));
    assert_eq!(ex("@HOURLY"), ex("0 * * * *"));
    assert_eq!(ex("@weekly"), ex("0 0 * * 0"));
    assert_eq!(ex("@yearly"), ex("0 0 1 1 *"));
    let h = expand("@midnight", Some(b"job"), false, None, false, None).unwrap();
    assert_eq!(h.expanded.len(), 6);
    assert!(matches!(h.expanded[1][0], Item::Num(n) if (0..=2).contains(&n)));
}

#[test]
fn steps_wrap_and_start_where_asked() {
    // A backwards range wraps around the field.
    assert_eq!(ex("* * * * sat-sun")[4], nums(&[0, 6]));
    assert_eq!(ex("* * * nov-feb *")[3], nums(&[1, 2, 11, 12]));
    // `v/s` runs to the field's maximum.
    assert_eq!(ex("50/5 * * * *")[0], nums(&[50, 55]));
    // An equal range is the whole cycle.
    assert_eq!(ex("* * * * mon-mon/2")[4], nums(&[0, 2, 4, 6]));
    // Every value collapses to `*`, unless the other day field is restricted.
    assert_eq!(ex("0-59 * * * *")[0], vec![Item::Star]);
    assert_eq!(ex("* * 1-31 * 1")[2].len(), 31);
    // `*` among other values is kept as it stands.
    assert_eq!(ex("*,3 * * * *")[0], vec![Item::Star, Item::Num(3)]);
    // Duplicates are dropped and the list is sorted.
    assert_eq!(ex("5,1,5,3 * * * *")[0], nums(&[1, 3, 5]));
}

#[test]
fn value_aliases_depend_on_the_column_count() {
    assert_eq!(value_alias(Item::Num(0), 2, 6), Item::Num(1));
    assert_eq!(value_alias(Item::Num(0), 2, 5), Item::Num(0));
    assert_eq!(value_alias(Item::Num(7), 4, 5), Item::Num(0));
    assert_eq!(value_alias(Item::Num(7), 4, 6), Item::Num(7));
    assert_eq!(value_alias(Item::Num(0), 3, 7), Item::Num(0));
    assert_eq!(value_alias(Item::Num(5), 2, 6), Item::Num(5));
}

#[test]
fn seconds_first_and_strict_checks() {
    let e = expand("30 0 9 * * *", None, true, None, false, None).unwrap();
    assert_eq!(e.expanded[5], vec![Item::Num(30)]);
    assert_eq!(e.expanded[0], vec![Item::Num(0)]);
    assert_eq!(e.expressions[5], "30");
    let err = expand("0 0 31 2 *", None, false, None, true, None).unwrap_err();
    assert_eq!(
        err,
        CroniterError::BadCron("[0 0 31 2 *] is not acceptable. Day(s) [31] can never occur in month(s) [2]".to_string())
    );
    assert!(expand("0 0 29 2 *", None, false, None, true, None).is_ok());
    assert!(expand("0 0 29 2 *", None, false, None, true, Some(&[2025])).is_err());
    assert!(expand("0 0 29 2 *", None, false, None, true, Some(&[2024])).is_ok());
}

#[test]
fn qualifiers_and_question_marks() {
    let r = expand("* * ? * l5,mon-wed#2", None, false, None, false, None).unwrap();
    assert_eq!(r.expanded[2], vec![Item::Star]);
    assert_eq!(r.expanded[4], nums(&[1, 2, 3, 5]));
    assert_eq!(r.nth_weekday_of_month[5], vec![Nth::Last]);
    assert_eq!(r.nth_weekday_of_month[1], vec![Nth::Num(2)]);
    assert!(r.nth_weekday_of_month[0].is_empty());
}

#[test]
fn start_from_the_current_date() {
    // 2025-06-01 00:07 UTC: minute 7 on a grid of 5 starts at 2.
    let ts = 1_748_736_420_000_000i64;
    let e = expand("*/5 * * * *", None, false, Some(ts), false, None).unwrap();
    assert_eq!(e.expanded[0][0], Item::Num(2));
    let err = expand("* * * * * */5", None, false, Some(ts), false, None).unwrap_err();
    assert!(matches!(err, CroniterError::Value(_)));
}
