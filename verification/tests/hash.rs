use croniter::error::CroniterError;
use croniter::hash::{crc32, expand_field, hash_do};

#[test]
fn crc32_matches_python_binascii() {
    // binascii.crc32(b"...") & 0xFFFFFFFF
    assert_eq!(crc32(b""), 0);
    assert_eq!(crc32(b"hello"), 0x3610_A686);
    assert_eq!(crc32(b"123456789"), 0xCBF4_3926);
}

#[test]
fn plain_h_is_deterministic_for_a_hash_id() {
    let a = expand_field(0, "h", Some(b"hello")).unwrap();
    let b = expand_field(0, "h", Some(b"hello")).unwrap();
    assert_eq!(a, b);
}

#[test]
fn h_without_hash_id_is_rejected() {
    assert!(expand_field(0, "h", None).is_err());
}

#[test]
fn non_hash_expression_passes_through() {
    assert_eq!(expand_field(0, "*/5", Some(b"x")).unwrap(), "*/5");
    assert_eq!(expand_field(0, "1-5", Some(b"x")).unwrap(), "1-5");
}

#[test]
fn range_end_must_exceed_range_begin() {
    assert!(expand_field(0, "h(30-30)", Some(b"x")).is_err());
    assert!(expand_field(0, "h(40-30)", Some(b"x")).is_err());
}

#[test]
fn zero_divisor_is_rejected() {
    assert!(expand_field(0, "h/0", Some(b"x")).is_err());
    assert!(expand_field(0, "h(0-29)/0", Some(b"x")).is_err());
}

// The value `h` picks: ((crc32(id) >> idx) % (end - begin + 1)) + begin.
#[test]
fn plain_h_picks_the_keyed_value() {
    let crc = crc32(b"hello") as u64; // 0x3610A686
    assert_eq!(hash_do(0, "h", Some(b"hello"), None, None), (crc % 60) as i64);
    assert_eq!(hash_do(1, "h", Some(b"hello"), None, None), ((crc >> 1) % 24) as i64);
    assert_eq!(expand_field(0, "h", Some(b"hello")).unwrap(), format!("{}", crc % 60));
    assert_eq!(
        expand_field(0, "h(10-19)", Some(b"hello")).unwrap(),
        format!("{}", crc % 10 + 10)
    );
    assert_eq!(
        expand_field(0, "h/15", Some(b"hello")).unwrap(),
        format!("{}-59/15", crc % 15)
    );
    assert_eq!(
        expand_field(0, "h(30-59)/10", Some(b"hello")).unwrap(),
        format!("{}-59/10", crc % 10 + 30)
    );
}

#[test]
fn random_form_stays_in_range() {
    for _ in 0..50 {
        let v: i64 = expand_field(1, "r", None).unwrap().parse().unwrap();
        assert!((0..=23).contains(&v));
        let s = expand_field(0, "r(5-9)/7", None).unwrap();
        let start: i64 = s.split('-').next().unwrap().parse().unwrap();
        assert!((5..=11).contains(&start));
        assert!(s.ends_with("-9/7"));
    }
}

#[test]
fn hash_errors_carry_their_messages() {
    assert_eq!(
        expand_field(0, "h", None),
        Err(CroniterError::BadCron("Hashed definitions must include hash_id".to_string()))
    );
    assert_eq!(
        expand_field(0, "h(40-30)", Some(b"x")),
        Err(CroniterError::BadCron("Range end must be greater than range begin".to_string()))
    );
    assert_eq!(
        expand_field(0, "h/0", Some(b"x")),
        Err(CroniterError::BadCron("Bad expression: h/0".to_string()))
    );
    assert_eq!(
        expand_field(0, "h(1-99999999999999999999)", Some(b"x")),
        Err(CroniterError::BadCron("Bad expression: h(1-99999999999999999999)".to_string()))
    );
}

#[test]
fn near_misses_are_not_hash_expressions() {
    for e in ["hh", "h(1-2", "h(-2)", "h(1-)", "h/", "h/x", "x", "", "h(1-2)/", "H"] {
        assert_eq!(expand_field(0, e, Some(b"x")).unwrap(), e);
    }
}
