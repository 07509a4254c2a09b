use croniter::cli::{iso, parse_count, parse_dt, parse_flags, run, wall_from_fields, Outcome};
use croniter::datetime::WallTime;

fn now() -> WallTime {
    WallTime::new(2025, 1, 1, 0, 0, 0, 0).unwrap()
}

fn run_cli(args: &[&str]) -> Outcome {
    let mut argv = vec!["croniter".to_string()];
    for a in args {
        argv.push(a.to_string());
    }
    run(&argv, now(), "0.1.0")
}

fn stdout_lines(args: &[&str]) -> Vec<String> {
    let out = run_cli(args);
    assert!(out.success, "command {args:?} failed: {}", out.stderr);
    out.stdout.lines().map(str::to_string).collect()
}

#[test]
fn next_weekdays_at_nine() {
    // 2025-06-07 is a Saturday, so the next weekday 9am is Monday the 9th.
    let got = stdout_lines(&["next", "0 9 * * 1-5", "-n", "3", "--start", "2025-06-07T12:00:00"]);
    assert_eq!(got, ["2025-06-09T09:00:00", "2025-06-10T09:00:00", "2025-06-11T09:00:00"]);
}

#[test]
fn next_last_day_of_month_handles_leap_february() {
    let got = stdout_lines(&["next", "0 12 l * *", "-n", "2", "--start", "2024-02-01T00:00:00"]);
    assert_eq!(got, ["2024-02-29T12:00:00", "2024-03-31T12:00:00"]);
}

#[test]
fn next_nth_weekday() {
    // Third Friday of June 2025 is the 20th; of July, the 18th.
    let got = stdout_lines(&["next", "0 9 * * 5#3", "-n", "2", "--start", "2025-06-01T00:00:00"]);
    assert_eq!(got, ["2025-06-20T09:00:00", "2025-07-18T09:00:00"]);
}

#[test]
fn next_nearest_weekday() {
    // 2025-03-15 is a Saturday, so `15w` fires on Friday the 14th.
    let got = stdout_lines(&["next", "0 9 15w * *", "-n", "1", "--start", "2025-03-01T00:00:00"]);
    assert_eq!(got, ["2025-03-14T09:00:00"]);
}

#[test]
fn prev_walks_backwards() {
    let got = stdout_lines(&["prev", "0 0 * * *", "-n", "3", "--start", "2025-06-15T12:00:00"]);
    assert_eq!(got, ["2025-06-15T00:00:00", "2025-06-14T00:00:00", "2025-06-13T00:00:00"]);
}

#[test]
fn range_includes_both_ends() {
    let got = stdout_lines(&[
        "range",
        "0 0 * * *",
        "--start",
        "2025-06-01T00:00:00",
        "--stop",
        "2025-06-04T00:00:00",
    ]);
    assert_eq!(
        got,
        ["2025-06-01T00:00:00", "2025-06-02T00:00:00", "2025-06-03T00:00:00", "2025-06-04T00:00:00"]
    );
}

#[test]
fn match_reports_hit_and_miss_via_exit_code() {
    let hit = run_cli(&["match", "*/15 * * * *", "2025-06-01T00:15:00"]);
    assert!(hit.success);
    assert_eq!(hit.stdout.trim(), "true");

    let miss = run_cli(&["match", "*/15 * * * *", "2025-06-01T00:07:00"]);
    assert!(!miss.success);
    assert_eq!(miss.stdout.trim(), "false");
}

#[test]
fn validate_accepts_good_and_rejects_bad() {
    assert!(run_cli(&["validate", "0 9 * * 1-5"]).success);

    let bad = run_cli(&["validate", "99 * * * *"]);
    assert!(!bad.success);
    assert!(bad.stderr.contains("out of range"), "expected an out-of-range message, got: {}", bad.stderr);
}

#[test]
fn bench_is_deterministic_and_matches_the_python_checksum() {
    // A single differing fire time changes the checksum.
    let out = stdout_lines(&["bench", "-n", "10000"]);
    assert_eq!(out, ["iterations=9996 checksum=26611225207500"]);
}

#[test]
fn no_arguments_is_an_error_not_a_panic() {
    let out = run_cli(&[]);
    assert!(!out.success);
    assert!(out.stderr.contains("USAGE:"), "stderr was: {}", out.stderr);
    // Usage on the error path must not pollute stdout.
    assert!(out.stdout.is_empty(), "stdout should be empty on error");
}

#[test]
fn help_prints_usage_to_stdout() {
    let out = run_cli(&["--help"]);
    assert!(out.success);
    assert!(out.stdout.contains("USAGE:"));
}

#[test]
fn unknown_command_is_rejected() {
    let out = run_cli(&["frobnicate", "* * * * *"]);
    assert!(!out.success);
}

#[test]
fn unknown_command_names_it_and_shows_usage() {
    let out = run_cli(&["frobnicate"]);
    assert!(out.stderr.starts_with("croniter: unknown command \"frobnicate\"\n\ncroniter"));
    assert!(out.stdout.is_empty());
}

#[test]
fn no_arguments_reports_no_command() {
    let out = run_cli(&[]);
    assert!(out.stderr.ends_with("croniter: no command given\n"));
}

#[test]
fn version_prints_the_given_version() {
    let out = run_cli(&["--version"]);
    assert!(out.success);
    assert_eq!(out.stdout, "croniter 0.1.0\n");
    assert_eq!(run_cli(&["-V"]).stdout, "croniter 0.1.0\n");
}

#[test]
fn missing_arguments_are_named() {
    assert_eq!(run_cli(&["next"]).stderr, "croniter: missing expression\n");
    assert_eq!(run_cli(&["match", "* * * * *"]).stderr, "croniter: missing datetime\n");
    assert_eq!(run_cli(&["range", "* * * * *"]).stderr, "croniter: range needs --start\n");
    assert_eq!(
        run_cli(&["range", "* * * * *", "--start", "2025-01-01"]).stderr,
        "croniter: range needs --stop\n"
    );
}

#[test]
fn validate_reports_the_expansion_error() {
    let bad = run_cli(&["validate", "* * * * xyz"]);
    assert!(bad.stderr.starts_with("croniter: invalid: "));
    assert_eq!(run_cli(&["validate", "*/5 * * * *"]).stdout, "valid\n");
}

#[test]
fn miss_prints_false_and_says_nothing_more() {
    let miss = run_cli(&["match", "0 0 * * *", "2025-06-01T00:07:00"]);
    assert_eq!(miss.stdout, "false\n");
    assert_eq!(miss.stderr, "");
}

#[test]
fn next_without_start_counts_from_now() {
    // now() is 2025-01-01 00:00, a Wednesday.
    let got = stdout_lines(&["next", "0 9 * * *", "-n", "2"]);
    assert_eq!(got, ["2025-01-01T09:00:00", "2025-01-02T09:00:00"]);
}

#[test]
fn next_in_a_zone_repeats_the_fall_back_hour() {
    let got = stdout_lines(&[
        "next",
        "*/30 * * * *",
        "--tz",
        "Europe/Athens",
        "--start",
        "2013-10-27T02:00:00",
        "-n",
        "5",
    ]);
    assert_eq!(
        got,
        [
            "2013-10-27T02:30:00",
            "2013-10-27T03:00:00",
            "2013-10-27T03:30:00",
            "2013-10-27T03:00:00",
            "2013-10-27T03:30:00"
        ]
    );
}

#[test]
fn unknown_zone_is_reported() {
    let out = run_cli(&["next", "* * * * *", "--tz", "Mars/Olympus_Mons"]);
    assert!(!out.success);
    assert_eq!(out.stderr, "croniter: unknown timezone \"Mars/Olympus_Mons\"\n");
}

#[test]
fn range_backwards_when_start_is_after_stop() {
    let got = stdout_lines(&[
        "range",
        "0 0 * * *",
        "--start",
        "2025-06-03",
        "--stop",
        "2025-06-01 00:00:00",
    ]);
    assert_eq!(got, ["2025-06-03T00:00:00", "2025-06-02T00:00:00", "2025-06-01T00:00:00"]);
}

#[test]
fn flags_are_read_in_any_order() {
    let rest: Vec<String> = ["--tz", "UTC", "-n", "+7", "--start", "x", "--stop", "y"]
        .iter()
        .map(|s| s.to_string())
        .collect();
    let a = parse_flags(&rest).unwrap();
    assert_eq!(a.count, 7);
    assert_eq!(a.start.as_deref(), Some("x"));
    assert_eq!(a.stop.as_deref(), Some("y"));
    assert_eq!(a.tz.as_deref(), Some("UTC"));
    let d = parse_flags(&[]).unwrap();
    assert_eq!(d.count, 10);
    assert!(d.start.is_none());
}

#[test]
fn flag_errors_are_named() {
    let v = |xs: &[&str]| xs.iter().map(|s| s.to_string()).collect::<Vec<String>>();
    assert_eq!(parse_flags(&v(&["-n"])).err().unwrap(), "-n needs a value");
    assert_eq!(parse_flags(&v(&["--count", "x"])).err().unwrap(), "-n needs a number");
    assert_eq!(parse_flags(&v(&["--start"])).err().unwrap(), "--start needs a value");
    assert_eq!(parse_flags(&v(&["--stop"])).err().unwrap(), "--stop needs a value");
    assert_eq!(parse_flags(&v(&["--tz"])).err().unwrap(), "--tz needs a value");
    assert_eq!(parse_flags(&v(&["--bogus"])).err().unwrap(), "unknown option \"--bogus\"");
}

#[test]
fn counts_parse_like_usize() {
    assert_eq!(parse_count("42"), Some(42));
    assert_eq!(parse_count("+3"), Some(3));
    assert_eq!(parse_count("0"), Some(0));
    assert_eq!(parse_count(""), None);
    assert_eq!(parse_count("+"), None);
    assert_eq!(parse_count("-1"), None);
    assert_eq!(parse_count("1x"), None);
    assert_eq!(parse_count("18446744073709551615"), Some(usize::MAX));
    assert_eq!(parse_count("18446744073709551616"), None);
}

#[test]
fn datetimes_parse_in_three_forms() {
    let w = WallTime::new(2025, 6, 7, 12, 30, 5, 0).unwrap();
    assert_eq!(parse_dt("2025-06-07T12:30:05").unwrap(), w);
    assert_eq!(parse_dt("2025-06-07 12:30:05").unwrap(), w);
    assert_eq!(parse_dt("2025-06-07").unwrap(), WallTime::new(2025, 6, 7, 0, 0, 0, 0).unwrap());
    assert_eq!(
        parse_dt("yesterday").err().unwrap(),
        "cannot parse datetime \"yesterday\" (expected ISO 8601)"
    );
}

#[test]
fn readings_are_written_with_padded_fields() {
    let w = |y: i64, m: i64, d: i64, h: i64, mi: i64, s: i64| WallTime::new(y, m, d, h, mi, s, 0).unwrap();
    assert_eq!(iso(w(2025, 6, 9, 9, 0, 0)), "2025-06-09T09:00:00");
    assert_eq!(iso(w(5, 1, 2, 3, 4, 5)), "0005-01-02T03:04:05");
    assert_eq!(iso(w(12345, 1, 2, 3, 4, 5)), "+12345-01-02T03:04:05");
    assert_eq!(iso(w(-1, 12, 31, 23, 59, 59)), "-0001-12-31T23:59:59");
}

#[test]
fn parsed_fields_become_a_reading() {
    assert_eq!(
        wall_from_fields("x", Some((2025, 6, 7, 12, 30, 15, 250_000_000))),
        Ok(WallTime::new(2025, 6, 7, 12, 30, 15, 250_000).unwrap())
    );
    assert_eq!(
        wall_from_fields("2025-06-30T23:59:60", Some((2025, 6, 30, 23, 59, 59, 1_000_000_000))),
        Err("cannot parse datetime \"2025-06-30T23:59:60\" (expected ISO 8601)".to_string())
    );
    assert_eq!(
        wall_from_fields("nope", None),
        Err("cannot parse datetime \"nope\" (expected ISO 8601)".to_string())
    );
}
