use snooze::{parse_pause_arg, sum_pause_args, Duration};

#[test]
fn test_sum_pause_args_empty() {
    let input = [];
    assert_eq!(None, sum_pause_args(&input));
}

#[test]
fn test_sum_pause_args_ok() {
    let input = ["1s", "5s", "1m"];
    let expected = Duration::from_secs(1 + 5 + 60);
    assert_eq!(Some(expected), sum_pause_args(&input));
}

#[test]
fn test_sum_pause_args_invalid() {
    let input = ["1s", "5y", "1m"];
    assert_eq!(None, sum_pause_args(&input));
}

#[test]
fn test_parse_blank_terms_are_zero() {
    assert_eq!(parse_pause_arg(""), Some(Duration::from_secs(0)));
    assert_eq!(parse_pause_arg(" "), Some(Duration::from_secs(0)));
    assert_eq!(parse_pause_arg("\t\n"), Some(Duration::from_secs(0)));
}

#[test]
fn test_parse_plain_numbers_default_to_seconds() {
    assert_eq!(parse_pause_arg("1"), Some(Duration::from_secs(1)));
    assert_eq!(parse_pause_arg("1s"), Some(Duration::from_secs(1)));
    assert_eq!(parse_pause_arg("0.5"), Some(Duration::from_millis(500)));
    assert_eq!(parse_pause_arg("0.5s"), Some(Duration::from_millis(500)));
    assert_eq!(parse_pause_arg(" 1"), Some(Duration::from_secs(1)));
    assert_eq!(parse_pause_arg(" 1\t\n"), Some(Duration::from_secs(1)));
}

#[test]
fn test_parse_units_scale() {
    assert_eq!(parse_pause_arg("2m"), Some(Duration::from_secs(2 * 60)));
    assert_eq!(parse_pause_arg("3h"), Some(Duration::from_secs(3 * 60 * 60)));
    assert_eq!(parse_pause_arg("4d"), Some(Duration::from_secs(4 * 60 * 60 * 24)));
}

#[test]
fn test_parse_fractions_truncate_exactly() {
    assert_eq!(parse_pause_arg("0.5m"), Some(Duration::from_secs(30)));
    assert_eq!(parse_pause_arg("0.25m"), Some(Duration::from_secs(15)));
    assert_eq!(parse_pause_arg("0.125m"), Some(Duration::from_millis(7500)));
    assert_eq!(parse_pause_arg("0.5d"), Some(Duration::from_secs(12 * 60 * 60)));
}

#[test]
fn test_parse_invalid_terms() {
    assert_eq!(parse_pause_arg("0 5"), None);
    assert_eq!(parse_pause_arg("s"), None);
    assert_eq!(parse_pause_arg("1m2d"), None);
    assert_eq!(parse_pause_arg("1m2"), None);
    assert_eq!(parse_pause_arg("1y"), None);
    assert_eq!(parse_pause_arg("1ms"), None);
    assert_eq!(parse_pause_arg("-1"), None);
    assert_eq!(parse_pause_arg("."), None);
    assert_eq!(parse_pause_arg("1.2.3"), None);
}

#[test]
fn test_parse_sign_and_dot_forms() {
    assert_eq!(parse_pause_arg("+1"), Some(Duration::from_secs(1)));
    assert_eq!(parse_pause_arg("+0.5m"), Some(Duration::from_secs(30)));
    assert_eq!(parse_pause_arg("5."), Some(Duration::from_secs(5)));
    assert_eq!(parse_pause_arg(".5"), Some(Duration::from_millis(500)));
    assert_eq!(parse_pause_arg("+"), None);
    assert_eq!(parse_pause_arg("+s"), None);
    assert_eq!(parse_pause_arg("++1"), None);
}

#[test]
fn test_parse_long_fraction_is_exact() {
    // only the scaled-up digits survive the truncation
    assert_eq!(parse_pause_arg("0.0000000005m"), Some(Duration::from_nanos(30)));
    assert_eq!(parse_pause_arg("0.0000000001"), Some(Duration::from_nanos(0)));
}

#[test]
fn test_parse_huge_magnitude_saturates() {
    // far past the largest representable span: clamped, not wrapped
    let d = parse_pause_arg("99999999999999999999999999d").unwrap();
    assert_eq!(d, Duration::from_nanos(u64::MAX));
}

#[test]
fn test_sum_blank_terms_is_invalid_overall() {
    assert_eq!(None, sum_pause_args(&["", " "]));
    assert_eq!(None, sum_pause_args(&["0", "0s"]));
}

#[test]
fn test_sum_single_term() {
    assert_eq!(Some(Duration::from_secs(90)), sum_pause_args(&["1.5m"]));
}

#[test]
fn test_duration_arithmetic() {
    let a = Duration::new(1, 999_999_999);
    let b = Duration::new(2, 1);
    assert_eq!(a.checked_add(&b), Some(Duration::new(4, 0)));
    let top = Duration::new(u64::MAX, 999_999_999);
    assert_eq!(top.checked_add(&Duration::from_nanos(1)), None);
    assert_eq!(a.min_with(&b), a);
    assert!(a.lt(&b));
    assert!(Duration::zero().is_zero());
    assert!(!b.is_zero());
}
