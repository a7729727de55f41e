use snooze::{civil_from_days, epoch_day_limit, format_end_from_clock, wall_clock_end_time, Duration};

#[test]
fn test_epoch_day_limit_value() {
    // 8030 years of 365 days plus 1947 leap days
    assert_eq!(epoch_day_limit(), 2_932_897);
}

#[test]
fn test_civil_from_days_epoch() {
    assert_eq!(civil_from_days(0), (1970, 1, 1));
    assert_eq!(civil_from_days(30), (1970, 1, 31));
    assert_eq!(civil_from_days(31), (1970, 2, 1));
    assert_eq!(civil_from_days(365), (1971, 1, 1));
}

#[test]
fn test_civil_from_days_leap_year() {
    // 2024-01-01 is 19723 days after the epoch
    assert_eq!(civil_from_days(19723), (2024, 1, 1));
    assert_eq!(civil_from_days(19723 + 31 + 28), (2024, 2, 29));
    assert_eq!(civil_from_days(19723 + 31 + 29), (2024, 3, 1));
    assert_eq!(civil_from_days(2_932_896), (9999, 12, 31));
}

#[test]
fn test_end_time_same_day() {
    let hour = Duration::from_secs(3600);
    assert_eq!(
        format_end_from_clock(1565442000, 0, 0, &hour),
        Some("14:00:00".to_string())
    );
    assert_eq!(
        format_end_from_clock(1709208000, 0, 0, &hour),
        Some("13:00:00".to_string())
    );
    assert_eq!(
        format_end_from_clock(1740744000, 0, 0, &hour),
        Some("13:00:00".to_string())
    );
}

#[test]
fn test_end_time_crosses_midnight() {
    let hour = Duration::from_secs(3600);
    assert_eq!(
        format_end_from_clock(1745539140, 0, 0, &hour),
        Some("2025-04-25 00:59:00".to_string())
    );
    assert_eq!(
        format_end_from_clock(1746057540, 0, 0, &hour),
        Some("2025-05-01 00:59:00".to_string())
    );
    assert_eq!(
        format_end_from_clock(1735689540, 0, 0, &hour),
        Some("2025-01-01 00:59:00".to_string())
    );
}

#[test]
fn test_end_time_longer_than_a_day() {
    let long = Duration::from_secs(36 * 60 * 60);
    assert_eq!(
        format_end_from_clock(1754690400, 0, 0, &long),
        Some("2025-08-10 10:00:00".to_string())
    );
}

#[test]
fn test_end_time_honours_offset() {
    // one second before local midnight: the very next second crosses the day
    let base = 1565442000i64; // 13:00:00 UTC
    let offset = 11 * 3600; // local 2019-08-11 00:00:00
    assert_eq!(
        format_end_from_clock(base - 1, 0, offset as i32, &Duration::from_secs(1)),
        Some("2019-08-11 00:00:00".to_string())
    );
}

#[test]
fn test_end_time_subsecond_carry() {
    // the sub-second parts add up to one extra second
    let d = Duration::new(0, 600_000_000);
    assert_eq!(
        format_end_from_clock(1565442000, 500_000_000, 0, &d),
        Some("13:00:01".to_string())
    );
    assert_eq!(
        format_end_from_clock(1565442000, 300_000_000, 0, &d),
        Some("13:00:00".to_string())
    );
}

#[test]
fn test_end_time_unavailable_cases() {
    // a clock before the epoch is out of the supported range
    assert_eq!(format_end_from_clock(-10, 0, 0, &Duration::from_secs(1)), None);
    // a duration too long for the calendar arithmetic
    let huge = Duration::new(u64::MAX, 0);
    assert_eq!(format_end_from_clock(1565442000, 0, 0, &huge), None);
}

#[test]
fn test_end_time_saturates_at_calendar_top() {
    // an end past year 9999 clamps to the last supported second
    let d = Duration::new(i64::MAX as u64, 0);
    assert_eq!(
        format_end_from_clock(1565442000, 0, 0, &d),
        Some("9999-12-31 23:59:59".to_string())
    );
}

#[test]
fn test_wall_clock_end_time_runs() {
    // with a sane system clock the decoration is available
    let r = wall_clock_end_time(Duration::from_secs(1));
    assert!(r.is_some());
    let s = r.unwrap();
    assert!(s.len() == 8 || s.len() == 19);
}
