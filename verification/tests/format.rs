use snooze::{format_remaining_time, Duration};

#[test]
fn test_format_remaining_time_seconds_only() {
    assert_eq!(format_remaining_time(Duration::from_secs(1)), "        1");
    assert_eq!(format_remaining_time(Duration::from_secs(11)), "       11");
    assert_eq!(format_remaining_time(Duration::from_secs(0)), "        0");
}

#[test]
fn test_format_remaining_time_minutes() {
    assert_eq!(format_remaining_time(Duration::from_secs(61)), "     1:01");
    assert_eq!(format_remaining_time(Duration::from_secs(81)), "     1:21");
    assert_eq!(format_remaining_time(Duration::from_secs(661)), "    11:01");
    assert_eq!(format_remaining_time(Duration::from_secs(701)), "    11:41");
}

#[test]
fn test_format_remaining_time_hours() {
    assert_eq!(format_remaining_time(Duration::from_secs(7200)), "  2:00:00");
    assert_eq!(format_remaining_time(Duration::from_secs(7100)), "  1:58:20");
    assert_eq!(format_remaining_time(Duration::from_secs(604800)), "168:00:00");
}

#[test]
fn test_format_remaining_time_rounds_half_up() {
    assert_eq!(format_remaining_time(Duration::from_millis(900)), "        1");
    assert_eq!(format_remaining_time(Duration::from_millis(500)), "        0");
    assert_eq!(format_remaining_time(Duration::from_millis(300)), "        0");
    assert_eq!(format_remaining_time(Duration::new(59, 600_000_000)), "     1:00");
}

#[test]
fn test_format_remaining_time_monotone_samples() {
    // a longer wait never shows a smaller display
    let samples: [u64; 7] = [0, 1, 59, 60, 3599, 3600, 604800];
    let mut prev = format_remaining_time(Duration::from_secs(0));
    for s in samples {
        let cur = format_remaining_time(Duration::from_secs(s));
        // all layouts share the fixed width, so the string comparison
        // follows the hour/minute/second ordering on these samples
        assert_eq!(cur.len(), 9);
        assert!(prev.trim_start().len() <= cur.trim_start().len() || prev <= cur);
        prev = cur;
    }
}
