use std::time::Duration;

use minesweeper::format_time;

#[test]
fn test_format_time_zero() {
    let duration = Duration::from_secs(0);
    assert_eq!(format_time(duration.as_nanos()), "00:00");
}

#[test]
fn test_format_time_seconds_only() {
    let duration = Duration::from_secs(30);
    assert_eq!(format_time(duration.as_nanos()), "00:30");
}

#[test]
fn test_format_time_minutes_only() {
    let duration = Duration::from_secs(120);
    assert_eq!(format_time(duration.as_nanos()), "02:00");
}

#[test]
fn test_format_time_minutes_and_seconds() {
    let duration = Duration::from_secs(125);
    assert_eq!(format_time(duration.as_nanos()), "02:05");
}

#[test]
fn test_format_time_large_values() {
    let duration = Duration::from_secs(3661);
    assert_eq!(format_time(duration.as_nanos()), "61:01");
}

#[test]
fn test_format_time_max_seconds() {
    let duration = Duration::from_secs(3599);
    assert_eq!(format_time(duration.as_nanos()), "59:59");
}

#[test]
fn test_format_time_with_milliseconds() {
    let duration = Duration::from_millis(125000);
    assert_eq!(format_time(duration.as_nanos()), "02:05");
}

#[test]
fn test_format_time_edge_cases() {
    assert_eq!(format_time(Duration::from_secs(1).as_nanos()), "00:01");
    assert_eq!(format_time(Duration::from_secs(60).as_nanos()), "01:00");
    assert_eq!(format_time(Duration::from_secs(61).as_nanos()), "01:01");
    assert_eq!(format_time(Duration::from_secs(999).as_nanos()), "16:39");
}

#[test]
fn format_time_drops_parts_of_a_second() {
    assert_eq!(format_time(999_999_999), "00:00");
    assert_eq!(format_time(59_999_999_999), "00:59");
    assert_eq!(format_time(Duration::from_secs(6000).as_nanos()), "100:00");
}
