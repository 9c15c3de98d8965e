//! Tests of the formatter's main cases.

use std::time::Duration;
use timekit::format::{format_clock, format_compact, format_long, DurationFormatter, Precision};

#[test]
fn test_format_basic() {
    let duration = Duration::from_secs(3665);
    assert_eq!(timekit::format::format(duration), "1h 1m 5s");
}

#[test]
fn format_test_format_compact() {
    let duration = Duration::from_secs(3665);
    assert_eq!(format_compact(duration), "1h1m5s");
}

#[test]
fn test_format_long() {
    let duration = Duration::from_secs(3661);
    assert_eq!(format_long(duration), "1 hour 1 minute 1 second");
}

#[test]
fn format_test_format_long_plural() {
    let duration = Duration::from_secs(7322);
    assert_eq!(format_long(duration), "2 hours 2 minutes 2 seconds");
}

#[test]
fn test_format_clock() {
    let duration = Duration::from_secs(3665);
    assert_eq!(format_clock(duration), "01:01:05");
}

#[test]
fn test_format_clock_no_hours() {
    let duration = Duration::from_secs(125);
    assert_eq!(format_clock(duration), "02:05");
}

#[test]
fn format_test_format_zero() {
    let duration = Duration::ZERO;
    assert_eq!(timekit::format::format(duration), "0s");
}

#[test]
fn format_test_format_precision_minutes() {
    let duration = Duration::from_secs(3665);
    let formatted = DurationFormatter::new()
        .precision(Precision::Minutes)
        .format(duration)
        .unwrap();
    assert_eq!(formatted, "1h 1m");
}

#[test]
fn test_format_milliseconds() {
    let duration = Duration::from_millis(1500);
    let formatted = DurationFormatter::new()
        .precision(Precision::Full)
        .format(duration)
        .unwrap();
    assert_eq!(formatted, "1s 500ms");
}
