//! Tests of the top-level API.

use std::time::Duration;
use timekit::{format_duration, parse, Error};

#[test]
fn test_parse_and_format_roundtrip() {
    let inputs = vec!["1h", "30m", "45s", "1h 30m", "2h 30m 45s"];

    for input in inputs {
        let duration = parse(input).unwrap();
        let formatted = format_duration(duration);
        let reparsed = parse(&formatted).unwrap();
        assert_eq!(duration, reparsed, "Roundtrip failed for: {}", input);
    }
}

#[test]
fn test_api_basic() {
    let duration = parse("1h 30m").unwrap();
    assert_eq!(duration.as_secs(), 5400);

    let formatted = format_duration(duration);
    assert_eq!(formatted, "1h 30m");
}

#[test]
fn test_error_types() {
    assert!(matches!(parse(""), Err(Error::EmptyInput)));
    assert!(matches!(parse("   "), Err(Error::EmptyInput)));
    assert!(matches!(parse("1x"), Err(Error::InvalidUnit { .. })));
    assert!(matches!(parse("1h 2h"), Err(Error::DuplicateUnit { .. })));
    assert!(matches!(parse("01:75"), Err(Error::ValueOutOfRange { .. })));
}

#[test]
fn test_readme_examples() {
    assert_eq!(parse("1h 30m").unwrap(), Duration::from_secs(5400));
    assert_eq!(parse("01:30:00").unwrap(), Duration::from_secs(5400));
    assert_eq!(parse("2h30m45s").unwrap(), Duration::from_secs(9045));
    assert_eq!(parse("01:30").unwrap(), Duration::from_secs(90));
    assert_eq!(format_duration(Duration::from_secs(3665)), "1h 1m 5s");
}
