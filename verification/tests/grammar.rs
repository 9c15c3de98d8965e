//! Tests of the grammar parser.

use std::time::Duration;
use timekit::parse::Parser;
use timekit::Error;

#[test]
fn test_parse_simple_hours() {
    let duration = Parser::new("2h").unwrap().parse().unwrap();
    assert_eq!(duration, Duration::from_secs(7200));
}

#[test]
fn test_parse_combined() {
    let duration = Parser::new("1h 30m 45s").unwrap().parse().unwrap();
    assert_eq!(duration, Duration::from_secs(5445));
}

#[test]
fn test_parse_no_spaces() {
    let duration = Parser::new("2h30m").unwrap().parse().unwrap();
    assert_eq!(duration, Duration::from_secs(9000));
}

#[test]
fn grammar_test_parse_milliseconds() {
    let duration = Parser::new("1500ms").unwrap().parse().unwrap();
    assert_eq!(duration, Duration::from_millis(1500));
}

#[test]
fn grammar_test_parse_clock_mm_ss() {
    let duration = Parser::new("01:30").unwrap().parse().unwrap();
    assert_eq!(duration, Duration::from_secs(90));
}

#[test]
fn grammar_test_parse_clock_hh_mm_ss() {
    let duration = Parser::new("02:30:45").unwrap().parse().unwrap();
    assert_eq!(duration, Duration::from_secs(9045));
}

#[test]
fn test_duplicate_unit() {
    let result = Parser::new("1h 2h").unwrap().parse();
    assert!(matches!(result, Err(Error::DuplicateUnit { .. })));
}

#[test]
fn test_empty_input() {
    let result = Parser::new("   ");
    assert!(matches!(result, Err(Error::EmptyInput)));
}

#[test]
fn test_invalid_clock_seconds() {
    let result = Parser::new("01:75").unwrap().parse();
    assert!(matches!(result, Err(Error::ValueOutOfRange { .. })));
}
