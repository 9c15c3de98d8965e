//! Further scenarios: the laws on concrete values, every error variant,
//! error messages, and the tokenizer step by step.

use std::time::Duration;
use timekit::error::Error;
use timekit::format::{DurationFormatter, FormatStyle, Precision};
use timekit::parse::grammar::{convert_to_duration, normalize_unit};
use timekit::parse::{Parser, Token, Tokenizer};
use timekit::{format_duration, parse};

fn formatter(style: FormatStyle, precision: Precision) -> DurationFormatter {
    DurationFormatter::new().style(style).precision(precision)
}

#[test]
fn roundtrip_full_precision_every_style() {
    let d = Duration::new(93784, 5_006_007);
    for style in [FormatStyle::Compact, FormatStyle::Spaced, FormatStyle::Long] {
        let text = formatter(style, Precision::Full).format(d).unwrap();
        assert_eq!(parse(&text).unwrap(), d, "text: {}", text);
    }
}

#[test]
fn roundtrip_lower_precisions_truncate() {
    let d = Duration::new(93784, 5_006_007);
    let seconds = formatter(FormatStyle::Spaced, Precision::Seconds).format(d).unwrap();
    assert_eq!(parse(&seconds).unwrap(), Duration::from_secs(93784));
    let minutes = formatter(FormatStyle::Long, Precision::Minutes).format(d).unwrap();
    assert_eq!(parse(&minutes).unwrap(), Duration::from_secs(93780));
    let hours = formatter(FormatStyle::Compact, Precision::Hours).format(d).unwrap();
    assert_eq!(parse(&hours).unwrap(), Duration::from_secs(93600));
}

#[test]
fn roundtrip_clock_keeps_whole_seconds() {
    for secs in [0u64, 59, 3599, 3600, 86399, 360000] {
        let d = Duration::new(secs, 123);
        let text = formatter(FormatStyle::Clock, Precision::Full).format(d).unwrap();
        assert_eq!(parse(&text).unwrap(), Duration::from_secs(secs), "text: {}", text);
    }
}

#[test]
fn roundtrip_zero_and_maximum() {
    assert_eq!(parse(&format_duration(Duration::ZERO)).unwrap(), Duration::ZERO);
    let max = Duration::new(u64::MAX, 999_999_999);
    let text = formatter(FormatStyle::Spaced, Precision::Full).format(max).unwrap();
    assert_eq!(parse(&text).unwrap(), max);
    let hours = formatter(FormatStyle::Spaced, Precision::Hours).format(Duration::from_secs(1800)).unwrap();
    assert_eq!(hours, "0s");
    assert_eq!(parse(&hours).unwrap(), Duration::ZERO);
}

#[test]
fn surrounding_whitespace_is_ignored() {
    assert_eq!(parse("\t 1h 30m \n").unwrap(), parse("1h 30m").unwrap());
    assert!(matches!(parse(" \t\r\n"), Err(Error::EmptyInput)));
    assert_eq!(parse("\u{3000}1h\u{00A0}").unwrap(), Duration::from_secs(3600));
}

#[test]
fn error_positions_count_in_the_input_as_given() {
    match parse("   1h@") {
        Err(Error::InvalidCharacter { character, position }) => {
            assert_eq!(character, '@');
            assert_eq!(position, 5);
        }
        other => panic!("unexpected {:?}", other),
    }
    assert_eq!(
        parse(" 1h@"),
        Err(Error::InvalidCharacter { character: '@', position: 3 })
    );
    assert_eq!(
        parse("1x"),
        Err(Error::InvalidUnit { unit: "x".to_string(), position: 1 })
    );
    assert_eq!(
        parse("\t1h 2x "),
        Err(Error::InvalidUnit { unit: "x".to_string(), position: 5 })
    );
    match parse("  99999999999999999999s") {
        Err(Error::InvalidNumber { position, .. }) => assert_eq!(position, 2),
        other => panic!("unexpected {:?}", other),
    }
}

#[test]
fn leading_whitespace_moves_error_positions() {
    let bare = parse("1h 3q");
    let padded = parse("  1h 3q\n");
    assert_eq!(bare, Err(Error::InvalidUnit { unit: "q".to_string(), position: 4 }));
    assert_eq!(padded, Err(Error::InvalidUnit { unit: "q".to_string(), position: 6 }));
    assert_eq!(parse("1h#"), Err(Error::InvalidCharacter { character: '#', position: 2 }));
    assert_eq!(parse("\u{3000}1h#"), Err(Error::InvalidCharacter { character: '#', position: 3 }));
}

#[test]
fn invalid_number_reports_digits_and_reason() {
    match parse("1h 99999999999999999999s") {
        Err(Error::InvalidNumber { value, position, reason }) => {
            assert_eq!(value, "99999999999999999999");
            assert_eq!(position, 3);
            assert_eq!(reason, "number too large to fit in target type");
        }
        other => panic!("unexpected {:?}", other),
    }
    assert_eq!(
        parse("18446744073709551615ns").unwrap(),
        Duration::from_nanos(u64::MAX)
    );
}

#[test]
fn invalid_unit_keeps_its_spelling() {
    match parse("5 Weeks") {
        Err(Error::InvalidUnit { unit, position }) => {
            assert_eq!(unit, "Weeks");
            assert_eq!(position, 2);
        }
        other => panic!("unexpected {:?}", other),
    }
    assert!(matches!(parse("3é"), Err(Error::InvalidUnit { .. })));
}

#[test]
fn duplicate_units_across_spellings() {
    match parse("1h 2HOURS") {
        Err(Error::DuplicateUnit { unit }) => assert_eq!(unit, "HOURS"),
        other => panic!("unexpected {:?}", other),
    }
    assert!(matches!(parse("1sec 1s"), Err(Error::DuplicateUnit { .. })));
    assert!(matches!(parse("1x 2X"), Err(Error::DuplicateUnit { .. })));
}

#[test]
fn unit_based_syntax_errors() {
    match parse("1h 30") {
        Err(Error::UnexpectedEndOfInput { expected }) => assert_eq!(expected, "time unit"),
        other => panic!("unexpected {:?}", other),
    }
    match parse("h 1") {
        Err(Error::InvalidClockFormat { input, reason }) => {
            assert_eq!(input, "unexpected token");
            assert_eq!(reason, "expected number");
        }
        other => panic!("unexpected {:?}", other),
    }
    assert!(matches!(parse("1 2h"), Err(Error::UnexpectedEndOfInput { .. })));
}

#[test]
fn clock_errors() {
    match parse("1:2:3:4") {
        Err(Error::InvalidClockFormat { input, reason }) => {
            assert_eq!(input, "4 parts");
            assert_eq!(reason, "expected MM:SS or HH:MM:SS format");
        }
        other => panic!("unexpected {:?}", other),
    }
    match parse("1:30h") {
        Err(Error::InvalidClockFormat { input, reason }) => {
            assert_eq!(input, "invalid token in clock format");
            assert_eq!(reason, "expected number or colon");
        }
        other => panic!("unexpected {:?}", other),
    }
    match parse("1:60:00") {
        Err(Error::ValueOutOfRange { component, value, max }) => {
            assert_eq!(component, "minutes");
            assert_eq!(value, 60);
            assert_eq!(max, 59);
        }
        other => panic!("unexpected {:?}", other),
    }
    match parse("1:00:61") {
        Err(Error::ValueOutOfRange { component, value, .. }) => {
            assert_eq!(component, "seconds");
            assert_eq!(value, 61);
        }
        other => panic!("unexpected {:?}", other),
    }
    assert_eq!(parse("100:00:00").unwrap(), Duration::from_secs(360000));
}

#[test]
fn clock_numbers_and_colons_must_alternate() {
    for input in ["1::30", ":1:30", "1:30:", "1:2::3"] {
        match parse(input) {
            Err(Error::InvalidClockFormat { input: part, reason }) => {
                assert_eq!(part, "missing number", "input: {}", input);
                assert_eq!(reason, "expected MM:SS or HH:MM:SS format");
            }
            other => panic!("unexpected {:?} for {}", other, input),
        }
    }
    match parse("1:2 3") {
        Err(Error::InvalidClockFormat { input, reason }) => {
            assert_eq!(input, "missing colon");
            assert_eq!(reason, "expected MM:SS or HH:MM:SS format");
        }
        other => panic!("unexpected {:?}", other),
    }
    assert_eq!(parse("1:30").unwrap(), Duration::from_secs(90));
    assert_eq!(parse(" 1 : 30 ").unwrap(), Duration::from_secs(90));
    for (input, count) in [(":", "0 parts"), (":1", "1 parts"), ("1 2 3 4:5", "5 parts"), ("1::", "1 parts")] {
        match parse(input) {
            Err(Error::InvalidClockFormat { input: part, reason }) => {
                assert_eq!(part, count, "input: {}", input);
                assert_eq!(reason, "expected MM:SS or HH:MM:SS format");
            }
            other => panic!("unexpected {:?} for {}", other, input),
        }
    }
    for input in ["1 2:3h", ":1h", "1h:30", "1::30m"] {
        match parse(input) {
            Err(Error::InvalidClockFormat { input: part, reason }) => {
                assert_eq!(part, "invalid token in clock format", "input: {}", input);
                assert_eq!(reason, "expected number or colon");
            }
            other => panic!("unexpected {:?} for {}", other, input),
        }
    }
    assert_eq!(parse("1:02:03").unwrap(), Duration::from_secs(3723));
}

#[test]
fn overflow_errors() {
    assert!(matches!(parse("18446744073709551615d"), Err(Error::DurationOverflow)));
    assert!(matches!(
        parse("18446744073709551615s 1m"),
        Err(Error::DurationOverflow)
    ));
    assert!(matches!(
        parse("18446744073709551615:00"),
        Err(Error::DurationOverflow)
    ));
    assert_eq!(
        parse("18446744073709551615s 999ms").unwrap(),
        Duration::new(u64::MAX, 999_000_000)
    );
    assert!(matches!(
        parse("18446744073709551615s 999ms 1000us"),
        Err(Error::DurationOverflow)
    ));
}

#[test]
fn overflow_is_found_after_earlier_conversions() {
    assert!(matches!(parse("1x 18446744073709551615d"), Err(Error::InvalidUnit { .. })));
    assert!(matches!(parse("18446744073709551615d 1x"), Err(Error::DurationOverflow)));
}

#[test]
fn error_messages() {
    assert_eq!(Error::EmptyInput.to_string(), "input is empty or contains only whitespace");
    assert_eq!(
        Error::InvalidCharacter { character: '@', position: 2 }.to_string(),
        "invalid character '@' at position 2"
    );
    assert_eq!(
        Error::InvalidUnit { unit: "x".to_string(), position: 0 }.to_string(),
        "invalid time unit 'x' at position 0"
    );
    assert_eq!(
        Error::InvalidNumber {
            value: "99".to_string(),
            position: 4,
            reason: "too big".to_string()
        }
        .to_string(),
        "invalid number '99' at position 4: too big"
    );
    assert_eq!(
        Error::DuplicateUnit { unit: "h".to_string() }.to_string(),
        "duplicate time unit 'h'"
    );
    assert_eq!(
        Error::InvalidClockFormat { input: "4 parts".to_string(), reason: "bad".to_string() }
            .to_string(),
        "invalid clock format '4 parts': bad"
    );
    assert_eq!(
        Error::ValueOutOfRange { component: "seconds".to_string(), value: 75, max: 59 }
            .to_string(),
        "seconds value 75 exceeds maximum of 59"
    );
    assert_eq!(
        Error::UnexpectedEndOfInput { expected: "time unit".to_string() }.to_string(),
        "unexpected end of input, expected time unit"
    );
    assert_eq!(Error::DurationOverflow.to_string(), "duration calculation would overflow");
    assert_eq!(
        Error::FormatError { message: "m".to_string() }.to_string(),
        "format error: m"
    );
}

#[test]
fn tokenizer_step_by_step() {
    let mut t = Tokenizer::new("  12min:");
    assert_eq!(t.position(), 0);
    assert_eq!(t.next_token().unwrap(), Token::Number(12));
    assert_eq!(t.position(), 4);
    assert_eq!(t.next_token().unwrap(), Token::Unit("min".to_string()));
    assert_eq!(t.position(), 7);
    assert_eq!(t.next_token().unwrap(), Token::Colon);
    assert_eq!(t.next_token().unwrap(), Token::Eof);
    assert_eq!(t.next_token().unwrap(), Token::Eof);
    assert_eq!(t.position(), 8);
}

#[test]
fn tokenizer_unicode_letters_and_whitespace() {
    let tokens = Tokenizer::new("3\u{2003}Ωmega").tokenize().unwrap();
    assert_eq!(
        tokens,
        vec![Token::Number(3), Token::Unit("Ωmega".to_string()), Token::Eof]
    );
    assert!(matches!(
        Tokenizer::new("1h\u{0663}").tokenize(),
        Err(Error::InvalidCharacter { position: 2, .. })
    ));
}

#[test]
fn parser_reports_tokenizer_errors() {
    assert!(matches!(Parser::new("1h!"), Err(Error::InvalidCharacter { .. })));
    assert!(matches!(Parser::new(""), Err(Error::EmptyInput)));
}

#[test]
fn formatter_builder_settings() {
    let d = Duration::new(3723, 456_789_123);
    assert_eq!(formatter(FormatStyle::Long, Precision::Full).format(d).unwrap(),
        "1 hour 2 minutes 3 seconds 456 milliseconds 789 microseconds 123 nanoseconds");
    assert_eq!(formatter(FormatStyle::Compact, Precision::Full).format(d).unwrap(),
        "1h2m3s456ms789us123ns");
    assert_eq!(DurationFormatter::default().format(d).unwrap(), "1h 2m 3s");
    assert_eq!(formatter(FormatStyle::Clock, Precision::Hours).format(d).unwrap(), "01:02:03");
}

#[test]
fn letter_case_changes_no_result() {
    assert_eq!(parse("1H 30MIN 5Sec").unwrap(), parse("1h 30min 5sec").unwrap());
    assert_eq!(parse("2DAYS").unwrap(), Duration::from_secs(172800));
    match parse("1HOUR 2H") {
        Err(Error::DuplicateUnit { unit }) => assert_eq!(unit, "H"),
        other => panic!("unexpected {:?}", other),
    }
    match parse("1hour 2h") {
        Err(Error::DuplicateUnit { unit }) => assert_eq!(unit, "h"),
        other => panic!("unexpected {:?}", other),
    }
}

#[test]
fn spellings_of_a_unit_stand_for_one_length() {
    let groups: [&[&str]; 7] = [
        &["ns", "nanosecond", "nanoseconds"],
        &["us", "microsecond", "microseconds"],
        &["ms", "millisecond", "milliseconds"],
        &["s", "sec", "second", "seconds"],
        &["m", "min", "minute", "minutes"],
        &["h", "hr", "hour", "hours"],
        &["d", "day", "days"],
    ];
    let lengths: Vec<Duration> = groups
        .iter()
        .map(|g| parse(&format!("1{}", g[0])).unwrap())
        .collect();
    for (i, group) in groups.iter().enumerate() {
        for spelling in group.iter() {
            assert_eq!(parse(&format!("1{}", spelling)).unwrap(), lengths[i], "{}", spelling);
            assert!(matches!(
                parse(&format!("1{} 2{}", group[0], spelling)),
                Err(Error::DuplicateUnit { .. })
            ));
        }
        for (j, other) in groups.iter().enumerate() {
            if i != j {
                assert_ne!(lengths[i], lengths[j]);
                assert!(parse(&format!("1{} 2{}", group[0], other[0])).is_ok());
            }
        }
    }
}

#[test]
fn finer_precision_only_appends() {
    let d = Duration::from_secs(86401);
    let hours = formatter(FormatStyle::Spaced, Precision::Hours).format(d).unwrap();
    let seconds = formatter(FormatStyle::Spaced, Precision::Seconds).format(d).unwrap();
    assert_eq!(hours, "1d");
    assert_eq!(seconds, "1d 1s");
    let d = Duration::new(93784, 5_006_007);
    let order = [Precision::Hours, Precision::Minutes, Precision::Seconds, Precision::Full];
    for style in [FormatStyle::Compact, FormatStyle::Spaced, FormatStyle::Long] {
        for i in 0..order.len() {
            for j in i..order.len() {
                let coarse = formatter(style, order[i]).format(d).unwrap();
                let fine = formatter(style, order[j]).format(d).unwrap();
                assert!(fine.starts_with(&coarse), "{} / {}", coarse, fine);
            }
        }
    }
    let short = Duration::from_secs(59);
    assert_eq!(formatter(FormatStyle::Spaced, Precision::Minutes).format(short).unwrap(), "0s");
    assert_eq!(formatter(FormatStyle::Spaced, Precision::Seconds).format(short).unwrap(), "59s");
}

#[test]
fn compact_is_spaced_without_spaces() {
    let samples = [
        Duration::ZERO,
        Duration::from_secs(3600),
        Duration::from_secs(5445),
        Duration::from_secs(90000),
        Duration::from_secs(93784),
        Duration::new(93784, 5_006_007),
        Duration::new(u64::MAX, 999_999_999),
    ];
    for d in samples {
        assert_eq!(
            timekit::format::format_compact(d),
            timekit::format::format(d).replace(' ', "")
        );
        for p in [Precision::Hours, Precision::Minutes, Precision::Seconds, Precision::Full] {
            let compact = formatter(FormatStyle::Compact, p).format(d).unwrap();
            let spaced = formatter(FormatStyle::Spaced, p).format(d).unwrap();
            assert_eq!(compact, spaced.replace(' ', ""));
        }
    }
}

#[test]
fn joined_expressions_add_their_lengths() {
    let pairs = [("1h", "30m"), ("30m", "1h"), ("2d 5s", "100ms 7us"), (" 1h ", "\t2m\n")];
    for (a, b) in pairs {
        let joined = parse(&format!("{} {}", a, b)).unwrap();
        assert_eq!(joined, parse(a).unwrap() + parse(b).unwrap());
    }
    assert_eq!(parse("30m 1h").unwrap(), parse("1h 30m").unwrap());
    assert!(matches!(
        parse(&format!("{} {}", "18446744073709551615s", "1000ms")),
        Err(Error::DurationOverflow)
    ));
    assert!(matches!(parse("1h 2hours"), Err(Error::DuplicateUnit { .. })));
}

#[test]
fn character_classes_agree_with_std() {
    for code in 0u32..=0x10FFFF {
        if let Some(c) = char::from_u32(code) {
            assert_eq!(timekit::text::char_is_ws(c), c.is_whitespace(), "{:?}", c);
            assert_eq!(timekit::text::char_is_alpha(c), c.is_alphabetic(), "{:?}", c);
            assert!(!(c.is_whitespace() && c.is_alphabetic()), "{:?}", c);
        }
    }
}

#[test]
fn joining_after_wide_whitespace() {
    assert_eq!(parse("1h\u{3000} 30m").unwrap(), Duration::from_secs(5400));
    assert_eq!(parse("2m\u{2003}\u{00A0} 1s").unwrap(), Duration::from_secs(121));
    assert!(matches!(parse("1h\u{3000}2x"), Err(Error::InvalidUnit { position: 4, .. })));
}

#[test]
fn unit_normalization_and_conversion() {
    assert_eq!(normalize_unit("HOURS"), "h");
    assert_eq!(normalize_unit("Sec"), "s");
    assert_eq!(normalize_unit("Weeks"), "weeks");
    assert_eq!(convert_to_duration(1, "Hr", 0), Ok((3600, 0)));
    assert_eq!(convert_to_duration(1500, "ms", 0), Ok((1, 500_000_000)));
    assert_eq!(convert_to_duration(7, "us", 0), Ok((0, 7000)));
    assert_eq!(
        convert_to_duration(2, "fortnight", 4),
        Err(Error::InvalidUnit { unit: "fortnight".to_string(), position: 4 })
    );
    assert_eq!(convert_to_duration(u64::MAX, "m", 0), Err(Error::DurationOverflow));
    let spellings = ["ns", "us", "ms", "s", "SEC", "minute", "Hours", "d", "DAYS", "hr"];
    for a in spellings {
        for b in spellings {
            let same_name = normalize_unit(a) == normalize_unit(b);
            let same_length = convert_to_duration(1, a, 0) == convert_to_duration(1, b, 0);
            assert_eq!(same_name, same_length, "{} {}", a, b);
        }
    }
}

#[test]
fn letter_case_with_wide_whitespace() {
    assert_eq!(parse("\u{3000}1HOUR\u{2003}30Min").unwrap(), parse("\u{3000}1hour\u{2003}30min").unwrap());
    assert_eq!(
        parse("1H\u{00A0}2Q"),
        Err(Error::InvalidUnit { unit: "Q".to_string(), position: 4 })
    );
    assert_eq!(
        parse("1h\u{00A0}2q"),
        Err(Error::InvalidUnit { unit: "q".to_string(), position: 4 })
    );
}
