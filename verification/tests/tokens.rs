//! Tests of the tokenizer.

use timekit::parse::{Token, Tokenizer};
use timekit::Error;

#[test]
fn test_tokenize_simple() {
    let tokens = Tokenizer::new("1h 30m").tokenize().unwrap();
    assert_eq!(
        tokens,
        vec![
            Token::Number(1),
            Token::Unit("h".to_string()),
            Token::Number(30),
            Token::Unit("m".to_string()),
            Token::Eof,
        ]
    );
}

#[test]
fn test_tokenize_no_spaces() {
    let tokens = Tokenizer::new("2h30m45s").tokenize().unwrap();
    assert_eq!(
        tokens,
        vec![
            Token::Number(2),
            Token::Unit("h".to_string()),
            Token::Number(30),
            Token::Unit("m".to_string()),
            Token::Number(45),
            Token::Unit("s".to_string()),
            Token::Eof,
        ]
    );
}

#[test]
fn test_tokenize_clock_format() {
    let tokens = Tokenizer::new("01:30:45").tokenize().unwrap();
    assert_eq!(
        tokens,
        vec![
            Token::Number(1),
            Token::Colon,
            Token::Number(30),
            Token::Colon,
            Token::Number(45),
            Token::Eof,
        ]
    );
}

#[test]
fn test_invalid_character() {
    let result = Tokenizer::new("1h@30m").tokenize();
    assert!(matches!(result, Err(Error::InvalidCharacter { .. })));
}

#[test]
fn test_number_overflow() {
    let result = Tokenizer::new("999999999999999999999999h").tokenize();
    assert!(matches!(result, Err(Error::InvalidNumber { .. })));
}
