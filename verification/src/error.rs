//! Error types for parsing and formatting durations.

use vstd::prelude::*;

use crate::text::{dec, push_char, push_decimal};

verus! {

/// The error type of every fallible operation of the library.
#[derive(Debug, Clone, PartialEq, Eq)]
pub enum Error {
    /// The input string is empty or contains only whitespace.
    EmptyInput,
    /// Invalid character encountered during parsing.
    InvalidCharacter {
        /// The invalid character
        character: char,
        /// Position in the input string (0-indexed)
        position: usize,
    },
    /// Invalid time unit encountered.
    InvalidUnit {
        /// The invalid unit string
        unit: String,
        /// Position in the input string (0-indexed)
        position: usize,
    },
    /// Number parsing failed.
    InvalidNumber {
        /// The digits that failed to parse
        value: String,
        /// Position in the input string (0-indexed)
        position: usize,
        /// Why the digits do not form a number
        reason: String,
    },
    /// Duplicate time unit in the same expression.
    DuplicateUnit {
        /// The duplicated unit, as written
        unit: String,
    },
    /// Invalid clock format (MM:SS or HH:MM:SS expected).
    InvalidClockFormat {
        /// The malformed part
        input: String,
        /// Explanation of what's wrong
        reason: String,
    },
    /// Value out of valid range.
    ValueOutOfRange {
        /// The component that's out of range ("seconds" or "minutes")
        component: String,
        /// The actual value
        value: u64,
        /// The maximum allowed value
        max: u64,
    },
    /// Unexpected end of input while parsing.
    UnexpectedEndOfInput {
        /// What was expected
        expected: String,
    },
    /// The resulting duration would overflow.
    DurationOverflow,
    /// Invalid format string or formatting error.
    FormatError {
        /// Description of the formatting error
        message: String,
    },
}

/// A result whose error is an [`Error`].
pub type Result<T> = core::result::Result<T, Error>;

/// The mathematical content of an [`Error`]: its strings as character sequences.
pub enum ErrorView {
    EmptyInput,
    InvalidCharacter { character: char, position: nat },
    InvalidUnit { unit: Seq<char>, position: nat },
    InvalidNumber { value: Seq<char>, position: nat, reason: Seq<char> },
    DuplicateUnit { unit: Seq<char> },
    InvalidClockFormat { input: Seq<char>, reason: Seq<char> },
    ValueOutOfRange { component: Seq<char>, value: u64, max: u64 },
    UnexpectedEndOfInput { expected: Seq<char> },
    DurationOverflow,
    FormatError { message: Seq<char> },
}

impl View for Error {
    type V = ErrorView;

    open spec fn view(&self) -> ErrorView {
        match self {
            Error::EmptyInput => ErrorView::EmptyInput,
            Error::InvalidCharacter { character, position } => ErrorView::InvalidCharacter {
                character: *character,
                position: *position as nat,
            },
            Error::InvalidUnit { unit, position } => ErrorView::InvalidUnit {
                unit: unit@,
                position: *position as nat,
            },
            Error::InvalidNumber { value, position, reason } => ErrorView::InvalidNumber {
                value: value@,
                position: *position as nat,
                reason: reason@,
            },
            Error::DuplicateUnit { unit } => ErrorView::DuplicateUnit { unit: unit@ },
            Error::InvalidClockFormat { input, reason } => ErrorView::InvalidClockFormat {
                input: input@,
                reason: reason@,
            },
            Error::ValueOutOfRange { component, value, max } => ErrorView::ValueOutOfRange {
                component: component@,
                value: *value,
                max: *max,
            },
            Error::UnexpectedEndOfInput { expected } => ErrorView::UnexpectedEndOfInput {
                expected: expected@,
            },
            Error::DurationOverflow => ErrorView::DurationOverflow,
            Error::FormatError { message } => ErrorView::FormatError { message: message@ },
        }
    }
}

/// The error with its position, if it has one, moved `k` characters later.
pub open spec fn shift_position(e: ErrorView, k: nat) -> ErrorView {
    match e {
        ErrorView::InvalidCharacter { character, position } => ErrorView::InvalidCharacter {
            character,
            position: position + k,
        },
        ErrorView::InvalidUnit { unit, position } => ErrorView::InvalidUnit {
            unit,
            position: position + k,
        },
        ErrorView::InvalidNumber { value, position, reason } => ErrorView::InvalidNumber {
            value,
            position: position + k,
            reason,
        },
        other => other,
    }
}

/// The human-readable description of an error.
pub open spec fn describe(e: ErrorView) -> Seq<char> {
    match e {
        ErrorView::EmptyInput => "input is empty or contains only whitespace"@,
        ErrorView::InvalidCharacter { character, position } => "invalid character '"@ + seq![
            character,
        ] + "' at position "@ + dec(position),
        ErrorView::InvalidUnit { unit, position } => "invalid time unit '"@ + unit
            + "' at position "@ + dec(position),
        ErrorView::InvalidNumber { value, position, reason } => "invalid number '"@ + value
            + "' at position "@ + dec(position) + ": "@ + reason,
        ErrorView::DuplicateUnit { unit } => "duplicate time unit '"@ + unit + "'"@,
        ErrorView::InvalidClockFormat { input, reason } => "invalid clock format '"@ + input
            + "': "@ + reason,
        ErrorView::ValueOutOfRange { component, value, max } => component + " value "@ + dec(
            value as nat,
        ) + " exceeds maximum of "@ + dec(max as nat),
        ErrorView::UnexpectedEndOfInput { expected } => "unexpected end of input, expected "@
            + expected,
        ErrorView::DurationOverflow => "duration calculation would overflow"@,
        ErrorView::FormatError { message } => "format error: "@ + message,
    }
}

impl Error {
    /// The human-readable description of the error.
    pub fn to_string(&self) -> (s: String)
        ensures
            s@ == describe(self@),
    {
        let mut s = String::new();
        match self {
            Error::EmptyInput => {
                s.append("input is empty or contains only whitespace");
            },
            Error::InvalidCharacter { character, position } => {
                s.append("invalid character '");
                push_char(&mut s, *character);
                s.append("' at position ");
                push_decimal(&mut s, *position as u64);
            },
            Error::InvalidUnit { unit, position } => {
                s.append("invalid time unit '");
                s.append(unit.as_str());
                s.append("' at position ");
                push_decimal(&mut s, *position as u64);
            },
            Error::InvalidNumber { value, position, reason } => {
                s.append("invalid number '");
                s.append(value.as_str());
                s.append("' at position ");
                push_decimal(&mut s, *position as u64);
                s.append(": ");
                s.append(reason.as_str());
            },
            Error::DuplicateUnit { unit } => {
                s.append("duplicate time unit '");
                s.append(unit.as_str());
                s.append("'");
            },
            Error::InvalidClockFormat { input, reason } => {
                s.append("invalid clock format '");
                s.append(input.as_str());
                s.append("': ");
                s.append(reason.as_str());
            },
            Error::ValueOutOfRange { component, value, max } => {
                s.append(component.as_str());
                s.append(" value ");
                push_decimal(&mut s, *value);
                s.append(" exceeds maximum of ");
                push_decimal(&mut s, *max);
            },
            Error::UnexpectedEndOfInput { expected } => {
                s.append("unexpected end of input, expected ");
                s.append(expected.as_str());
            },
            Error::DurationOverflow => {
                s.append("duration calculation would overflow");
            },
            Error::FormatError { message } => {
                s.append("format error: ");
                s.append(message.as_str());
            },
        }
        proof {
            match self@ {
                ErrorView::InvalidCharacter { .. } => {
                    assert(s@ =~= describe(self@));
                },
                _ => {
                    assert(s@ =~= describe(self@));
                },
            }
        }
        s
    }
}

} // verus!
