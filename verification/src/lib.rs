//! Parsing and formatting of human-readable time durations.
//!
//! Strings such as `1h 30m`, `2h30m45s`, `500ms` or `01:30:00` are read into
//! a `std::time::Duration`, and durations are written back in a compact,
//! spaced, long or clock style.

pub mod duration;
pub mod error;
pub mod format;
pub mod parse;
pub mod roundtrip;
pub mod text;

pub use error::{Error, Result};

use std::time::Duration;
use vstd::prelude::*;

use crate::duration::subsec_nanos_of;
use crate::format::{duration_text, FormatStyle, Precision};
use crate::parse::grammar::{parse_spec, parsed_view};

verus! {

/// Parses a human-readable duration string into a `Duration`.
///
/// Both unit-based formats (e.g., `1h 30m`) and clock formats (e.g.,
/// `01:30:00`) are accepted; the result is exactly the one that
/// `parse_spec` gives, every error included.
pub fn parse(input: &str) -> (r: Result<Duration>)
    ensures
        parsed_view(r) == parse_spec(input@),
        r matches Ok(d) ==> subsec_nanos_of(d) < 1_000_000_000,
{
    match parse::Parser::new(input) {
        Ok(p) => p.parse(),
        Err(e) => Err(e),
    }
}

/// Formats a `Duration` into a human-readable string, in the spaced style
/// with seconds precision.
pub fn format_duration(duration: Duration) -> (s: String)
    ensures
        s@ == duration_text(duration, FormatStyle::Spaced, Precision::Seconds),
{
    format::format(duration)
}

} // verus!
