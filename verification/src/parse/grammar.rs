//! Grammar parser for duration expressions.
//!
//! Two formats are accepted:
//!
//! 1. Unit-based: `1h 30m`, `2h30m45s`, `500ms`
//! 2. Clock format: `MM:SS` or `HH:MM:SS`

use std::time::Duration;
use vstd::prelude::*;

use crate::duration::{
    duration_new, max_total_nanos, nanos_per_sec, subsec_nanos_of, total_nanos,
};
use crate::error::{Error, ErrorView};
use crate::parse::tokens::{
    skip_ws, starts_view, token_starts, tokenize_spec,
    tokens_view, Token, TokenView, Tokenizer,
};
use crate::text::{
    char_is_ws, chars_equal, chars_of, dec, is_ws, lower, lowercase, push_decimal, same_chars,
    string_of,
};

verus! {

/// The length of `s` once trailing whitespace is removed.
pub open spec fn trim_end(s: Seq<char>) -> int
    decreases s.len(),
{
    if s.len() > 0 && is_ws(s.last()) {
        trim_end(s.drop_last())
    } else {
        s.len() as int
    }
}

/// Every character of `w` is whitespace.
pub open spec fn all_ws(w: Seq<char>) -> bool {
    forall|i: int| 0 <= i < w.len() ==> is_ws(#[trigger] w[i])
}

/// The token at index `i`; past the end, `Eof`.
pub open spec fn token_at(t: Seq<TokenView>, i: int) -> TokenView {
    if 0 <= i < t.len() {
        t[i]
    } else {
        TokenView::Eof
    }
}

/// Whether some token is a colon: the input is then read as a clock.
pub open spec fn has_colon(t: Seq<TokenView>) -> bool {
    exists|i: int| 0 <= i < t.len() && (#[trigger] t[i]) is Colon
}

pub open spec fn clock_token_error() -> ErrorView {
    ErrorView::InvalidClockFormat {
        input: "invalid token in clock format"@,
        reason: "expected number or colon"@,
    }
}

/// The error for a clock whose numbers and colons do not alternate.
pub open spec fn clock_shape_error(expect_number: bool) -> ErrorView {
    ErrorView::InvalidClockFormat {
        input: if expect_number {
            "missing number"@
        } else {
            "missing colon"@
        },
        reason: "expected MM:SS or HH:MM:SS format"@,
    }
}

/// The numbers of a clock from token `i` up to `Eof`: numbers and single
/// colons must alternate, starting and ending with a number.
/// `expect_number` tells whether a number or a colon comes next.
pub open spec fn clock_parts(t: Seq<TokenView>, i: nat, expect_number: bool) -> Result<
    Seq<u64>,
    ErrorView,
>
    decreases t.len() - i,
{
    if i >= t.len() {
        if expect_number {
            Err(clock_shape_error(true))
        } else {
            Ok(Seq::empty())
        }
    } else {
        match t[i as int] {
            TokenView::Number(n) => if expect_number {
                match clock_parts(t, i + 1, false) {
                    Ok(rest) => Ok(seq![n] + rest),
                    Err(e) => Err(e),
                }
            } else {
                Err(clock_shape_error(false))
            },
            TokenView::Colon => if expect_number {
                Err(clock_shape_error(true))
            } else {
                clock_parts(t, i + 1, true)
            },
            TokenView::Eof => if expect_number {
                Err(clock_shape_error(true))
            } else {
                Ok(Seq::empty())
            },
            TokenView::Unit(_) => Err(clock_token_error()),
        }
    }
}

pub open spec fn out_of_range(component: Seq<char>, value: u64) -> ErrorView {
    ErrorView::ValueOutOfRange { component, value, max: 59 }
}

/// The seconds that the numbers of a clock stand for: `MM:SS` or `HH:MM:SS`.
pub open spec fn clock_seconds(parts: Seq<u64>) -> Result<nat, ErrorView> {
    if parts.len() == 2 {
        let (m, s) = (parts[0], parts[1]);
        if s >= 60 {
            Err(out_of_range("seconds"@, s))
        } else if m * 60 + s > u64::MAX {
            Err(ErrorView::DurationOverflow)
        } else {
            Ok((m * 60 + s) as nat)
        }
    } else if parts.len() == 3 {
        let (h, m, s) = (parts[0], parts[1], parts[2]);
        if m >= 60 {
            Err(out_of_range("minutes"@, m))
        } else if s >= 60 {
            Err(out_of_range("seconds"@, s))
        } else if h * 3600 + m * 60 + s > u64::MAX {
            Err(ErrorView::DurationOverflow)
        } else {
            Ok((h * 3600 + m * 60 + s) as nat)
        }
    } else {
        Err(
            ErrorView::InvalidClockFormat {
                input: dec(parts.len()) + " parts"@,
                reason: "expected MM:SS or HH:MM:SS format"@,
            },
        )
    }
}

/// The numbers of a clock from token `i` up to `Eof`, colons passed over;
/// any other token is an error.
pub open spec fn clock_numbers(t: Seq<TokenView>, i: nat) -> Result<Seq<u64>, ErrorView>
    decreases t.len() - i,
{
    if i >= t.len() {
        Ok(Seq::empty())
    } else {
        match t[i as int] {
            TokenView::Number(n) => match clock_numbers(t, i + 1) {
                Ok(rest) => Ok(seq![n] + rest),
                Err(e) => Err(e),
            },
            TokenView::Colon => clock_numbers(t, i + 1),
            TokenView::Eof => Ok(Seq::empty()),
            TokenView::Unit(_) => Err(clock_token_error()),
        }
    }
}

/// The duration, in nanoseconds, of a clock read from token `i` on. A token
/// other than a number or a colon is an error; so is a count of numbers
/// other than two or three; with two or three numbers, numbers and single
/// colons must alternate.
pub open spec fn clock_spec(t: Seq<TokenView>, i: nat) -> Result<nat, ErrorView> {
    match clock_numbers(t, i) {
        Err(e) => Err(e),
        Ok(parts) => if (parts.len() == 2 || parts.len() == 3) && clock_parts(t, i, true) is Err {
            Err(clock_parts(t, i, true)->Err_0)
        } else {
            match clock_seconds(parts) {
                Ok(secs) => Ok(secs * nanos_per_sec()),
                Err(e) => Err(e),
            }
        },
    }
}

/// The error of a clock's shape, if it has one.
pub open spec fn shape_fault(r: Result<Seq<u64>, ErrorView>) -> Option<ErrorView> {
    match r {
        Ok(_) => None,
        Err(e) => Some(e),
    }
}

/// The kinds of time unit.
pub enum UnitKind {
    Nanos,
    Micros,
    Millis,
    Secs,
    Mins,
    Hours,
    Days,
}

/// The kind of a lowercase unit name, if it names one.
pub open spec fn unit_kind(l: Seq<char>) -> Option<UnitKind> {
    if l == "ns"@ || l == "nanosecond"@ || l == "nanoseconds"@ {
        Some(UnitKind::Nanos)
    } else if l == "us"@ || l == "microsecond"@ || l == "microseconds"@ {
        Some(UnitKind::Micros)
    } else if l == "ms"@ || l == "millisecond"@ || l == "milliseconds"@ {
        Some(UnitKind::Millis)
    } else if l == "s"@ || l == "sec"@ || l == "second"@ || l == "seconds"@ {
        Some(UnitKind::Secs)
    } else if l == "m"@ || l == "min"@ || l == "minute"@ || l == "minutes"@ {
        Some(UnitKind::Mins)
    } else if l == "h"@ || l == "hr"@ || l == "hour"@ || l == "hours"@ {
        Some(UnitKind::Hours)
    } else if l == "d"@ || l == "day"@ || l == "days"@ {
        Some(UnitKind::Days)
    } else {
        None
    }
}

/// The short name that stands for every spelling of a unit.
pub open spec fn canonical(k: UnitKind) -> Seq<char> {
    match k {
        UnitKind::Nanos => "ns"@,
        UnitKind::Micros => "us"@,
        UnitKind::Millis => "ms"@,
        UnitKind::Secs => "s"@,
        UnitKind::Mins => "m"@,
        UnitKind::Hours => "h"@,
        UnitKind::Days => "d"@,
    }
}

/// The form under which two spellings of a unit count as the same unit.
pub open spec fn normalize_spec(u: Seq<char>) -> Seq<char> {
    match unit_kind(lower(u)) {
        Some(k) => canonical(k),
        None => lower(u),
    }
}

/// Distinct kinds of unit have distinct short names.
pub proof fn lemma_canonical_distinct(k1: UnitKind, k2: UnitKind)
    requires
        k1 != k2,
    ensures
        canonical(k1) != canonical(k2),
{
    lemma_canonical_chars(k1);
    lemma_canonical_chars(k2);
    if canonical(k1) == canonical(k2) {
        assert(canonical(k1).len() == canonical(k2).len());
        assert(canonical(k1)[0] == canonical(k2)[0]);
        assert(k1 == k2);
    }
}

proof fn lemma_canonical_chars(k: UnitKind)
    ensures
        canonical(k) == match k {
            UnitKind::Nanos => seq!['n', 's'],
            UnitKind::Micros => seq!['u', 's'],
            UnitKind::Millis => seq!['m', 's'],
            UnitKind::Secs => seq!['s'],
            UnitKind::Mins => seq!['m'],
            UnitKind::Hours => seq!['h'],
            UnitKind::Days => seq!['d'],
        },
{
    match k {
        UnitKind::Nanos => reveal_strlit("ns"),
        UnitKind::Micros => reveal_strlit("us"),
        UnitKind::Millis => reveal_strlit("ms"),
        UnitKind::Secs => reveal_strlit("s"),
        UnitKind::Mins => reveal_strlit("m"),
        UnitKind::Hours => reveal_strlit("h"),
        UnitKind::Days => reveal_strlit("d"),
    }
}

/// The length in nanoseconds of `v` units of the given kind.
pub open spec fn kind_nanos(k: UnitKind, v: nat) -> nat {
    match k {
        UnitKind::Nanos => v,
        UnitKind::Micros => v * 1000,
        UnitKind::Millis => v * 1_000_000,
        UnitKind::Secs => v * nanos_per_sec(),
        UnitKind::Mins => v * 60 * nanos_per_sec(),
        UnitKind::Hours => v * 3600 * nanos_per_sec(),
        UnitKind::Days => v * 86400 * nanos_per_sec(),
    }
}

/// The seconds per unit of a kind whose count is first turned into seconds.
pub open spec fn secs_per_unit(k: UnitKind) -> nat {
    match k {
        UnitKind::Mins => 60,
        UnitKind::Hours => 3600,
        UnitKind::Days => 86400,
        _ => 1,
    }
}

/// The duration, in nanoseconds, of one component `v u` whose unit starts at `pos`.
pub open spec fn component_nanos(v: u64, u: Seq<char>, pos: int) -> Result<nat, ErrorView> {
    match unit_kind(lower(u)) {
        None => Err(ErrorView::InvalidUnit { unit: u, position: pos as nat }),
        Some(k) => if v * secs_per_unit(k) > u64::MAX {
            Err(ErrorView::DurationOverflow)
        } else {
            Ok(kind_nanos(k, v as nat))
        },
    }
}

/// Two spellings of units normalize alike exactly when one of each stands
/// for the same length of time.
pub proof fn law_spellings_alike_by_length(a: Seq<char>, b: Seq<char>, pa: int, pb: int)
    requires
        component_nanos(1, a, pa) is Ok,
        component_nanos(1, b, pb) is Ok,
    ensures
        normalize_spec(a) == normalize_spec(b) <==> component_nanos(1, a, pa) == component_nanos(
            1,
            b,
            pb,
        ),
{
    let ka = unit_kind(lower(a))->Some_0;
    let kb = unit_kind(lower(b))->Some_0;
    if ka != kb {
        lemma_canonical_distinct(ka, kb);
        assert(kind_nanos(ka, 1) != kind_nanos(kb, 1));
    }
}

pub open spec fn missing_unit_error() -> ErrorView {
    ErrorView::UnexpectedEndOfInput { expected: "time unit"@ }
}

pub open spec fn unexpected_token_error() -> ErrorView {
    ErrorView::InvalidClockFormat { input: "unexpected token"@, reason: "expected number"@ }
}

/// The start of token `i`; past the known starts, 0.
pub open spec fn start_at(st: Seq<int>, i: int) -> int {
    if 0 <= i < st.len() {
        st[i]
    } else {
        0
    }
}

/// The components `(value, unit, where the unit starts)` from token `i` on,
/// given the normalized units already seen; a unit seen twice is an error.
pub open spec fn scan_units(t: Seq<TokenView>, st: Seq<int>, i: nat, seen: Seq<Seq<char>>) -> Result<
    Seq<(u64, Seq<char>, int)>,
    ErrorView,
>
    decreases t.len() - i,
{
    if i >= t.len() {
        Ok(Seq::empty())
    } else {
        match t[i as int] {
            TokenView::Number(v) => match token_at(t, i + 1int) {
                TokenView::Unit(u) => if seen.contains(normalize_spec(u)) {
                    Err(ErrorView::DuplicateUnit { unit: u })
                } else {
                    match scan_units(t, st, i + 2, seen.push(normalize_spec(u))) {
                        Ok(rest) => Ok(seq![(v, u, start_at(st, i + 1int))] + rest),
                        Err(e) => Err(e),
                    }
                },
                _ => Err(missing_unit_error()),
            },
            TokenView::Eof => Ok(Seq::empty()),
            _ => Err(unexpected_token_error()),
        }
    }
}

/// Adds up the components from `i` on to `acc`, in order, failing on the
/// first component that fails or on the first sum beyond the longest duration.
pub open spec fn sum_from(cs: Seq<(u64, Seq<char>, int)>, i: nat, acc: nat) -> Result<
    nat,
    ErrorView,
>
    decreases cs.len() - i,
{
    if i >= cs.len() {
        Ok(acc)
    } else {
        match component_nanos(cs[i as int].0, cs[i as int].1, cs[i as int].2) {
            Err(e) => Err(e),
            Ok(n) => if acc + n > max_total_nanos() {
                Err(ErrorView::DurationOverflow)
            } else {
                sum_from(cs, i + 1, acc + n)
            },
        }
    }
}

/// The duration, in nanoseconds, of a unit-based expression read from token
/// `i` on; `st` holds where each token starts.
pub open spec fn unit_based_spec(t: Seq<TokenView>, st: Seq<int>, i: nat) -> Result<
    nat,
    ErrorView,
> {
    match scan_units(t, st, i, Seq::empty()) {
        Err(e) => Err(e),
        Ok(cs) => if cs.len() == 0 {
            Err(ErrorView::EmptyInput)
        } else {
            sum_from(cs, 0, 0)
        },
    }
}

/// The duration, in nanoseconds, that the tokens from `i` on stand for;
/// `st` holds where each token starts.
pub open spec fn parse_tokens_spec(t: Seq<TokenView>, st: Seq<int>, i: nat) -> Result<
    nat,
    ErrorView,
> {
    if has_colon(t) {
        clock_spec(t, i)
    } else {
        unit_based_spec(t, st, i)
    }
}

pub proof fn lemma_trim_end_bounds(s: Seq<char>)
    ensures
        0 <= trim_end(s) <= s.len(),
    decreases s.len(),
{
    if s.len() > 0 {
        lemma_trim_end_bounds(s.drop_last());
    }
}

/// The part of `s` that is read: up to its last non-whitespace character.
pub open spec fn content(s: Seq<char>) -> Seq<char> {
    s.take(trim_end(s))
}

/// The duration, in nanoseconds, that a string stands for. Tokens are read
/// between the first and the last character that is no whitespace, and
/// every position is counted in `s` itself.
pub open spec fn parse_spec(s: Seq<char>) -> Result<nat, ErrorView> {
    let a = skip_ws(s, 0);
    if a >= trim_end(s) {
        Err(ErrorView::EmptyInput)
    } else {
        match tokenize_spec(content(s), a) {
            Err(e) => Err(e),
            Ok(t) => parse_tokens_spec(t, token_starts(content(s), a), 0),
        }
    }
}

/// A parsed duration by its length in nanoseconds, or the error's view.
pub open spec fn parsed_view(r: Result<Duration, Error>) -> Result<nat, ErrorView> {
    match r {
        Ok(d) => Ok(total_nanos(d)),
        Err(e) => Err(e@),
    }
}

/// The characters of `input` up to its last non-whitespace character, and
/// where its first non-whitespace character stands.
fn content_chars(input: &str) -> (r: (Vec<char>, usize))
    ensures
        r.0@ == content(input@),
        r.0@.len() == trim_end(input@),
        r.1 == skip_ws(input@, 0),
{
    proof {
        lemma_trim_end_bounds(input@);
    }
    let c = chars_of(input);
    let n = c.len();
    let mut a: usize = 0;
    while a < n && char_is_ws(c[a])
        invariant
            a <= n == c.len(),
            skip_ws(c@, a as int) == skip_ws(c@, 0),
        decreases n - a,
    {
        a = a + 1;
    }
    let mut b: usize = n;
    assert(c@.take(n as int) =~= c@);
    while b > 0 && char_is_ws(c[b - 1])
        invariant
            b <= n == c.len(),
            trim_end(c@.take(b as int)) == trim_end(c@),
        decreases b,
    {
        assert(c@.take(b as int).drop_last() =~= c@.take(b - 1));
        b = b - 1;
    }
    let mut v: Vec<char> = Vec::new();
    let mut i: usize = 0;
    while i < b
        invariant
            i <= b <= n == c.len(),
            v@ == c@.take(i as int),
        decreases b - i,
    {
        v.push(c[i]);
        i = i + 1;
        assert(v@ =~= c@.take(i as int));
    }
    (v, a)
}

/// The kind of a lowercase unit name.
fn unit_kind_of(l: &Vec<char>) -> (k: Option<UnitKind>)
    ensures
        k == unit_kind(l@),
{
    if chars_equal(l, "ns") || chars_equal(l, "nanosecond") || chars_equal(l, "nanoseconds") {
        Some(UnitKind::Nanos)
    } else if chars_equal(l, "us") || chars_equal(l, "microsecond") || chars_equal(
        l,
        "microseconds",
    ) {
        Some(UnitKind::Micros)
    } else if chars_equal(l, "ms") || chars_equal(l, "millisecond") || chars_equal(
        l,
        "milliseconds",
    ) {
        Some(UnitKind::Millis)
    } else if chars_equal(l, "s") || chars_equal(l, "sec") || chars_equal(l, "second")
        || chars_equal(l, "seconds") {
        Some(UnitKind::Secs)
    } else if chars_equal(l, "m") || chars_equal(l, "min") || chars_equal(l, "minute")
        || chars_equal(l, "minutes") {
        Some(UnitKind::Mins)
    } else if chars_equal(l, "h") || chars_equal(l, "hr") || chars_equal(l, "hour")
        || chars_equal(l, "hours") {
        Some(UnitKind::Hours)
    } else if chars_equal(l, "d") || chars_equal(l, "day") || chars_equal(l, "days") {
        Some(UnitKind::Days)
    } else {
        None
    }
}

fn canonical_name(k: &UnitKind) -> (s: &'static str)
    ensures
        s@ == canonical(*k),
{
    match k {
        UnitKind::Nanos => "ns",
        UnitKind::Micros => "us",
        UnitKind::Millis => "ms",
        UnitKind::Secs => "s",
        UnitKind::Mins => "m",
        UnitKind::Hours => "h",
        UnitKind::Days => "d",
    }
}

/// Normalizes a unit string to its canonical form.
pub fn normalize_unit(unit: &str) -> (r: String)
    ensures
        r@ == normalize_spec(unit@),
{
    let l = lowercase(unit);
    match unit_kind_of(&l) {
        Some(k) => String::from_str(canonical_name(&k)),
        None => string_of(&l, 0, l.len()),
    }
}

/// Converts a value and unit to whole seconds and nanoseconds.
pub fn convert_to_duration(value: u64, unit: &str, position: usize) -> (r: Result<(u64, u32), Error>)
    ensures
        match component_nanos(value, unit@, position as int) {
            Ok(n) => r matches Ok(p) && p.1 < 1_000_000_000 && (p.0 as nat) * nanos_per_sec()
                + (p.1 as nat) == n,
            Err(e) => r matches Err(err) && err@ == e,
        },
{
    let l = lowercase(unit);
    match unit_kind_of(&l) {
        Some(UnitKind::Nanos) => {
            let secs = value / 1_000_000_000;
            let nanos = (value % 1_000_000_000) as u32;
            Ok((secs, nanos))
        },
        Some(UnitKind::Micros) => {
            let secs = value / 1_000_000;
            let nanos = ((value % 1_000_000) * 1000) as u32;
            Ok((secs, nanos))
        },
        Some(UnitKind::Millis) => {
            let secs = value / 1000;
            let nanos = ((value % 1000) * 1_000_000) as u32;
            Ok((secs, nanos))
        },
        Some(UnitKind::Secs) => Ok((value, 0)),
        Some(UnitKind::Mins) => match value.checked_mul(60) {
            Some(secs) => Ok((secs, 0)),
            None => Err(Error::DurationOverflow),
        },
        Some(UnitKind::Hours) => match value.checked_mul(3600) {
            Some(secs) => Ok((secs, 0)),
            None => Err(Error::DurationOverflow),
        },
        Some(UnitKind::Days) => match value.checked_mul(86400) {
            Some(secs) => Ok((secs, 0)),
            None => Err(Error::DurationOverflow),
        },
        None => Err(Error::InvalidUnit { unit: String::from_str(unit), position }),
    }
}

/// Adds two lengths given as whole seconds and nanoseconds, unless the sum
/// exceeds the longest duration.
fn add_lengths(a: (u64, u32), b: (u64, u32)) -> (r: Option<(u64, u32)>)
    requires
        a.1 < 1_000_000_000,
        b.1 < 1_000_000_000,
    ensures
        ({
            let sum = (a.0 as nat) * nanos_per_sec() + (a.1 as nat) + (b.0 as nat)
                * nanos_per_sec() + (b.1 as nat);
            &&& sum > max_total_nanos() ==> r is None
            &&& sum <= max_total_nanos() ==> (r matches Some(c) && c.1 < 1_000_000_000 && (
            c.0 as nat) * nanos_per_sec() + (c.1 as nat) == sum)
        }),
{
    let secs = match a.0.checked_add(b.0) {
        Some(s) => s,
        None => {
            assert((a.0 as nat) * nanos_per_sec() + (b.0 as nat) * nanos_per_sec() >= ((
            u64::MAX as nat) + 1) * nanos_per_sec()) by (nonlinear_arith)
                requires
                    a.0 + b.0 > u64::MAX,
            ;
            return None;
        },
    };
    let nanos = a.1 + b.1;
    if nanos >= 1_000_000_000 {
        match secs.checked_add(1) {
            Some(s) => {
                assert((a.0 as nat) * nanos_per_sec() + (b.0 as nat) * nanos_per_sec() == (
                secs as nat) * nanos_per_sec()) by (nonlinear_arith)
                    requires
                        secs == a.0 + b.0,
                ;
                assert((s as nat) * nanos_per_sec() <= max_total_nanos()) by (nonlinear_arith)
                    requires
                        s <= u64::MAX,
                ;
                Some((s, nanos - 1_000_000_000))
            },
            None => {
                assert((a.0 as nat) * nanos_per_sec() + (b.0 as nat) * nanos_per_sec() == (
                u64::MAX as nat) * nanos_per_sec()) by (nonlinear_arith)
                    requires
                        a.0 + b.0 == u64::MAX,
                ;
                None
            },
        }
    } else {
        assert((a.0 as nat) * nanos_per_sec() + (b.0 as nat) * nanos_per_sec() == (
        secs as nat) * nanos_per_sec()) by (nonlinear_arith)
            requires
                secs == a.0 + b.0,
        ;
        assert((secs as nat) * nanos_per_sec() <= (u64::MAX as nat) * nanos_per_sec())
            by (nonlinear_arith)
            requires
                secs <= u64::MAX,
        ;
        Some((secs, nanos))
    }
}

/// Whether `x` is one of the character vectors of `list`.
fn contains_chars(list: &Vec<Vec<char>>, x: &Vec<char>) -> (b: bool)
    ensures
        b == list@.map_values(|v: Vec<char>| v@).contains(x@),
{
    let ghost views = list@.map_values(|v: Vec<char>| v@);
    let mut k: usize = 0;
    while k < list.len()
        invariant
            k <= list.len(),
            views == list@.map_values(|v: Vec<char>| v@),
            forall|j: int| 0 <= j < k ==> views[j] != x@,
        decreases list.len() - k,
    {
        if same_chars(&list[k], x) {
            assert(views[k as int] == x@);
            return true;
        }
        k = k + 1;
    }
    false
}

/// The error for a token in a clock that is neither a number nor a colon.
fn clock_token_err() -> (e: Error)
    ensures
        e@ == clock_token_error(),
{
    Error::InvalidClockFormat {
        input: String::from_str("invalid token in clock format"),
        reason: String::from_str("expected number or colon"),
    }
}

/// The error for a clock whose numbers and colons do not alternate.
fn shape_error(expect_number: bool) -> (e: Error)
    ensures
        e@ == clock_shape_error(expect_number),
{
    Error::InvalidClockFormat {
        input: String::from_str(
            if expect_number {
                "missing number"
            } else {
                "missing colon"
            },
        ),
        reason: String::from_str("expected MM:SS or HH:MM:SS format"),
    }
}

/// A duration component with its value, its unit and where the unit starts.
struct Component {
    value: u64,
    unit: String,
    position: usize,
}

spec fn components_view(v: Seq<Component>) -> Seq<(u64, Seq<char>, int)> {
    v.map_values(|c: Component| (c.value, c.unit@, c.position as int))
}

/// Parser for duration expressions.
pub struct Parser {
    tokens: Vec<Token>,
    starts: Vec<usize>,
    position: usize,
}

impl Parser {
    #[verifier::type_invariant]
    spec fn position_in_tokens(self) -> bool {
        self.position <= self.tokens.len()
    }

    /// The tokens of the input.
    pub closed spec fn tokens(self) -> Seq<TokenView> {
        tokens_view(self.tokens@)
    }

    /// The index of the next token to read.
    pub closed spec fn pos(self) -> nat {
        self.position as nat
    }

    /// Where each token starts in the input.
    pub closed spec fn starts(self) -> Seq<int> {
        starts_view(self.starts@)
    }

    /// Where token `i` starts in the input.
    fn start_of(&self, i: usize) -> (p: usize)
        ensures
            p as int == start_at(self.starts(), i as int),
    {
        if i < self.starts.len() {
            self.starts[i]
        } else {
            0
        }
    }

    /// Peeks at the current token; past the last token there is none, which
    /// reads as `Eof`.
    fn peek(&self) -> (t: Option<&Token>)
        ensures
            self.pos() < self.tokens().len() ==> (t matches Some(x) && x@ == self.tokens()[self.pos() as int]),
            self.pos() >= self.tokens().len() ==> t is None,
    {
        if self.position < self.tokens.len() {
            Some(&self.tokens[self.position])
        } else {
            None
        }
    }

    /// Consumes the current token.
    fn advance(&mut self)
        requires
            old(self).pos() < old(self).tokens().len(),
        ensures
            final(self).tokens() == old(self).tokens(),
            final(self).starts() == old(self).starts(),
            final(self).pos() == old(self).pos() + 1,
    {
        assert(self.tokens().len() == self.tokens@.len());
        let n = self.tokens.len();
        assert(self.position < n);
        self.position = self.position + 1;
    }

    /// Creates a new parser from an input string: the input must hold a
    /// character that is no whitespace, and the part from the first to the
    /// last such character must tokenize. Positions are counted in `input`.
    pub fn new(input: &str) -> (r: Result<Self, Error>)
        ensures
            skip_ws(input@, 0) >= trim_end(input@) ==> (r matches Err(e) && e@
                == ErrorView::EmptyInput),
            skip_ws(input@, 0) < trim_end(input@) ==> match tokenize_spec(
                content(input@),
                skip_ws(input@, 0),
            ) {
                Ok(t) => r matches Ok(p) && p.tokens() == t && p.pos() == 0 && p.starts()
                    == token_starts(content(input@), skip_ws(input@, 0)),
                Err(e) => r matches Err(err) && err@ == e,
            },
    {
        let (chars, start) = content_chars(input);
        if start >= chars.len() {
            return Err(Error::EmptyInput);
        }
        match Tokenizer::from_chars_at(chars, start).tokenize_located() {
            Ok((tokens, starts)) => Ok(Parser { tokens, starts, position: 0 }),
            Err(e) => Err(e),
        }
    }

    /// Checks if the input looks like clock format (contains colons).
    fn is_clock_format(&self) -> (b: bool)
        ensures
            b == has_colon(self.tokens()),
    {
        let mut i: usize = 0;
        while i < self.tokens.len()
            invariant
                i <= self.tokens.len(),
                forall|j: int| 0 <= j < i ==> !(#[trigger] self.tokens()[j] is Colon),
            decreases self.tokens.len() - i,
        {
            match &self.tokens[i] {
                Token::Colon => {
                    assert(self.tokens()[i as int] is Colon);
                    return true;
                },
                _ => {},
            }
            i = i + 1;
        }
        false
    }

    /// Checks that numbers and single colons alternate from token `start` up
    /// to `Eof`, starting and ending with a number.
    fn check_clock_shape(&self, start: usize) -> (r: Result<(), Error>)
        requires
            start <= self.tokens().len(),
        ensures
            match clock_parts(self.tokens(), start as nat, true) {
                Ok(_) => r is Ok,
                Err(e) => r matches Err(err) && err@ == e,
            },
    {
        let ghost t = self.tokens();
        let n = self.tokens.len();
        let mut i = start;
        let mut expect_number = true;
        while i < n
            invariant
                t == self.tokens(),
                n == self.tokens@.len(),
                n == t.len(),
                start <= i <= n,
                shape_fault(clock_parts(t, start as nat, true)) == shape_fault(
                    clock_parts(t, i as nat, expect_number),
                ),
            decreases n - i,
        {
            assert(t[i as int] == self.tokens@[i as int]@);
            match &self.tokens[i] {
                Token::Number(_) => {
                    if !expect_number {
                        return Err(shape_error(false));
                    }
                    expect_number = false;
                },
                Token::Colon => {
                    if expect_number {
                        return Err(shape_error(true));
                    }
                    expect_number = true;
                },
                Token::Eof => {
                    if expect_number {
                        return Err(shape_error(true));
                    }
                    return Ok(());
                },
                Token::Unit(_) => {
                    return Err(clock_token_err());
                },
            }
            i = i + 1;
        }
        if expect_number {
            Err(shape_error(true))
        } else {
            Ok(())
        }
    }

    /// Parses a clock format string (MM:SS or HH:MM:SS).
    fn parse_clock_format(&mut self) -> (r: Result<Duration, Error>)
        ensures
            parsed_view(r) == clock_spec(old(self).tokens(), old(self).pos()),
            r matches Ok(d) ==> subsec_nanos_of(d) < 1_000_000_000,
    {
        proof {
            use_type_invariant(&*self);
        }
        let ghost t = self.tokens();
        let ghost p0 = self.pos();
        let start = self.position;
        let mut parts: Vec<u64> = Vec::new();
        loop
            invariant_except_break
                self.tokens() == t,
                t == old(self).tokens(),
                p0 == old(self).pos(),
                start == p0,
                self.position <= self.tokens.len(),
                clock_numbers(t, p0) == match clock_numbers(t, self.pos()) {
                    Ok(rest) => Ok(parts@ + rest),
                    Err(e) => Err::<Seq<u64>, ErrorView>(e),
                },
            ensures
                self.tokens() == t,
                t == old(self).tokens(),
                p0 == old(self).pos(),
                start == p0,
                clock_numbers(t, p0) == Ok::<Seq<u64>, ErrorView>(parts@),
            decreases self.tokens.len() - self.position,
        {
            match self.peek() {
                Some(Token::Number(n)) => {
                    let value = *n;
                    let ghost old_parts = parts@;
                    parts.push(value);
                    self.advance();
                    proof {
                        match clock_numbers(t, self.pos()) {
                            Ok(rest) => {
                                assert(old_parts + (seq![value] + rest) =~= parts@ + rest);
                            },
                            Err(_) => {},
                        }
                    }
                },
                Some(Token::Colon) => {
                    self.advance();
                },
                Some(Token::Unit(_)) => {
                    return Err(clock_token_err());
                },
                _ => {
                    assert(parts@ + Seq::<u64>::empty() =~= parts@);
                    break;
                },
            }
        }
        if parts.len() == 2 || parts.len() == 3 {
            proof {
                use_type_invariant(&*self);
            }
            match self.check_clock_shape(start) {
                Err(e) => {
                    return Err(e);
                },
                Ok(()) => {},
            }
        }
        if parts.len() == 2 {
            let minutes = parts[0];
            let seconds = parts[1];
            if seconds >= 60 {
                return Err(
                    Error::ValueOutOfRange {
                        component: String::from_str("seconds"),
                        value: seconds,
                        max: 59,
                    },
                );
            }
            let total = match minutes.checked_mul(60) {
                Some(m) => m.checked_add(seconds),
                None => None,
            };
            match total {
                Some(secs) => {
                    let d = duration_new(secs, 0);
                    Ok(d)
                },
                None => Err(Error::DurationOverflow),
            }
        } else if parts.len() == 3 {
            let hours = parts[0];
            let minutes = parts[1];
            let seconds = parts[2];
            if minutes >= 60 {
                return Err(
                    Error::ValueOutOfRange {
                        component: String::from_str("minutes"),
                        value: minutes,
                        max: 59,
                    },
                );
            }
            if seconds >= 60 {
                return Err(
                    Error::ValueOutOfRange {
                        component: String::from_str("seconds"),
                        value: seconds,
                        max: 59,
                    },
                );
            }
            let total = match hours.checked_mul(3600) {
                Some(h) => match h.checked_add(minutes * 60) {
                    Some(hm) => hm.checked_add(seconds),
                    None => None,
                },
                None => None,
            };
            match total {
                Some(secs) => Ok(duration_new(secs, 0)),
                None => Err(Error::DurationOverflow),
            }
        } else {
            let mut input = String::new();
            push_decimal(&mut input, parts.len() as u64);
            input.append(" parts");
            Err(
                Error::InvalidClockFormat {
                    input,
                    reason: String::from_str("expected MM:SS or HH:MM:SS format"),
                },
            )
        }
    }

    /// Parses a unit-based duration string.
    fn parse_unit_based(&mut self) -> (r: Result<Duration, Error>)
        ensures
            parsed_view(r) == unit_based_spec(old(self).tokens(), old(self).starts(), old(self).pos()),
            r matches Ok(d) ==> subsec_nanos_of(d) < 1_000_000_000,
    {
        proof {
            use_type_invariant(&*self);
        }
        let ghost t = self.tokens();
        let ghost p0 = self.pos();
        let ghost st = self.starts();
        let mut components: Vec<Component> = Vec::new();
        let mut seen_units: Vec<Vec<char>> = Vec::new();
        proof {
            assert(seen_units@.map_values(|v: Vec<char>| v@) =~= Seq::<Seq<char>>::empty());
            match scan_units(t, st, p0, Seq::empty()) {
                Ok(rest) => {
                    assert(components_view(components@) + rest =~= rest);
                },
                Err(_) => {},
            }
        }
        loop
            invariant_except_break
                self.tokens() == t,
                t == old(self).tokens(),
                p0 == old(self).pos(),
                st == old(self).starts(),
                st == self.starts(),
                self.position <= self.tokens.len(),
                seen_units@.len() == components@.len(),
                scan_units(t, st, p0, Seq::empty()) == match scan_units(
                    t,
                    st,
                    self.pos(),
                    seen_units@.map_values(|v: Vec<char>| v@),
                ) {
                    Ok(rest) => Ok(components_view(components@) + rest),
                    Err(e) => Err::<Seq<(u64, Seq<char>, int)>, ErrorView>(e),
                },
            ensures
                t == old(self).tokens(),
                p0 == old(self).pos(),
                st == old(self).starts(),
                scan_units(t, st, p0, Seq::empty()) == Ok::<Seq<(u64, Seq<char>, int)>, ErrorView>(
                    components_view(components@),
                ),
            decreases self.tokens.len() - self.position,
        {
            let ghost seen = seen_units@.map_values(|v: Vec<char>| v@);
            let ghost before = self.pos();
            match self.peek() {
                None => {
                    assert(components_view(components@) + Seq::empty() =~= components_view(
                        components@,
                    ));
                    break;
                },
                Some(Token::Number(n)) => {
                    let value = *n;
                    self.advance();
                    match self.peek() {
                        Some(Token::Unit(u)) => {
                            let unit = u.clone();
                            let ghost uv = u@;
                            let unit_position = self.start_of(self.position);
                            self.advance();
                            let normalized = chars_of(normalize_unit(unit.as_str()).as_str());
                            if contains_chars(&seen_units, &normalized) {
                                assert(scan_units(t, st, before, seen) == Err::<
                                    Seq<(u64, Seq<char>, int)>,
                                    ErrorView,
                                >(ErrorView::DuplicateUnit { unit: uv }));
                                return Err(Error::DuplicateUnit { unit });
                            }
                            assert(!seen.contains(normalized@));
                            let ghost old_components = components_view(components@);
                            seen_units.push(normalized);
                            components.push(Component { value, unit, position: unit_position });
                            proof {
                                assert(seen_units@.map_values(|v: Vec<char>| v@) =~= seen.push(
                                    normalize_spec(uv),
                                ));
                                assert(components_view(components@) =~= old_components + seq![
                                    (value, uv, unit_position as int),
                                ]);
                                match scan_units(
                                    t,
                                    st,
                                    self.pos(),
                                    seen_units@.map_values(|v: Vec<char>| v@),
                                ) {
                                    Ok(rest) => {
                                        assert(old_components + (seq![(value, uv, unit_position as int)] + rest)
                                            =~= components_view(components@) + rest);
                                    },
                                    Err(_) => {},
                                }
                            }
                        },
                        _ => {
                            assert(scan_units(t, st, before, seen) == Err::<
                                Seq<(u64, Seq<char>, int)>,
                                ErrorView,
                            >(missing_unit_error()));
                            return Err(
                                Error::UnexpectedEndOfInput {
                                    expected: String::from_str("time unit"),
                                },
                            );
                        },
                    }
                },
                Some(Token::Eof) => {
                    assert(components_view(components@) + Seq::empty() =~= components_view(
                        components@,
                    ));
                    break;
                },
                _ => {
                    assert(scan_units(t, st, before, seen) == Err::<Seq<(u64, Seq<char>, int)>, ErrorView>(
                        unexpected_token_error(),
                    ));
                    return Err(
                        Error::InvalidClockFormat {
                            input: String::from_str("unexpected token"),
                            reason: String::from_str("expected number"),
                        },
                    );
                },
            }
        }
        if components.len() == 0 {
            return Err(Error::EmptyInput);
        }
        let ghost cs = components_view(components@);
        let mut total: (u64, u32) = (0, 0);
        let mut i: usize = 0;
        while i < components.len()
            invariant
                i <= components.len(),
                cs == components_view(components@),
                unit_based_spec(old(self).tokens(), old(self).starts(), old(self).pos()) == sum_from(cs, 0, 0),
                total.1 < 1_000_000_000,
                sum_from(cs, 0, 0) == sum_from(
                    cs,
                    i as nat,
                    (total.0 as nat) * nanos_per_sec() + (total.1 as nat),
                ),
            decreases components.len() - i,
        {
            let part = match convert_to_duration(
                components[i].value,
                components[i].unit.as_str(),
                components[i].position,
            ) {
                Ok(p) => p,
                Err(e) => {
                    return Err(e);
                },
            };
            match add_lengths(total, part) {
                Some(sum) => {
                    total = sum;
                },
                None => {
                    return Err(Error::DurationOverflow);
                },
            }
            i = i + 1;
        }
        Ok(duration_new(total.0, total.1))
    }

    /// Parses the input and returns a Duration.
    pub fn parse(self) -> (r: Result<Duration, Error>)
        ensures
            parsed_view(r) == parse_tokens_spec(self.tokens(), self.starts(), self.pos()),
            r matches Ok(d) ==> subsec_nanos_of(d) < 1_000_000_000,
    {
        let mut this = self;
        if this.is_clock_format() {
            this.parse_clock_format()
        } else {
            this.parse_unit_based()
        }
    }
}

} // verus!
