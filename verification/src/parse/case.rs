//! Letter case: units are read without regard to the case of ASCII letters.

use vstd::prelude::*;

use crate::error::ErrorView;
use crate::parse::grammar::{
    clock_numbers, clock_parts, clock_spec, component_nanos, content, has_colon, lemma_trim_end_bounds,
    normalize_spec, parse_spec, parse_tokens_spec, scan_units, start_at, sum_from, token_at,
    trim_end, unit_based_spec,
};
use crate::parse::tokens::{
    alpha_end, digit_end, lemma_next_token_advances, next_token_spec, skip_ws, token_starts,
    tokenize_spec, TokenView,
};
use crate::text::{
    all_ascii, ascii_digit, ascii_letter, ascii_lower, ascii_lower_char, digits_value,
    is_alpha, is_ascii_char, is_ws, lower,
};

verus! {

/// A token with the ASCII letters of its unit lowered.
pub open spec fn token_lower(t: TokenView) -> TokenView {
    match t {
        TokenView::Unit(u) => TokenView::Unit(ascii_lower(u)),
        other => other,
    }
}

/// An error with the ASCII letters of the unit it names lowered.
pub open spec fn error_lower(e: ErrorView) -> ErrorView {
    match e {
        ErrorView::DuplicateUnit { unit } => ErrorView::DuplicateUnit { unit: ascii_lower(unit) },
        ErrorView::InvalidUnit { unit, position } => ErrorView::InvalidUnit {
            unit: ascii_lower(unit),
            position,
        },
        other => other,
    }
}

/// A parse result with the unit named by its error lowered.
pub open spec fn result_lower(r: Result<nat, ErrorView>) -> Result<nat, ErrorView> {
    match r {
        Ok(n) => Ok(n),
        Err(e) => Err(error_lower(e)),
    }
}

spec fn tokens_lower(t: Seq<TokenView>) -> Seq<TokenView> {
    t.map_values(|x: TokenView| token_lower(x))
}

spec fn tokens_result_lower(r: Result<Seq<TokenView>, ErrorView>) -> Result<
    Seq<TokenView>,
    ErrorView,
> {
    match r {
        Ok(t) => Ok(tokens_lower(t)),
        Err(e) => Err(error_lower(e)),
    }
}

/// Every unit among the tokens is ASCII.
spec fn ascii_units(t: Seq<TokenView>) -> bool {
    forall|i: int| 0 <= i < t.len() ==> (#[trigger] t[i] matches TokenView::Unit(u) ==> all_ascii(u))
}

/// Every letter of `s` is ASCII.
pub open spec fn ascii_letters(s: Seq<char>) -> bool {
    forall|i: int| 0 <= i < s.len() ==> is_alpha(#[trigger] s[i]) ==> is_ascii_char(s[i])
}

proof fn lemma_char_lower(c: char)
    requires
        is_alpha(c) ==> is_ascii_char(c),
    ensures
        is_ascii_char(ascii_lower_char(c)) == is_ascii_char(c),
        is_alpha(ascii_lower_char(c)) ==> is_ascii_char(ascii_lower_char(c)),
        is_ws(ascii_lower_char(c)) == is_ws(c),
        ascii_digit(ascii_lower_char(c)) == ascii_digit(c),
        is_alpha(ascii_lower_char(c)) == is_alpha(c),
        (ascii_lower_char(c) == ':') == (c == ':'),
        !ascii_letter(c) ==> ascii_lower_char(c) == c,
        ascii_lower_char(ascii_lower_char(c)) == ascii_lower_char(c),
{
}

proof fn lemma_ascii_lower_of_ascii(s: Seq<char>)
    requires
        all_ascii(s),
        ascii_letters(s),
    ensures
        all_ascii(ascii_lower(s)),
        ascii_lower(ascii_lower(s)) == ascii_lower(s),
        lower(ascii_lower(s)) == lower(s),
{
    assert forall|i: int| 0 <= i < s.len() implies is_ascii_char(#[trigger] ascii_lower(s)[i]) by {
        lemma_char_lower(s[i]);
    }
    assert forall|i: int| 0 <= i < s.len() implies #[trigger] ascii_lower(ascii_lower(s))[i]
        == ascii_lower(s)[i] by {
        lemma_char_lower(s[i]);
    }
    assert(ascii_lower(ascii_lower(s)) =~= ascii_lower(s));
}

proof fn lemma_skip_ws_lower(s: Seq<char>, p: int)
    requires
        ascii_letters(s),
    ensures
        skip_ws(ascii_lower(s), p) == skip_ws(s, p),
    decreases s.len() - p,
{
    if 0 <= p < s.len() {
        lemma_char_lower(s[p]);
        lemma_skip_ws_lower(s, p + 1);
    }
}

proof fn lemma_digit_end_lower(s: Seq<char>, p: int)
    requires
        ascii_letters(s),
    ensures
        digit_end(ascii_lower(s), p) == digit_end(s, p),
    decreases s.len() - p,
{
    if 0 <= p < s.len() {
        lemma_char_lower(s[p]);
        lemma_digit_end_lower(s, p + 1);
    }
}

proof fn lemma_alpha_end_lower(s: Seq<char>, p: int)
    requires
        ascii_letters(s),
    ensures
        alpha_end(ascii_lower(s), p) == alpha_end(s, p),
    decreases s.len() - p,
{
    if 0 <= p < s.len() {
        lemma_char_lower(s[p]);
        lemma_alpha_end_lower(s, p + 1);
    }
}

proof fn lemma_digits_unchanged(s: Seq<char>, p: int)
    requires
        ascii_letters(s),
        0 <= p <= s.len(),
    ensures
        ascii_lower(s).subrange(p, digit_end(s, p)) == s.subrange(p, digit_end(s, p)),
    decreases s.len() - p,
{
    crate::parse::tokens::lemma_digit_end_bounds(s, p);
    let e = digit_end(s, p);
    assert forall|i: int| p <= i < e implies ascii_digit(#[trigger] s[i]) by {
        lemma_digits_in_run(s, p, i);
    }
    assert forall|i: int| p <= i < e implies #[trigger] ascii_lower(s)[i] == s[i] by {
        lemma_char_lower(s[i]);
    }
    assert(ascii_lower(s).subrange(p, e) =~= s.subrange(p, e));
}

proof fn lemma_alphas_in_run(s: Seq<char>, p: int, i: int)
    requires
        0 <= p <= i < alpha_end(s, p),
    ensures
        is_alpha(s[i]),
    decreases i - p,
{
    if p < i {
        lemma_alphas_in_run(s, p + 1, i);
    }
}

proof fn lemma_digits_in_run(s: Seq<char>, p: int, i: int)
    requires
        0 <= p <= i < digit_end(s, p),
    ensures
        ascii_digit(s[i]),
    decreases i - p,
{
    if p < i {
        lemma_digits_in_run(s, p + 1, i);
    }
}

/// Lowering the input lowers the units of the next token and changes nothing else.
proof fn lemma_next_token_lower(s: Seq<char>, p: int)
    requires
        ascii_letters(s),
        0 <= p,
    ensures
        next_token_spec(ascii_lower(s), p).1 == next_token_spec(s, p).1,
        next_token_spec(ascii_lower(s), p).0 == match next_token_spec(s, p).0 {
            Ok(t) => Ok(token_lower(t)),
            Err(e) => Err::<TokenView, ErrorView>(e),
        },
        next_token_spec(s, p).0 matches Ok(TokenView::Unit(u)) ==> all_ascii(u),
{
    let l = ascii_lower(s);
    lemma_skip_ws_lower(s, p);
    crate::parse::tokens::lemma_skip_ws_bounds(s, p);
    let q = skip_ws(s, p);
    if q < s.len() {
        lemma_char_lower(s[q]);
        lemma_digit_end_lower(s, q);
        lemma_alpha_end_lower(s, q);
        crate::parse::tokens::lemma_alpha_end_bounds(s, q);
        let e = alpha_end(s, q);
        assert(l.subrange(q, e) =~= ascii_lower(s.subrange(q, e)));
        assert forall|i: int| 0 <= i < e - q implies is_ascii_char(
            #[trigger] s.subrange(q, e)[i],
        ) by {
            lemma_alphas_in_run(s, q, q + i);
        }
        if ascii_digit(s[q]) {
            lemma_digits_unchanged(s, q);
        }
    }
}

/// Lowering the input lowers the units among its tokens and changes nothing else.
proof fn lemma_tokenize_lower(s: Seq<char>, p: int)
    requires
        ascii_letters(s),
        0 <= p,
    ensures
        tokenize_spec(ascii_lower(s), p) == tokens_result_lower(tokenize_spec(s, p)),
        token_starts(ascii_lower(s), p) == token_starts(s, p),
        tokenize_spec(s, p) matches Ok(t) ==> ascii_units(t),
    decreases s.len() - p,
{
    lemma_next_token_lower(s, p);
    lemma_skip_ws_lower(s, p);
    lemma_next_token_advances(s, p);
    let (r, q) = next_token_spec(s, p);
    match r {
        Err(e) => {
            assert(error_lower(e) == e) by {
                assert(!(e is DuplicateUnit) && !(e is InvalidUnit));
            }
        },
        Ok(TokenView::Eof) => {
            assert(tokens_lower(seq![TokenView::Eof]) =~= seq![TokenView::Eof]);
        },
        Ok(t) => {
            lemma_tokenize_lower(s, q);
            match tokenize_spec(s, q) {
                Ok(rest) => {
                    assert(tokens_lower(seq![t] + rest) =~= seq![token_lower(t)] + tokens_lower(
                        rest,
                    ));
                    assert forall|i: int| 0 <= i < (seq![t] + rest).len() implies (
                    #[trigger] (seq![t] + rest)[i] matches TokenView::Unit(u) ==> all_ascii(u)) by {
                        if i > 0 {
                            assert((seq![t] + rest)[i] == rest[i - 1]);
                        }
                    }
                },
                Err(_) => {},
            }
        },
    }
}

proof fn lemma_trim_end_lower(s: Seq<char>)
    requires
        ascii_letters(s),
    ensures
        trim_end(ascii_lower(s)) == trim_end(s),
    decreases s.len(),
{
    if s.len() > 0 {
        lemma_char_lower(s.last());
        assert(ascii_lower(s).drop_last() =~= ascii_lower(s.drop_last()));
        lemma_trim_end_lower(s.drop_last());
    }
}

proof fn lemma_clock_parts_error(t: Seq<TokenView>, i: nat, expect_number: bool)
    ensures
        clock_parts(t, i, expect_number) matches Err(e) ==> e is InvalidClockFormat,
    decreases t.len() - i,
{
    if i < t.len() {
        lemma_clock_parts_error(t, i + 1, true);
        lemma_clock_parts_error(t, i + 1, false);
    }
}

proof fn lemma_content_lower(s: Seq<char>)
    requires
        ascii_letters(s),
    ensures
        content(ascii_lower(s)) == ascii_lower(content(s)),
        ascii_letters(content(s)),
        skip_ws(ascii_lower(s), 0) == skip_ws(s, 0),
        trim_end(ascii_lower(s)) == trim_end(s),
{
    lemma_skip_ws_lower(s, 0);
    lemma_trim_end_lower(s);
    lemma_trim_end_bounds(s);
    assert(content(ascii_lower(s)) =~= ascii_lower(content(s)));
}

proof fn lemma_has_colon_lower(t: Seq<TokenView>)
    ensures
        has_colon(tokens_lower(t)) == has_colon(t),
{
    if has_colon(t) {
        let i = choose|i: int| 0 <= i < t.len() && (#[trigger] t[i]) is Colon;
        assert(tokens_lower(t)[i] is Colon);
    }
    if has_colon(tokens_lower(t)) {
        let i = choose|i: int|
            0 <= i < tokens_lower(t).len() && (#[trigger] tokens_lower(t)[i]) is Colon;
        assert(t[i] is Colon);
    }
}

proof fn lemma_clock_numbers_lower(t: Seq<TokenView>, i: nat)
    ensures
        clock_numbers(tokens_lower(t), i) == clock_numbers(t, i),
        clock_numbers(t, i) matches Err(e) ==> e is InvalidClockFormat,
    decreases t.len() - i,
{
    if i < t.len() {
        lemma_clock_numbers_lower(t, i + 1);
    }
}

proof fn lemma_clock_parts_lower(t: Seq<TokenView>, i: nat, expect_number: bool)
    ensures
        clock_parts(tokens_lower(t), i, expect_number) == clock_parts(t, i, expect_number),
    decreases t.len() - i,
{
    if i < t.len() {
        lemma_clock_parts_lower(t, i + 1, true);
        lemma_clock_parts_lower(t, i + 1, false);
    }
}

spec fn triples_lower(cs: Seq<(u64, Seq<char>, int)>) -> Seq<(u64, Seq<char>, int)> {
    cs.map_values(|c: (u64, Seq<char>, int)| (c.0, ascii_lower(c.1), c.2))
}

proof fn lemma_scan_lower(t: Seq<TokenView>, st: Seq<int>, i: nat, seen: Seq<Seq<char>>)
    requires
        ascii_units(t),
    ensures
        scan_units(tokens_lower(t), st, i, seen) == match scan_units(t, st, i, seen) {
            Ok(cs) => Ok(triples_lower(cs)),
            Err(e) => Err::<Seq<(u64, Seq<char>, int)>, ErrorView>(error_lower(e)),
        },
        scan_units(t, st, i, seen) matches Ok(cs) ==> forall|j: int|
            0 <= j < cs.len() ==> all_ascii(#[trigger] cs[j].1),
    decreases t.len() - i,
{
    let tl = tokens_lower(t);
    if i < t.len() {
        assert(token_at(tl, i + 1int) == token_lower(token_at(t, i + 1int)));
        match t[i as int] {
            TokenView::Number(v) => match token_at(t, i + 1int) {
                TokenView::Unit(u) => {
                    assert(t[i + 1int] == TokenView::Unit(u));
                    assert(all_ascii(u));
                    lemma_ascii_lower_of_ascii(u);
                    assert(normalize_spec(ascii_lower(u)) == normalize_spec(u));
                    let p = start_at(st, i + 1int);
                    lemma_scan_lower(t, st, i + 2, seen.push(normalize_spec(u)));
                    match scan_units(t, st, i + 2, seen.push(normalize_spec(u))) {
                        Ok(rest) => {
                            assert(triples_lower(seq![(v, u, p)] + rest) =~= seq![
                                (v, ascii_lower(u), p),
                            ] + triples_lower(rest));
                            assert forall|j: int| 0 <= j < (seq![(v, u, p)] + rest).len() implies all_ascii(
                                #[trigger] (seq![(v, u, p)] + rest)[j].1,
                            ) by {
                                if j > 0 {
                                    assert((seq![(v, u, p)] + rest)[j] == rest[j - 1]);
                                }
                            }
                        },
                        Err(_) => {},
                    }
                },
                _ => {},
            },
            TokenView::Eof => {
                assert(triples_lower(Seq::empty()) =~= Seq::empty());
            },
            _ => {},
        }
    } else {
        assert(triples_lower(Seq::empty()) =~= Seq::empty());
    }
}

proof fn lemma_sum_lower(cs: Seq<(u64, Seq<char>, int)>, i: nat, acc: nat)
    requires
        forall|j: int| 0 <= j < cs.len() ==> all_ascii(#[trigger] cs[j].1),
    ensures
        sum_from(triples_lower(cs), i, acc) == result_lower(sum_from(cs, i, acc)),
    decreases cs.len() - i,
{
    if i < cs.len() {
        let (v, u, p) = cs[i as int];
        assert(all_ascii(cs[i as int].1));
        lemma_ascii_lower_of_ascii(u);
        assert(triples_lower(cs)[i as int] == (v, ascii_lower(u), p));
        assert(component_nanos(v, ascii_lower(u), p) == match component_nanos(v, u, p) {
            Ok(n) => Ok(n),
            Err(e) => Err::<nat, ErrorView>(error_lower(e)),
        });
        lemma_sum_lower(cs, i + 1, acc + match component_nanos(v, u, p) {
            Ok(n) => n,
            Err(_) => 0,
        });
    }
}

/// Units are read without regard to case: lowering the ASCII letters of an
/// input whose letters are all ASCII (whatever its whitespace and other
/// characters) gives the same duration, and in an error only the case of the
/// unit that the error names changes.
pub proof fn law_case_insensitive(s: Seq<char>)
    requires
        ascii_letters(s),
    ensures
        parse_spec(ascii_lower(s)) == result_lower(parse_spec(s)),
{
    lemma_content_lower(s);
    let a = skip_ws(s, 0);
    if a < trim_end(s) {
        let c = content(s);
        crate::parse::tokens::lemma_skip_ws_bounds(s, 0);
        lemma_tokenize_lower(c, a);
        match tokenize_spec(c, a) {
            Ok(t) => {
                let tl = tokens_lower(t);
                let st = token_starts(c, a);
                lemma_has_colon_lower(t);
                if has_colon(t) {
                    lemma_clock_parts_lower(t, 0, true);
                    lemma_clock_parts_error(t, 0, true);
                    lemma_clock_numbers_lower(t, 0);
                    match clock_spec(t, 0) {
                        Err(e) => {
                            assert(error_lower(e) == e) by {
                                assert(!(e is DuplicateUnit) && !(e is InvalidUnit));
                            }
                        },
                        Ok(_) => {},
                    }
                } else {
                    lemma_scan_lower(t, st, 0, Seq::empty());
                    match scan_units(t, st, 0, Seq::empty()) {
                        Ok(cs) => {
                            lemma_sum_lower(cs, 0, 0);
                            assert(triples_lower(cs).len() == cs.len());
                        },
                        Err(_) => {},
                    }
                    assert(parse_tokens_spec(tl, st, 0) == unit_based_spec(tl, st, 0));
                }
            },
            Err(_) => {},
        }
    }
}

} // verus!
