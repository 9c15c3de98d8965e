//! Whitespace around the input: it changes nothing but error positions.

use vstd::prelude::*;

use crate::error::{shift_position, ErrorView};
use crate::parse::grammar::{
    all_ws, clock_numbers, clock_parts, clock_spec, component_nanos, content, has_colon, normalize_spec,
    parse_spec, parse_tokens_spec, scan_units, start_at, sum_from, token_at, trim_end,
    unit_based_spec,
};
use crate::parse::tokens::{
    lemma_next_token_advances, lemma_skip_ws_bounds, lemma_skip_ws_prefix, lemma_skip_ws_shift,
    lemma_starts_len, lemma_tokenize_shift, next_token_spec, shift_starts, skip_ws, token_starts,
    tokenize_spec, TokenView,
};
use crate::text::is_ws;

verus! {

proof fn lemma_trim_end_ws_suffix(x: Seq<char>, w: Seq<char>)
    requires
        all_ws(w),
    ensures
        trim_end(x + w) == trim_end(x),
    decreases w.len(),
{
    if w.len() > 0 {
        assert((x + w).drop_last() =~= x + w.drop_last());
        assert((x + w).last() == w.last());
        lemma_trim_end_ws_suffix(x, w.drop_last());
    } else {
        assert(x + w =~= x);
    }
}

proof fn lemma_trim_end_after_non_ws(s: Seq<char>, i: int)
    requires
        0 <= i < s.len(),
        !is_ws(s[i]),
    ensures
        i < trim_end(s) <= s.len(),
    decreases s.len(),
{
    if is_ws(s.last()) {
        assert(s.drop_last()[i] == s[i]);
        lemma_trim_end_after_non_ws(s.drop_last(), i);
    }
}

proof fn lemma_trim_end_ws_prefix(w: Seq<char>, s: Seq<char>)
    requires
        trim_end(s) > 0,
    ensures
        trim_end(w + s) == w.len() + trim_end(s),
    decreases s.len(),
{
    assert(s.len() > 0);
    assert((w + s).last() == s.last());
    if is_ws(s.last()) {
        assert((w + s).drop_last() =~= w + s.drop_last());
        lemma_trim_end_ws_prefix(w, s.drop_last());
    }
}

proof fn lemma_skip_ws_suffix(s: Seq<char>, w: Seq<char>, p: int)
    requires
        0 <= p,
        skip_ws(s, p) < s.len(),
    ensures
        skip_ws(s + w, p) == skip_ws(s, p),
    decreases s.len() - p,
{
    if p < s.len() {
        assert((s + w)[p] == s[p]);
        if is_ws(s[p]) {
            lemma_skip_ws_suffix(s, w, p + 1);
        }
    }
}

proof fn lemma_all_ws_skipped(s: Seq<char>, p: int)
    requires
        0 <= p <= s.len(),
        skip_ws(s, p) >= s.len(),
    ensures
        forall|i: int| p <= i < s.len() ==> is_ws(#[trigger] s[i]),
    decreases s.len() - p,
{
    if p < s.len() {
        lemma_all_ws_skipped(s, p + 1);
    }
}

/// A parse result with the position of its error, if it has one, moved `k` later.
pub open spec fn shift_result(r: Result<nat, ErrorView>, k: nat) -> Result<nat, ErrorView> {
    match r {
        Ok(n) => Ok(n),
        Err(e) => Err(shift_position(e, k)),
    }
}

proof fn lemma_scan_shift_starts(t: Seq<TokenView>, st: Seq<int>, i: nat, seen: Seq<Seq<char>>, k: nat)
    requires
        st.len() == t.len(),
    ensures
        scan_units(t, shift_starts(st, k as int), i, seen) == match scan_units(t, st, i, seen) {
            Ok(cs) => Ok(shift_components(cs, k)),
            Err(e) => Err::<Seq<(u64, Seq<char>, int)>, ErrorView>(e),
        },
    decreases t.len() - i,
{
    if i < t.len() {
        match t[i as int] {
            TokenView::Number(v) => match token_at(t, i + 1int) {
                TokenView::Unit(u) => {
                    let seen2 = seen.push(normalize_spec(u));
                    lemma_scan_shift_starts(t, st, i + 2, seen2, k);
                    assert(start_at(shift_starts(st, k as int), i + 1int) == start_at(st, i + 1int)
                        + k);
                    match scan_units(t, st, i + 2, seen2) {
                        Ok(rest) => {
                            assert(shift_components(seq![(v, u, start_at(st, i + 1int))] + rest, k)
                                =~= seq![(v, u, start_at(st, i + 1int) + k)] + shift_components(
                                rest,
                                k,
                            ));
                        },
                        Err(_) => {},
                    }
                },
                _ => {},
            },
            _ => {},
        }
    }
    if i >= t.len() || t[i as int] is Eof {
        assert(shift_components(Seq::empty(), k) =~= Seq::empty());
    }
}

/// Components with the start of each unit moved `k` later.
pub open spec fn shift_components(cs: Seq<(u64, Seq<char>, int)>, k: nat) -> Seq<
    (u64, Seq<char>, int),
> {
    cs.map_values(|c: (u64, Seq<char>, int)| (c.0, c.1, c.2 + k))
}

proof fn lemma_sum_shift(cs: Seq<(u64, Seq<char>, int)>, i: nat, acc: nat, k: nat)
    requires
        forall|j: int| 0 <= j < cs.len() ==> #[trigger] cs[j].2 >= 0,
    ensures
        sum_from(shift_components(cs, k), i, acc) == shift_result(sum_from(cs, i, acc), k),
    decreases cs.len() - i,
{
    if i < cs.len() {
        let c = cs[i as int];
        assert(shift_components(cs, k)[i as int] == (c.0, c.1, c.2 + k));
        assert(c.2 >= 0);
        match component_nanos(c.0, c.1, c.2) {
            Ok(n) => {
                lemma_sum_shift(cs, i + 1, acc + n, k);
            },
            Err(e) => {},
        }
    }
}

proof fn lemma_scan_positions(t: Seq<TokenView>, st: Seq<int>, i: nat, seen: Seq<Seq<char>>)
    requires
        forall|j: int| 0 <= j < st.len() ==> #[trigger] st[j] >= 0,
    ensures
        scan_units(t, st, i, seen) matches Ok(cs) ==> forall|j: int|
            0 <= j < cs.len() ==> #[trigger] cs[j].2 >= 0,
    decreases t.len() - i,
{
    if i < t.len() {
        match t[i as int] {
            TokenView::Number(v) => match token_at(t, i + 1int) {
                TokenView::Unit(u) => {
                    let seen2 = seen.push(normalize_spec(u));
                    lemma_scan_positions(t, st, i + 2, seen2);
                    match scan_units(t, st, i + 2, seen2) {
                        Ok(rest) => {
                            let cs = seq![(v, u, start_at(st, i + 1int))] + rest;
                            assert forall|j: int| 0 <= j < cs.len() implies #[trigger] cs[j].2 >= 0 by {
                                if j > 0 {
                                    assert(cs[j] == rest[j - 1]);
                                }
                            }
                        },
                        Err(_) => {},
                    }
                },
                _ => {},
            },
            _ => {},
        }
    }
}

/// Whitespace before and after the input changes no duration and no error,
/// only moves the position an error names by the whitespace before.
pub proof fn law_surrounding_whitespace_ignored(w1: Seq<char>, s: Seq<char>, w2: Seq<char>)
    requires
        all_ws(w1),
        all_ws(w2),
    ensures
        parse_spec(w1 + s + w2) == shift_result(parse_spec(s), w1.len()),
{
    let t = w1 + s + w2;
    let a = skip_ws(s, 0);
    let b = trim_end(s);
    let k = w1.len();
    lemma_skip_ws_bounds(s, 0);
    lemma_trim_end_ws_suffix(w1 + s, w2);
    if a < s.len() {
        lemma_trim_end_after_non_ws(s, a);
        lemma_trim_end_ws_prefix(w1, s);
        assert(t =~= w1 + (s + w2));
        lemma_skip_ws_prefix(w1, s + w2, 0);
        lemma_skip_ws_shift(w1, s + w2, 0);
        lemma_skip_ws_suffix(s, w2, 0);
        assert(content(t) =~= w1 + content(s));
        lemma_tokenize_shift(w1, content(s), a);
        match tokenize_spec(content(s), a) {
            Err(e) => {},
            Ok(toks) => {
                let st = token_starts(content(s), a);
                lemma_starts_len(content(s), a);
                if has_colon(toks) {
                    match clock_spec(toks, 0) {
                        Err(e) => {
                            lemma_clock_error(toks, 0, true);
                            assert(shift_position(e, k) == e);
                        },
                        Ok(_) => {},
                    }
                } else {
                    lemma_scan_shift_starts(toks, st, 0, Seq::empty(), k);
                    lemma_starts_nonneg(content(s), a);
                    lemma_scan_positions(toks, st, 0, Seq::empty());
                    match scan_units(toks, st, 0, Seq::empty()) {
                        Ok(cs) => {
                            lemma_sum_shift(cs, 0, 0, k);
                        },
                        Err(e) => {
                            lemma_scan_error(toks, st, 0, Seq::empty());
                        },
                    }
                }
            },
        }
    } else {
        lemma_all_ws_skipped(s, 0);
        assert(all_ws(w1 + s + w2)) by {
            assert forall|i: int| 0 <= i < t.len() implies is_ws(#[trigger] t[i]) by {
                if i < w1.len() {
                    assert(t[i] == w1[i]);
                } else if i < w1.len() + s.len() {
                    assert(t[i] == s[i - w1.len()]);
                } else {
                    assert(t[i] == w2[i - w1.len() - s.len()]);
                }
            }
        }
        lemma_trim_end_ws_suffix(Seq::empty(), t);
        assert(Seq::<char>::empty() + t =~= t);
        assert(trim_end(Seq::<char>::empty()) == 0);
        lemma_skip_ws_bounds(t, 0);
        if b > 0 {
            lemma_trim_end_ws_suffix(Seq::empty(), s);
            assert(Seq::<char>::empty() + s =~= s);
        }
    }
}

/// The errors of a clock name no position.
proof fn lemma_clock_error(t: Seq<TokenView>, i: nat, expect_number: bool)
    ensures
        clock_spec(t, i) matches Err(e) ==> shift_position(e, 0) == e && forall|k: nat|
            #[trigger] shift_position(e, k) == e,
    decreases t.len() - i,
{
    lemma_clock_parts_error(t, i, true);
    lemma_clock_numbers_error(t, i);
}

proof fn lemma_clock_numbers_error(t: Seq<TokenView>, i: nat)
    ensures
        clock_numbers(t, i) matches Err(e) ==> e is InvalidClockFormat,
    decreases t.len() - i,
{
    if i < t.len() {
        lemma_clock_numbers_error(t, i + 1);
    }
}

proof fn lemma_clock_parts_error(t: Seq<TokenView>, i: nat, expect_number: bool)
    ensures
        clock_parts(t, i, expect_number) matches Err(e) ==> e is InvalidClockFormat,
    decreases t.len() - i,
{
    if i < t.len() {
        lemma_clock_parts_error(t, i + 1, !expect_number);
        lemma_clock_parts_error(t, i + 1, expect_number);
    }
}

/// The errors of scanning units name no position.
proof fn lemma_scan_error(t: Seq<TokenView>, st: Seq<int>, i: nat, seen: Seq<Seq<char>>)
    ensures
        scan_units(t, st, i, seen) matches Err(e) ==> e is DuplicateUnit || e
            is UnexpectedEndOfInput || e is InvalidClockFormat,
    decreases t.len() - i,
{
    if i < t.len() {
        match t[i as int] {
            TokenView::Number(v) => match token_at(t, i + 1int) {
                TokenView::Unit(u) => {
                    lemma_scan_error(t, st, i + 2, seen.push(normalize_spec(u)));
                },
                _ => {},
            },
            _ => {},
        }
    }
}

/// Tokens start at positions that are not negative.
proof fn lemma_starts_nonneg(s: Seq<char>, p: int)
    requires
        0 <= p,
    ensures
        forall|j: int| 0 <= j < token_starts(s, p).len() ==> #[trigger] token_starts(s, p)[j] >= 0,
    decreases s.len() - p,
{
    lemma_next_token_advances(s, p);
    lemma_skip_ws_bounds(s, p);
    let (r, q) = next_token_spec(s, p);
    match r {
        Ok(TokenView::Eof) => {},
        Ok(_) => {
            lemma_starts_nonneg(s, q);
            let st = token_starts(s, p);
            assert forall|j: int| 0 <= j < st.len() implies #[trigger] st[j] >= 0 by {
                if j > 0 {
                    assert(st[j] == token_starts(s, q)[j - 1]);
                }
            }
        },
        Err(_) => {},
    }
}

} // verus!
