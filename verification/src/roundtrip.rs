//! What the formatter writes, the parser reads back: the proof that parsing
//! a formatted duration gives the duration at the formatter's precision.

use vstd::prelude::*;

use crate::format::{
    clock_text, component_texts, format_text, join, optional, plural_name, separator,
    short_name, shown_components, shown_from, shown_nanos, singular_name, unit_text, zero_text,
    FormatStyle, Precision,
};
use crate::duration::{max_total_nanos, nanos_per_sec};
use crate::parse::grammar::{
    canonical, clock_numbers, clock_parts, clock_seconds, component_nanos, content, has_colon, kind_nanos,
    lemma_canonical_distinct, normalize_spec, parse_spec, parse_tokens_spec, scan_units,
    secs_per_unit, start_at, sum_from, token_at, trim_end, unit_based_spec, unit_kind, UnitKind,
};
use crate::parse::tokens::{
    lemma_starts_len, token_starts,
    alpha_end, digit_end, lemma_tokenize_after_ws, lemma_tokenize_shift, next_token_spec,
    skip_ws, tokenize_spec, TokenView,
};
use crate::text::{
    all_digits, ascii_digit, dec, digits_value, is_alpha, is_ws, lemma_dec,
    lemma_lower_of_lowercase_word, lemma_pad2, lower, lowercase_word, pad2,
};

verus! {

proof fn lemma_digit_end_at(s: Seq<char>, p: int, e: int)
    requires
        0 <= p <= e <= s.len(),
        forall|i: int| p <= i < e ==> ascii_digit(#[trigger] s[i]),
        e == s.len() || !ascii_digit(s[e]),
    ensures
        digit_end(s, p) == e,
    decreases e - p,
{
    if p < e {
        lemma_digit_end_at(s, p + 1, e);
    }
}

proof fn lemma_alpha_end_at(s: Seq<char>, p: int, e: int)
    requires
        0 <= p <= e <= s.len(),
        forall|i: int| p <= i < e ==> is_alpha(#[trigger] s[i]),
        e == s.len() || !is_alpha(s[e]),
    ensures
        alpha_end(s, p) == e,
    decreases e - p,
{
    if p < e {
        lemma_alpha_end_at(s, p + 1, e);
    }
}

/// A run of digits reads as one number token.
proof fn lemma_tokenize_number(d: Seq<char>, r: Seq<char>)
    requires
        d.len() > 0,
        all_digits(d),
        digits_value(d) <= u64::MAX,
        r.len() == 0 || !ascii_digit(r[0]),
        tokenize_spec(r, 0) is Ok,
    ensures
        tokenize_spec(d + r, 0) == Ok::<Seq<TokenView>, crate::error::ErrorView>(
            seq![TokenView::Number(digits_value(d) as u64)] + tokenize_spec(r, 0)->Ok_0,
        ),
{
    let s = d + r;
    assert(s[0] == d[0]);
    assert(skip_ws(s, 0) == 0);
    lemma_digit_end_at(s, 0, d.len() as int);
    assert(s.subrange(0, d.len() as int) =~= d);
    assert(next_token_spec(s, 0) == (
        Ok::<TokenView, crate::error::ErrorView>(TokenView::Number(digits_value(d) as u64)),
        d.len() as int,
    ));
    lemma_tokenize_shift(d, r, 0);
    assert(tokenize_spec(r, 0)->Ok_0 =~= tokenize_spec(r, 0)->Ok_0);
}

/// A lowercase word reads as one unit token.
proof fn lemma_tokenize_word(w: Seq<char>, r: Seq<char>)
    requires
        lowercase_word(w),
        r.len() == 0 || !is_alpha(r[0]),
        tokenize_spec(r, 0) is Ok,
    ensures
        tokenize_spec(w + r, 0) == Ok::<Seq<TokenView>, crate::error::ErrorView>(
            seq![TokenView::Unit(w)] + tokenize_spec(r, 0)->Ok_0,
        ),
{
    let s = w + r;
    assert(s[0] == w[0]);
    assert(skip_ws(s, 0) == 0);
    assert forall|i: int| 0 <= i < w.len() implies is_alpha(#[trigger] s[i]) by {
        assert(s[i] == w[i]);
    }
    lemma_alpha_end_at(s, 0, w.len() as int);
    assert(s.subrange(0, w.len() as int) =~= w);
    assert(next_token_spec(s, 0) == (
        Ok::<TokenView, crate::error::ErrorView>(TokenView::Unit(w)),
        w.len() as int,
    ));
    lemma_tokenize_shift(w, r, 0);
}

/// A colon reads as a colon token.
proof fn lemma_tokenize_colon(r: Seq<char>)
    requires
        tokenize_spec(r, 0) is Ok,
    ensures
        tokenize_spec(seq![':'] + r, 0) == Ok::<Seq<TokenView>, crate::error::ErrorView>(
            seq![TokenView::Colon] + tokenize_spec(r, 0)->Ok_0,
        ),
{
    let s = seq![':'] + r;
    assert(s[0] == ':');
    assert(skip_ws(s, 0) == 0);
    assert(next_token_spec(s, 0) == (
        Ok::<TokenView, crate::error::ErrorView>(TokenView::Colon),
        1int,
    ));
    lemma_tokenize_shift(seq![':'], r, 0);
}

/// The word that a component is written with.
spec fn word(k: UnitKind, v: nat, style: FormatStyle) -> Seq<char> {
    if style == FormatStyle::Long {
        if v == 1 {
            singular_name(k)
        } else {
            plural_name(k)
        }
    } else {
        short_name(k)
    }
}

/// The characters of the unit names.
proof fn lemma_unit_literals()
    ensures
        "ns"@ == seq!['n', 's'],
        "ns"@.len() == 2,
        "nanosecond"@ == seq!['n', 'a', 'n', 'o', 's', 'e', 'c', 'o', 'n', 'd'],
        "nanosecond"@.len() == 10,
        "nanoseconds"@ == seq!['n', 'a', 'n', 'o', 's', 'e', 'c', 'o', 'n', 'd', 's'],
        "nanoseconds"@.len() == 11,
        "us"@ == seq!['u', 's'],
        "us"@.len() == 2,
        "microsecond"@ == seq!['m', 'i', 'c', 'r', 'o', 's', 'e', 'c', 'o', 'n', 'd'],
        "microsecond"@.len() == 11,
        "microseconds"@ == seq!['m', 'i', 'c', 'r', 'o', 's', 'e', 'c', 'o', 'n', 'd', 's'],
        "microseconds"@.len() == 12,
        "ms"@ == seq!['m', 's'],
        "ms"@.len() == 2,
        "millisecond"@ == seq!['m', 'i', 'l', 'l', 'i', 's', 'e', 'c', 'o', 'n', 'd'],
        "millisecond"@.len() == 11,
        "milliseconds"@ == seq!['m', 'i', 'l', 'l', 'i', 's', 'e', 'c', 'o', 'n', 'd', 's'],
        "milliseconds"@.len() == 12,
        "s"@ == seq!['s'],
        "s"@.len() == 1,
        "sec"@ == seq!['s', 'e', 'c'],
        "sec"@.len() == 3,
        "second"@ == seq!['s', 'e', 'c', 'o', 'n', 'd'],
        "second"@.len() == 6,
        "seconds"@ == seq!['s', 'e', 'c', 'o', 'n', 'd', 's'],
        "seconds"@.len() == 7,
        "m"@ == seq!['m'],
        "m"@.len() == 1,
        "min"@ == seq!['m', 'i', 'n'],
        "min"@.len() == 3,
        "minute"@ == seq!['m', 'i', 'n', 'u', 't', 'e'],
        "minute"@.len() == 6,
        "minutes"@ == seq!['m', 'i', 'n', 'u', 't', 'e', 's'],
        "minutes"@.len() == 7,
        "h"@ == seq!['h'],
        "h"@.len() == 1,
        "hr"@ == seq!['h', 'r'],
        "hr"@.len() == 2,
        "hour"@ == seq!['h', 'o', 'u', 'r'],
        "hour"@.len() == 4,
        "hours"@ == seq!['h', 'o', 'u', 'r', 's'],
        "hours"@.len() == 5,
        "d"@ == seq!['d'],
        "d"@.len() == 1,
        "day"@ == seq!['d', 'a', 'y'],
        "day"@.len() == 3,
        "days"@ == seq!['d', 'a', 'y', 's'],
        "days"@.len() == 4,
{
    reveal_strlit("ns");
    reveal_strlit("nanosecond");
    reveal_strlit("nanoseconds");
    reveal_strlit("us");
    reveal_strlit("microsecond");
    reveal_strlit("microseconds");
    reveal_strlit("ms");
    reveal_strlit("millisecond");
    reveal_strlit("milliseconds");
    reveal_strlit("s");
    reveal_strlit("sec");
    reveal_strlit("second");
    reveal_strlit("seconds");
    reveal_strlit("m");
    reveal_strlit("min");
    reveal_strlit("minute");
    reveal_strlit("minutes");
    reveal_strlit("h");
    reveal_strlit("hr");
    reveal_strlit("hour");
    reveal_strlit("hours");
    reveal_strlit("d");
    reveal_strlit("day");
    reveal_strlit("days");
    assert("ns"@ =~= seq!['n', 's']);
    assert("nanosecond"@ =~= seq!['n', 'a', 'n', 'o', 's', 'e', 'c', 'o', 'n', 'd']);
    assert("nanoseconds"@ =~= seq!['n', 'a', 'n', 'o', 's', 'e', 'c', 'o', 'n', 'd', 's']);
    assert("us"@ =~= seq!['u', 's']);
    assert("microsecond"@ =~= seq!['m', 'i', 'c', 'r', 'o', 's', 'e', 'c', 'o', 'n', 'd']);
    assert("microseconds"@ =~= seq!['m', 'i', 'c', 'r', 'o', 's', 'e', 'c', 'o', 'n', 'd', 's']);
    assert("ms"@ =~= seq!['m', 's']);
    assert("millisecond"@ =~= seq!['m', 'i', 'l', 'l', 'i', 's', 'e', 'c', 'o', 'n', 'd']);
    assert("milliseconds"@ =~= seq!['m', 'i', 'l', 'l', 'i', 's', 'e', 'c', 'o', 'n', 'd', 's']);
    assert("s"@ =~= seq!['s']);
    assert("sec"@ =~= seq!['s', 'e', 'c']);
    assert("second"@ =~= seq!['s', 'e', 'c', 'o', 'n', 'd']);
    assert("seconds"@ =~= seq!['s', 'e', 'c', 'o', 'n', 'd', 's']);
    assert("m"@ =~= seq!['m']);
    assert("min"@ =~= seq!['m', 'i', 'n']);
    assert("minute"@ =~= seq!['m', 'i', 'n', 'u', 't', 'e']);
    assert("minutes"@ =~= seq!['m', 'i', 'n', 'u', 't', 'e', 's']);
    assert("h"@ =~= seq!['h']);
    assert("hr"@ =~= seq!['h', 'r']);
    assert("hour"@ =~= seq!['h', 'o', 'u', 'r']);
    assert("hours"@ =~= seq!['h', 'o', 'u', 'r', 's']);
    assert("d"@ =~= seq!['d']);
    assert("day"@ =~= seq!['d', 'a', 'y']);
    assert("days"@ =~= seq!['d', 'a', 'y', 's']);
}

/// Every name a unit is written with is a lowercase word that the parser
/// reads as that unit.
proof fn lemma_unit_word(k: UnitKind, v: nat, style: FormatStyle)
    ensures
        lowercase_word(word(k, v, style)),
        unit_kind(word(k, v, style)) == Some(k),
        normalize_spec(word(k, v, style)) == canonical(k),
{
    lemma_unit_literals();
    let w = word(k, v, style);
    assert(lowercase_word(w));
    lemma_lower_of_lowercase_word(w);
    match k {
        UnitKind::Nanos => {
            assert(unit_kind("ns"@) == Some(k));
            assert(unit_kind("nanosecond"@) == Some(k));
            assert(unit_kind("nanoseconds"@) == Some(k));
        },
        UnitKind::Micros => {
            assert(unit_kind("us"@) == Some(k));
            assert(unit_kind("microsecond"@) == Some(k));
            assert(unit_kind("microseconds"@) == Some(k));
        },
        UnitKind::Millis => {
            assert(unit_kind("ms"@) == Some(k));
            assert(unit_kind("millisecond"@) == Some(k));
            assert(unit_kind("milliseconds"@) == Some(k));
        },
        UnitKind::Secs => {
            assert(unit_kind("s"@) == Some(k));
            assert(unit_kind("second"@) == Some(k));
            assert(unit_kind("seconds"@) == Some(k));
        },
        UnitKind::Mins => {
            assert("m"@[0] != "s"@[0]);
            assert(unit_kind("m"@) == Some(k));
            assert(unit_kind("minute"@) == Some(k));
            assert(unit_kind("minutes"@) == Some(k));
        },
        UnitKind::Hours => {
            assert("h"@[0] != "s"@[0]);
            assert("h"@[0] != "m"@[0]);
            assert(unit_kind("h"@) == Some(k));
            assert(unit_kind("hour"@) == Some(k));
            assert(unit_kind("hours"@) == Some(k));
        },
        UnitKind::Days => {
            assert("d"@[0] != "s"@[0]);
            assert("d"@[0] != "m"@[0]);
            assert("d"@[0] != "h"@[0]);
            assert(unit_kind("d"@) == Some(k));
            assert(unit_kind("day"@) == Some(k));
            assert(unit_kind("days"@) == Some(k));
        },
    }
}

/// Distinct kinds of unit have distinct canonical names.
/// The tokens that the text of a list of components reads as.
spec fn component_tokens(cs: Seq<(UnitKind, nat)>, style: FormatStyle) -> Seq<TokenView>
    decreases cs.len(),
{
    if cs.len() == 0 {
        seq![TokenView::Eof]
    } else {
        seq![
            TokenView::Number(cs[0].1 as u64),
            TokenView::Unit(word(cs[0].0, cs[0].1, style)),
        ] + component_tokens(cs.drop_first(), style)
    }
}

/// Every count fits in a `u64`.
spec fn counts_fit(cs: Seq<(UnitKind, nat)>) -> bool {
    forall|i: int| 0 <= i < cs.len() ==> #[trigger] cs[i].1 <= u64::MAX
}

proof fn lemma_empty_tokenizes()
    ensures
        tokenize_spec(Seq::empty(), 0) == Ok::<Seq<TokenView>, crate::error::ErrorView>(
            seq![TokenView::Eof],
        ),
{
    assert(skip_ws(Seq::<char>::empty(), 0) == 0);
}

/// The text of one component reads as its number, then its unit word.
proof fn lemma_tokenize_component(k: UnitKind, v: nat, style: FormatStyle, r: Seq<char>)
    requires
        style != FormatStyle::Clock,
        v <= u64::MAX,
        r.len() == 0 || !is_alpha(r[0]),
        tokenize_spec(r, 0) is Ok,
    ensures
        tokenize_spec(unit_text(k, v, style) + r, 0) == Ok::<
            Seq<TokenView>,
            crate::error::ErrorView,
        >(
            seq![TokenView::Number(v as u64), TokenView::Unit(word(k, v, style))] + tokenize_spec(
                r,
                0,
            )->Ok_0,
        ),
{
    lemma_dec(v);
    lemma_unit_word(k, v, style);
    let w = word(k, v, style);
    let rest = tokenize_spec(r, 0)->Ok_0;
    lemma_tokenize_word(w, r);
    assert((w + r)[0] == w[0]);
    if style == FormatStyle::Long {
        let r2 = seq![' '] + (w + r);
        lemma_tokenize_after_ws(seq![' '], w + r);
        assert(r2[0] == ' ');
        lemma_tokenize_number(dec(v), r2);
        assert(unit_text(k, v, style) + r =~= dec(v) + r2);
    } else {
        lemma_tokenize_number(dec(v), w + r);
        assert(unit_text(k, v, style) + r =~= dec(v) + (w + r));
    }
    assert(seq![TokenView::Number(v as u64)] + (seq![TokenView::Unit(w)] + rest) =~= seq![
        TokenView::Number(v as u64),
        TokenView::Unit(w),
    ] + rest);
}

/// A join of two or more texts is the first, a separator, and the join of the rest.
proof fn lemma_join_front(list: Seq<Seq<char>>, sep: Seq<char>)
    requires
        list.len() >= 2,
    ensures
        join(list, sep) == list[0] + sep + join(list.drop_first(), sep),
    decreases list.len(),
{
    let dl = list.drop_last();
    let df = list.drop_first();
    assert(join(list, sep) == join(dl, sep) + sep + list.last());
    if list.len() == 2 {
        assert(join(dl, sep) == dl[0]);
        assert(join(df, sep) == df[0]);
        assert(df[0] == list.last());
    } else {
        lemma_join_front(dl, sep);
        assert(dl.drop_first() =~= df.drop_last());
        assert(df.last() == list.last());
        assert(join(df, sep) == join(df.drop_last(), sep) + sep + df.last());
        assert(list[0] + sep + join(df, sep) =~= list[0] + sep + join(dl.drop_first(), sep) + sep
            + list.last());
    }
}

/// The text of a nonempty list of components starts with a digit.
proof fn lemma_join_first(cs: Seq<(UnitKind, nat)>, style: FormatStyle)
    requires
        cs.len() >= 1,
        style != FormatStyle::Clock,
    ensures
        join(component_texts(cs, style), separator(style)).len() > 0,
        ascii_digit(join(component_texts(cs, style), separator(style))[0]),
{
    let texts = component_texts(cs, style);
    lemma_dec(cs[0].1);
    assert(texts[0] == unit_text(cs[0].0, cs[0].1, style));
    assert(texts[0][0] == dec(cs[0].1)[0]);
    if cs.len() >= 2 {
        lemma_join_front(texts, separator(style));
    }
}

/// The text of a nonempty list of components reads as its tokens.
proof fn lemma_tokenize_join(cs: Seq<(UnitKind, nat)>, style: FormatStyle)
    requires
        cs.len() >= 1,
        style != FormatStyle::Clock,
        counts_fit(cs),
    ensures
        tokenize_spec(join(component_texts(cs, style), separator(style)), 0) == Ok::<
            Seq<TokenView>,
            crate::error::ErrorView,
        >(component_tokens(cs, style)),
    decreases cs.len(),
{
    let texts = component_texts(cs, style);
    let sep = separator(style);
    assert(cs[0].1 <= u64::MAX);
    assert(texts[0] == unit_text(cs[0].0, cs[0].1, style));
    if cs.len() == 1 {
        lemma_empty_tokenizes();
        lemma_tokenize_component(cs[0].0, cs[0].1, style, Seq::empty());
        assert(texts[0] + Seq::<char>::empty() =~= texts[0]);
        assert(join(texts, sep) == texts[0]);
        assert(component_tokens(cs.drop_first(), style) == seq![TokenView::Eof]);
    } else {
        let rest = cs.drop_first();
        assert(texts.drop_first() =~= component_texts(rest, style));
        assert(counts_fit(rest)) by {
            assert forall|i: int| 0 <= i < rest.len() implies #[trigger] rest[i].1 <= u64::MAX by {
                assert(rest[i] == cs[i + 1]);
            }
        }
        lemma_tokenize_join(rest, style);
        lemma_join_first(rest, style);
        lemma_join_front(texts, sep);
        let j = join(component_texts(rest, style), sep);
        let r = sep + j;
        if style == FormatStyle::Compact {
            assert(r =~= j);
        } else {
            lemma_tokenize_after_ws(seq![' '], j);
            assert(r[0] == ' ');
        }
        lemma_tokenize_component(cs[0].0, cs[0].1, style, r);
        assert(texts[0] + sep + j =~= texts[0] + r);
    }
}

/// The order in which components are written, largest unit first.
spec fn rank(k: UnitKind) -> nat {
    match k {
        UnitKind::Days => 0,
        UnitKind::Hours => 1,
        UnitKind::Mins => 2,
        UnitKind::Secs => 3,
        UnitKind::Millis => 4,
        UnitKind::Micros => 5,
        UnitKind::Nanos => 6,
    }
}

spec fn ranks_increase(cs: Seq<(UnitKind, nat)>) -> bool {
    forall|i: int, j: int| 0 <= i < j < cs.len() ==> rank(#[trigger] cs[i].0) < rank(#[trigger] cs[j].0)
}

/// Every count, turned into seconds first where the parser does so, fits in a `u64`.
spec fn counts_in_range(cs: Seq<(UnitKind, nat)>) -> bool {
    forall|i: int| 0 <= i < cs.len() ==> #[trigger] cs[i].1 * secs_per_unit(cs[i].0) <= u64::MAX
}

/// The components as the parser collects them carry the counts and unit
/// words of `cs`.
spec fn corresponds(ps: Seq<(u64, Seq<char>, int)>, cs: Seq<(UnitKind, nat)>, style: FormatStyle) -> bool {
    &&& ps.len() == cs.len()
    &&& forall|j: int|
        0 <= j < cs.len() ==> (#[trigger] ps[j]).0 == cs[j].1 as u64 && ps[j].1 == word(
            cs[j].0,
            cs[j].1,
            style,
        )
}

/// The length of a list of components, in nanoseconds.
spec fn total_of(cs: Seq<(UnitKind, nat)>) -> nat
    decreases cs.len(),
{
    if cs.len() == 0 {
        0
    } else {
        kind_nanos(cs[0].0, cs[0].1) + total_of(cs.drop_first())
    }
}

proof fn lemma_scan_shift(
    pre: Seq<TokenView>,
    t: Seq<TokenView>,
    st: Seq<int>,
    i: nat,
    seen: Seq<Seq<char>>,
)
    requires
        st.len() >= pre.len(),
    ensures
        scan_units(pre + t, st, pre.len() + i, seen) == scan_units(
            t,
            st.skip(pre.len() as int),
            i,
            seen,
        ),
    decreases t.len() - i,
{
    if i < t.len() {
        assert((pre + t)[pre.len() + i as int] == t[i as int]);
        assert(token_at(pre + t, pre.len() + i + 1int) == token_at(t, i + 1int));
        assert(start_at(st, pre.len() + i + 1int) == start_at(
            st.skip(pre.len() as int),
            i + 1int,
        ));
        match t[i as int] {
            TokenView::Number(v) => match token_at(t, i + 1int) {
                TokenView::Unit(u) => {
                    lemma_scan_shift(pre, t, st, i + 2, seen.push(normalize_spec(u)));
                },
                _ => {},
            },
            _ => {},
        }
    }
}

/// The tokens of components scan back into the components, none of them
/// a duplicate.
proof fn lemma_scan_components(
    cs: Seq<(UnitKind, nat)>,
    style: FormatStyle,
    st: Seq<int>,
    seen: Seq<Seq<char>>,
)
    requires
        ranks_increase(cs),
        st.len() == component_tokens(cs, style).len(),
        forall|j: int| 0 <= j < cs.len() ==> !seen.contains(canonical(#[trigger] cs[j].0)),
    ensures
        scan_units(component_tokens(cs, style), st, 0, seen) matches Ok(ps) && corresponds(
            ps,
            cs,
            style,
        ),
    decreases cs.len(),
{
    let t = component_tokens(cs, style);
    if cs.len() == 0 {
        assert(t[0] == TokenView::Eof);
    } else {
        let (k, v) = cs[0];
        let w = word(k, v, style);
        let rest = cs.drop_first();
        let pre = seq![TokenView::Number(v as u64), TokenView::Unit(w)];
        lemma_unit_word(k, v, style);
        assert(t == pre + component_tokens(rest, style));
        assert(t[0] == TokenView::Number(v as u64));
        assert(token_at(t, 1) == TokenView::Unit(w));
        let seen2 = seen.push(canonical(k));
        assert(!seen.contains(canonical(cs[0].0)));
        assert(ranks_increase(rest)) by {
            assert forall|i: int, j: int| 0 <= i < j < rest.len() implies rank(
                #[trigger] rest[i].0,
            ) < rank(#[trigger] rest[j].0) by {
                assert(rest[i] == cs[i + 1]);
                assert(rest[j] == cs[j + 1]);
            }
        }
        assert forall|j: int| 0 <= j < rest.len() implies !seen2.contains(
            canonical(#[trigger] rest[j].0),
        ) by {
            assert(rest[j] == cs[j + 1]);
            assert(rank(cs[0].0) < rank(cs[j + 1].0));
            lemma_canonical_distinct(k, rest[j].0);
            assert(!seen.contains(canonical(cs[j + 1].0)));
            if seen2.contains(canonical(rest[j].0)) {
                let x = choose|x: int| 0 <= x < seen2.len() && seen2[x] == canonical(rest[j].0);
                if x < seen.len() {
                    assert(seen[x] == seen2[x]);
                }
            }
        }
        let st2 = st.skip(2);
        lemma_scan_components(rest, style, st2, seen2);
        lemma_scan_shift(pre, component_tokens(rest, style), st, 0, seen2);
        let ps_rest = scan_units(component_tokens(rest, style), st2, 0, seen2)->Ok_0;
        let ps = seq![(v as u64, w, start_at(st, 1))] + ps_rest;
        assert(scan_units(t, st, 0, seen) == Ok::<Seq<(u64, Seq<char>, int)>, crate::error::ErrorView>(ps));
        assert forall|j: int| 0 <= j < cs.len() implies (#[trigger] ps[j]).0 == cs[j].1 as u64
            && ps[j].1 == word(cs[j].0, cs[j].1, style) by {
            if j > 0 {
                assert(ps[j] == ps_rest[j - 1]);
                assert(rest[j - 1] == cs[j]);
            }
        }
    }
}

/// The parser adds up the components of a text to their length.
proof fn lemma_sum_components(
    cs: Seq<(UnitKind, nat)>,
    style: FormatStyle,
    ps: Seq<(u64, Seq<char>, int)>,
    i: nat,
    acc: nat,
)
    requires
        i <= cs.len(),
        corresponds(ps, cs, style),
        counts_fit(cs),
        counts_in_range(cs),
        acc + total_of(cs.skip(i as int)) <= max_total_nanos(),
    ensures
        sum_from(ps, i, acc) == Ok::<nat, crate::error::ErrorView>(
            acc + total_of(cs.skip(i as int)),
        ),
    decreases cs.len() - i,
{
    if i < cs.len() {
        let (k, v) = cs[i as int];
        let w = word(k, v, style);
        lemma_unit_word(k, v, style);
        lemma_lower_of_lowercase_word(w);
        assert(v <= u64::MAX);
        assert(v * secs_per_unit(k) <= u64::MAX);
        assert(ps[i as int].0 == v as u64 && ps[i as int].1 == w);
        assert(component_nanos(v as u64, w, ps[i as int].2) == Ok::<nat, crate::error::ErrorView>(
            kind_nanos(k, v),
        ));
        assert(cs.skip(i as int).drop_first() =~= cs.skip(i + 1int));
        assert(cs.skip(i as int)[0] == cs[i as int]);
        lemma_sum_components(cs, style, ps, i + 1, acc + kind_nanos(k, v));
    } else {
        assert(cs.skip(i as int).len() == 0);
    }
}

proof fn lemma_total_push(a: Seq<(UnitKind, nat)>, x: (UnitKind, nat))
    ensures
        total_of(a.push(x)) == total_of(a) + kind_nanos(x.0, x.1),
    decreases a.len(),
{
    if a.len() > 0 {
        assert(a.push(x).drop_first() =~= a.drop_first().push(x));
        lemma_total_push(a.drop_first(), x);
    } else {
        assert(a.push(x).drop_first() =~= Seq::<(UnitKind, nat)>::empty());
        assert(total_of(Seq::<(UnitKind, nat)>::empty()) == 0);
    }
}

/// The components are in order, each of a unit ranked below `bound`, and in range.
spec fn ordered(cs: Seq<(UnitKind, nat)>, bound: int) -> bool {
    &&& ranks_increase(cs)
    &&& forall|i: int| 0 <= i < cs.len() ==> rank(#[trigger] cs[i].0) < bound
    &&& counts_fit(cs)
    &&& counts_in_range(cs)
}

/// Appending a component of a smaller unit keeps the list in order, in
/// range, and adds its length.
proof fn lemma_append_optional(a: Seq<(UnitKind, nat)>, present: bool, k: UnitKind, v: nat)
    requires
        ordered(a, rank(k) as int),
        v * secs_per_unit(k) <= u64::MAX,
    ensures
        ordered(a + optional(present, (k, v)), rank(k) + 1int),
        total_of(a + optional(present, (k, v))) == total_of(a) + (if present {
            kind_nanos(k, v)
        } else {
            0
        }),
{
    let b = a + optional(present, (k, v));
    if present {
        assert(b =~= a.push((k, v)));
        lemma_total_push(a, (k, v));
        assert(b[a.len() as int] == (k, v));
        assert(v <= u64::MAX);
    } else {
        assert(b =~= a);
    }
}

/// Days, hours, minutes and seconds of `secs` add back up to it.
proof fn lemma_split_secs(secs: nat)
    ensures
        secs == (secs / 86400) * 86400 + ((secs % 86400) / 3600) * 3600 + ((secs % 3600) / 60)
            * 60 + secs % 60,
        (secs / 60) * 60 == (secs / 86400) * 86400 + ((secs % 86400) / 3600) * 3600 + ((secs
            % 3600) / 60) * 60,
        (secs / 3600) * 3600 == (secs / 86400) * 86400 + ((secs % 86400) / 3600) * 3600,
        (secs % 86400) / 3600 < 24,
        (secs % 3600) / 60 < 60,
{
    assert((secs % 86400) % 3600 == secs % 3600) by (nonlinear_arith);
    assert((secs % 3600) % 60 == secs % 60) by (nonlinear_arith);
    assert((secs / 3600) == (secs / 86400) * 24 + (secs % 86400) / 3600) by (nonlinear_arith);
    assert((secs / 60) == (secs / 3600) * 60 + (secs % 3600) / 60) by (nonlinear_arith);
}

proof fn lemma_shown_days_hours(days: nat, hours: nat)
    requires
        days * 86400 <= u64::MAX,
        hours < 24,
    ensures
        ({
            let s2 = Seq::empty() + optional(days > 0, (UnitKind::Days, days)) + optional(
                hours > 0,
                (UnitKind::Hours, hours),
            );
            &&& ordered(s2, 2)
            &&& total_of(s2) == days * 86400 * nanos_per_sec() + hours * 3600 * nanos_per_sec()
        }),
{
    let s0: Seq<(UnitKind, nat)> = Seq::empty();
    assert(total_of(s0) == 0);
    lemma_append_optional(s0, days > 0, UnitKind::Days, days);
    let s1 = s0 + optional(days > 0, (UnitKind::Days, days));
    lemma_append_optional(s1, hours > 0, UnitKind::Hours, hours);
}

proof fn lemma_shown_minutes_seconds(
    s2: Seq<(UnitKind, nat)>,
    minutes: nat,
    seconds: nat,
    p: Precision,
)
    requires
        ordered(s2, 2),
        minutes < 60,
        seconds < 60,
    ensures
        ({
            let s4 = s2 + optional(minutes > 0 && p != Precision::Hours, (UnitKind::Mins, minutes))
                + optional(
                seconds > 0 && (p == Precision::Full || p == Precision::Seconds),
                (UnitKind::Secs, seconds),
            );
            &&& ordered(s4, 4)
            &&& total_of(s4) == total_of(s2) + (if p != Precision::Hours {
                minutes * 60 * nanos_per_sec()
            } else {
                0
            }) + (if p == Precision::Full || p == Precision::Seconds {
                seconds * nanos_per_sec()
            } else {
                0
            })
        }),
{
    let c3 = minutes > 0 && p != Precision::Hours;
    lemma_append_optional(s2, c3, UnitKind::Mins, minutes);
    let s3 = s2 + optional(c3, (UnitKind::Mins, minutes));
    let c4 = seconds > 0 && (p == Precision::Full || p == Precision::Seconds);
    lemma_append_optional(s3, c4, UnitKind::Secs, seconds);
}

proof fn lemma_shown_subseconds(
    s4: Seq<(UnitKind, nat)>,
    millis: nat,
    micros: nat,
    ns: nat,
    p: Precision,
)
    requires
        ordered(s4, 4),
        millis < 1000,
        micros < 1000,
        ns < 1000,
    ensures
        ({
            let s7 = s4 + optional(millis > 0 && p == Precision::Full, (UnitKind::Millis, millis))
                + optional(micros > 0 && p == Precision::Full, (UnitKind::Micros, micros))
                + optional(ns > 0 && p == Precision::Full, (UnitKind::Nanos, ns));
            &&& ordered(s7, 7)
            &&& total_of(s7) == total_of(s4) + (if p == Precision::Full {
                millis * 1_000_000 + micros * 1000 + ns
            } else {
                0
            })
        }),
{
    let c5 = millis > 0 && p == Precision::Full;
    lemma_append_optional(s4, c5, UnitKind::Millis, millis);
    let s5 = s4 + optional(c5, (UnitKind::Millis, millis));
    let c6 = micros > 0 && p == Precision::Full;
    lemma_append_optional(s5, c6, UnitKind::Micros, micros);
    let s6 = s5 + optional(c6, (UnitKind::Micros, micros));
    let c7 = ns > 0 && p == Precision::Full;
    lemma_append_optional(s6, c7, UnitKind::Nanos, ns);
}

/// The components a formatter shows are in order, in range, and add up to
/// what the precision keeps of the duration.
#[verifier::rlimit(30)]
proof fn lemma_shown_components(secs: nat, nanos: nat, p: Precision, style: FormatStyle)
    requires
        secs <= u64::MAX,
        nanos < 1_000_000_000,
        style != FormatStyle::Clock,
    ensures
        ({
            let cs = shown_components(secs, nanos, p);
            &&& ranks_increase(cs)
            &&& counts_fit(cs)
            &&& counts_in_range(cs)
            &&& total_of(cs) == shown_nanos(secs, nanos, style, p)
            &&& total_of(cs) <= max_total_nanos()
        }),
{
    let days = secs / 86400;
    let hours = (secs % 86400) / 3600;
    let minutes = (secs % 3600) / 60;
    let seconds = secs % 60;
    let millis = nanos / 1_000_000;
    let micros = (nanos % 1_000_000) / 1000;
    let ns = nanos % 1000;
    lemma_split_secs(secs);
    lemma_shown_days_hours(days, hours);
    let s2 = Seq::empty() + optional(days > 0, (UnitKind::Days, days)) + optional(
        hours > 0,
        (UnitKind::Hours, hours),
    );
    lemma_shown_minutes_seconds(s2, minutes, seconds, p);
    let s4 = s2 + optional(minutes > 0 && p != Precision::Hours, (UnitKind::Mins, minutes))
        + optional(
        seconds > 0 && (p == Precision::Full || p == Precision::Seconds),
        (UnitKind::Secs, seconds),
    );
    lemma_shown_subseconds(s4, millis, micros, ns, p);
    assert(nanos == millis * 1_000_000 + micros * 1000 + ns);
    let n = nanos_per_sec();
    assert(secs * n == days * 86400 * n + hours * 3600 * n + minutes * 60 * n + seconds * n)
        by (nonlinear_arith)
        requires
            secs == days * 86400 + hours * 3600 + minutes * 60 + seconds,
    ;
    assert((secs / 60) * 60 * n == days * 86400 * n + hours * 3600 * n + minutes * 60 * n)
        by (nonlinear_arith)
        requires
            (secs / 60) * 60 == days * 86400 + hours * 3600 + minutes * 60,
    ;
    assert((secs / 3600) * 3600 * n == days * 86400 * n + hours * 3600 * n) by (nonlinear_arith)
        requires
            (secs / 3600) * 3600 == days * 86400 + hours * 3600,
    ;
    assert(secs * n + nanos <= max_total_nanos()) by (nonlinear_arith)
        requires
            secs <= u64::MAX,
            nanos < 1_000_000_000,
            n == 1_000_000_000,
    ;
}

proof fn lemma_no_colon(cs: Seq<(UnitKind, nat)>, style: FormatStyle)
    ensures
        !has_colon(component_tokens(cs, style)),
    decreases cs.len(),
{
    let t = component_tokens(cs, style);
    if cs.len() > 0 {
        lemma_no_colon(cs.drop_first(), style);
        let rest = component_tokens(cs.drop_first(), style);
        assert forall|i: int| 0 <= i < t.len() implies !(#[trigger] t[i] is Colon) by {
            if i >= 2 {
                assert(t[i] == rest[i - 2]);
            }
        }
    }
}

/// A text without whitespace at either end is read whole, from its start.
proof fn lemma_content_full(s: Seq<char>)
    requires
        s.len() > 0,
        !is_ws(s[0]),
        !is_ws(s.last()),
    ensures
        skip_ws(s, 0) == 0,
        trim_end(s) == s.len(),
        content(s) == s,
{
    assert(skip_ws(s, 0) == 0);
    assert(trim_end(s) == s.len());
    assert(s.take(s.len() as int) =~= s);
}

/// The text of a nonempty list of components ends with a letter.
proof fn lemma_join_last(cs: Seq<(UnitKind, nat)>, style: FormatStyle)
    requires
        cs.len() >= 1,
        style != FormatStyle::Clock,
    ensures
        join(component_texts(cs, style), separator(style)).len() > 0,
        lowercase_word(seq![join(component_texts(cs, style), separator(style)).last()]),
{
    let texts = component_texts(cs, style);
    let (k, v) = cs.last();
    lemma_unit_word(k, v, style);
    let w = word(k, v, style);
    assert(texts.last() == unit_text(k, v, style));
    assert(unit_text(k, v, style).last() == w.last());
    if cs.len() >= 2 {
        assert(join(texts, separator(style)) == join(texts.drop_last(), separator(style))
            + separator(style) + texts.last());
    }
}

/// A nonempty list of components, written and read back, gives its length.
proof fn lemma_parse_components(cs: Seq<(UnitKind, nat)>, style: FormatStyle)
    requires
        cs.len() >= 1,
        style != FormatStyle::Clock,
        ranks_increase(cs),
        counts_fit(cs),
        counts_in_range(cs),
        total_of(cs) <= max_total_nanos(),
    ensures
        parse_spec(join(component_texts(cs, style), separator(style))) == Ok::<
            nat,
            crate::error::ErrorView,
        >(total_of(cs)),
{
    let text = join(component_texts(cs, style), separator(style));
    lemma_join_first(cs, style);
    lemma_join_last(cs, style);
    assert(seq![text.last()][0] == text.last());
    lemma_content_full(text);
    lemma_tokenize_join(cs, style);
    lemma_no_colon(cs, style);
    let toks = component_tokens(cs, style);
    let st = token_starts(text, 0);
    lemma_starts_len(text, 0);
    lemma_scan_components(cs, style, st, Seq::empty());
    let ps = scan_units(toks, st, 0, Seq::empty())->Ok_0;
    assert(cs.skip(0) =~= cs);
    lemma_sum_components(cs, style, ps, 0, 0);
    assert(parse_tokens_spec(toks, st, 0) == unit_based_spec(toks, st, 0));
}

/// The text of a duration with nothing to show reads as zero seconds.
proof fn lemma_zero_text(style: FormatStyle)
    requires
        style != FormatStyle::Clock,
    ensures
        zero_text(style) == join(
            component_texts(seq![(UnitKind::Secs, 0nat)], style),
            separator(style),
        ),
{
    reveal_strlit("0s");
    reveal_strlit("0 seconds");
    reveal_strlit("s");
    reveal_strlit("seconds");
    let z = seq![(UnitKind::Secs, 0nat)];
    assert(dec(0) =~= seq!['0']);
    assert(join(component_texts(z, style), separator(style)) == unit_text(
        UnitKind::Secs,
        0,
        style,
    ));
    assert(zero_text(style) =~= unit_text(UnitKind::Secs, 0, style));
}

/// The clock text of a duration reads back as its whole seconds.
proof fn lemma_parse_clock(secs: nat)
    requires
        secs <= u64::MAX,
    ensures
        parse_spec(clock_text(secs)) == Ok::<nat, crate::error::ErrorView>(
            secs * nanos_per_sec(),
        ),
{
    let h = secs / 3600;
    let m = (secs % 3600) / 60;
    let sec = secs % 60;
    lemma_split_secs(secs);
    assert(secs == h * 3600 + m * 60 + sec) by (nonlinear_arith)
        requires
            secs == (secs / 86400) * 86400 + ((secs % 86400) / 3600) * 3600 + ((secs % 3600) / 60)
                * 60 + secs % 60,
            (secs / 3600) * 3600 == (secs / 86400) * 86400 + ((secs % 86400) / 3600) * 3600,
            h == secs / 3600,
            m == (secs % 3600) / 60,
            sec == secs % 60,
    ;
    lemma_pad2(h);
    lemma_pad2(m);
    lemma_pad2(sec);
    lemma_empty_tokenizes();
    let ps = pad2(sec);
    let pm = pad2(m);
    let ph = pad2(h);
    assert(ps + Seq::<char>::empty() =~= ps);
    lemma_tokenize_number(ps, Seq::empty());
    let r1 = seq![':'] + ps;
    lemma_tokenize_colon(ps);
    assert(r1[0] == ':');
    lemma_tokenize_number(pm, r1);
    let r2 = pm + r1;
    let t2 = seq![
        TokenView::Number(m as u64),
        TokenView::Colon,
        TokenView::Number(sec as u64),
        TokenView::Eof,
    ];
    assert(tokenize_spec(r2, 0)->Ok_0 =~= t2);
    let text = clock_text(secs);
    assert(ps.last() == text.last());
    assert(ascii_digit(ps[ps.len() - 1]));
    if h > 0 {
        let r3 = seq![':'] + r2;
        lemma_tokenize_colon(r2);
        assert(r3[0] == ':');
        lemma_tokenize_number(ph, r3);
        assert(text =~= ph + r3);
        let t = seq![
            TokenView::Number(h as u64),
            TokenView::Colon,
            TokenView::Number(m as u64),
            TokenView::Colon,
            TokenView::Number(sec as u64),
            TokenView::Eof,
        ];
        assert(tokenize_spec(text, 0)->Ok_0 =~= t);
        assert(text[0] == ph[0]);
        lemma_content_full(text);
        assert(t[1] is Colon);
        assert(has_colon(t));
        assert(clock_parts(t, 5, false) == Ok::<Seq<u64>, crate::error::ErrorView>(Seq::empty()));
        assert(seq![sec as u64] + Seq::<u64>::empty() =~= seq![sec as u64]);
        assert(clock_parts(t, 4, true) == Ok::<Seq<u64>, crate::error::ErrorView>(
            seq![sec as u64],
        ));
        assert(clock_parts(t, 3, false) == Ok::<Seq<u64>, crate::error::ErrorView>(
            seq![sec as u64],
        ));
        assert(seq![m as u64] + seq![sec as u64] =~= seq![m as u64, sec as u64]);
        assert(clock_parts(t, 2, true) == Ok::<Seq<u64>, crate::error::ErrorView>(
            seq![m as u64, sec as u64],
        ));
        assert(clock_parts(t, 1, false) == Ok::<Seq<u64>, crate::error::ErrorView>(
            seq![m as u64, sec as u64],
        ));
        assert(seq![h as u64] + seq![m as u64, sec as u64] =~= seq![h as u64, m as u64, sec as u64]);
        assert(clock_parts(t, 0, true) == Ok::<Seq<u64>, crate::error::ErrorView>(
            seq![h as u64, m as u64, sec as u64],
        ));
        assert(clock_numbers(t, 5) == Ok::<Seq<u64>, crate::error::ErrorView>(Seq::empty()));
        assert(seq![sec as u64] + Seq::<u64>::empty() =~= seq![sec as u64]);
        assert(clock_numbers(t, 4) == Ok::<Seq<u64>, crate::error::ErrorView>(
            seq![sec as u64],
        ));
        assert(clock_numbers(t, 3) == Ok::<Seq<u64>, crate::error::ErrorView>(
            seq![sec as u64],
        ));
        assert(seq![m as u64] + seq![sec as u64] =~= seq![m as u64, sec as u64]);
        assert(clock_numbers(t, 2) == Ok::<Seq<u64>, crate::error::ErrorView>(
            seq![m as u64, sec as u64],
        ));
        assert(clock_numbers(t, 1) == Ok::<Seq<u64>, crate::error::ErrorView>(
            seq![m as u64, sec as u64],
        ));
        assert(seq![h as u64] + seq![m as u64, sec as u64] =~= seq![h as u64, m as u64, sec as u64]);
        assert(clock_numbers(t, 0) == Ok::<Seq<u64>, crate::error::ErrorView>(
            seq![h as u64, m as u64, sec as u64],
        ));
        assert(clock_seconds(seq![h as u64, m as u64, sec as u64]) == Ok::<
            nat,
            crate::error::ErrorView,
        >(secs));
    } else {
        assert(text =~= r2);
        assert(text[0] == pm[0]);
        lemma_content_full(text);
        let t = t2;
        assert(t[1] is Colon);
        assert(has_colon(t));
        assert(clock_parts(t, 3, false) == Ok::<Seq<u64>, crate::error::ErrorView>(Seq::empty()));
        assert(seq![sec as u64] + Seq::<u64>::empty() =~= seq![sec as u64]);
        assert(clock_parts(t, 2, true) == Ok::<Seq<u64>, crate::error::ErrorView>(
            seq![sec as u64],
        ));
        assert(clock_parts(t, 1, false) == Ok::<Seq<u64>, crate::error::ErrorView>(
            seq![sec as u64],
        ));
        assert(seq![m as u64] + seq![sec as u64] =~= seq![m as u64, sec as u64]);
        assert(clock_parts(t, 0, true) == Ok::<Seq<u64>, crate::error::ErrorView>(
            seq![m as u64, sec as u64],
        ));
        assert(clock_numbers(t, 3) == Ok::<Seq<u64>, crate::error::ErrorView>(Seq::empty()));
        assert(seq![sec as u64] + Seq::<u64>::empty() =~= seq![sec as u64]);
        assert(clock_numbers(t, 2) == Ok::<Seq<u64>, crate::error::ErrorView>(
            seq![sec as u64],
        ));
        assert(clock_numbers(t, 1) == Ok::<Seq<u64>, crate::error::ErrorView>(
            seq![sec as u64],
        ));
        assert(seq![m as u64] + seq![sec as u64] =~= seq![m as u64, sec as u64]);
        assert(clock_numbers(t, 0) == Ok::<Seq<u64>, crate::error::ErrorView>(
            seq![m as u64, sec as u64],
        ));
        assert(clock_seconds(seq![m as u64, sec as u64]) == Ok::<nat, crate::error::ErrorView>(
            secs,
        ));
    }
}

/// The minutes of a two-part clock are not limited to 59: `M:S`, written in
/// decimal with fewer than sixty seconds, reads as `M * 60 + S` seconds for
/// every `M`, while that fits in a `u64`.
pub proof fn law_two_part_clock_reads_total(m: nat, s: nat)
    requires
        s < 60,
        m * 60 + s <= u64::MAX,
    ensures
        parse_spec(dec(m) + seq![':'] + dec(s)) == Ok::<nat, crate::error::ErrorView>(
            (m * 60 + s) * nanos_per_sec(),
        ),
{
    lemma_dec(m);
    lemma_dec(s);
    lemma_empty_tokenizes();
    let ps = dec(s);
    let pm = dec(m);
    assert(ps + Seq::<char>::empty() =~= ps);
    lemma_tokenize_number(ps, Seq::empty());
    let r1 = seq![':'] + ps;
    lemma_tokenize_colon(ps);
    assert(r1[0] == ':');
    lemma_tokenize_number(pm, r1);
    let text = pm + r1;
    assert(dec(m) + seq![':'] + dec(s) =~= text);
    let t = seq![
        TokenView::Number(m as u64),
        TokenView::Colon,
        TokenView::Number(s as u64),
        TokenView::Eof,
    ];
    assert(tokenize_spec(text, 0)->Ok_0 =~= t);
    assert(text[0] == pm[0]);
    assert(text.last() == ps.last());
    assert(ascii_digit(ps[ps.len() - 1]));
    lemma_content_full(text);
    assert(t[1] is Colon);
    assert(has_colon(t));
    assert(seq![s as u64] + Seq::<u64>::empty() =~= seq![s as u64]);
    assert(seq![m as u64] + seq![s as u64] =~= seq![m as u64, s as u64]);
    assert(clock_parts(t, 3, false) == Ok::<Seq<u64>, crate::error::ErrorView>(Seq::empty()));
    assert(clock_parts(t, 2, true) == Ok::<Seq<u64>, crate::error::ErrorView>(seq![s as u64]));
    assert(clock_parts(t, 1, false) == Ok::<Seq<u64>, crate::error::ErrorView>(seq![s as u64]));
    assert(clock_parts(t, 0, true) == Ok::<Seq<u64>, crate::error::ErrorView>(
        seq![m as u64, s as u64],
    ));
    assert(clock_numbers(t, 3) == Ok::<Seq<u64>, crate::error::ErrorView>(Seq::empty()));
    assert(clock_numbers(t, 2) == Ok::<Seq<u64>, crate::error::ErrorView>(seq![s as u64]));
    assert(clock_numbers(t, 1) == Ok::<Seq<u64>, crate::error::ErrorView>(seq![s as u64]));
    assert(clock_numbers(t, 0) == Ok::<Seq<u64>, crate::error::ErrorView>(
        seq![m as u64, s as u64],
    ));
    assert(clock_seconds(seq![m as u64, s as u64]) == Ok::<nat, crate::error::ErrorView>(
        m * 60 + s,
    ));
}

/// Parsing what a formatter writes gives back the duration as far as the
/// style and precision show it: everything at full precision, whole seconds,
/// minutes or hours at the lower precisions, and whole seconds in the clock
/// style.
pub proof fn law_parse_reads_back_format(secs: u64, nanos: u32, style: FormatStyle, p: Precision)
    requires
        nanos < 1_000_000_000,
    ensures
        parse_spec(format_text(secs as nat, nanos as nat, style, p)) == Ok::<
            nat,
            crate::error::ErrorView,
        >(shown_nanos(secs as nat, nanos as nat, style, p)),
{
    if style == FormatStyle::Clock {
        lemma_parse_clock(secs as nat);
    } else {
        lemma_shown_components(secs as nat, nanos as nat, p, style);
        let cs = shown_components(secs as nat, nanos as nat, p);
        if cs.len() == 0 {
            let z = seq![(UnitKind::Secs, 0nat)];
            lemma_zero_text(style);
            assert(z.drop_first() =~= Seq::<(UnitKind, nat)>::empty());
            assert(total_of(Seq::<(UnitKind, nat)>::empty()) == 0);
            assert(total_of(z) == 0);
            assert(total_of(cs) == 0);
            lemma_parse_components(z, style);
        } else {
            lemma_parse_components(cs, style);
        }
    }
}

} // verus!
