//! Joining two unit-based expressions with a space between them: when they
//! share no unit, the joined expression stands for the sum of their lengths.

use vstd::prelude::*;

use crate::duration::max_total_nanos;
use crate::error::ErrorView;
use crate::parse::grammar::{
    component_nanos, content, has_colon, kind_nanos, lemma_trim_end_bounds, normalize_spec,
    parse_spec, parse_tokens_spec, scan_units, start_at, sum_from, token_at, trim_end,
    unit_based_spec, unit_kind,
};
use crate::parse::tokens::{
    alpha_end, digit_end, lemma_alpha_end_bounds, lemma_digit_end_bounds,
    lemma_next_token_advances, lemma_skip_ws_bounds, lemma_skip_ws_shift, lemma_tokenize_shift,
    next_token_spec, skip_ws, token_starts, tokenize_spec, TokenView,
};
use crate::text::{ascii_digit, is_alpha, is_ws, lower};

verus! {

proof fn lemma_skip_ws_extend(s: Seq<char>, r: Seq<char>, p: int)
    requires
        0 <= p <= s.len(),
    ensures
        skip_ws(s, p) < s.len() ==> skip_ws(s + r, p) == skip_ws(s, p),
        skip_ws(s, p) >= s.len() ==> skip_ws(s + r, p) == skip_ws(s + r, s.len() as int),
    decreases s.len() - p,
{
    if p < s.len() {
        assert((s + r)[p] == s[p]);
        if is_ws(s[p]) {
            lemma_skip_ws_extend(s, r, p + 1);
        }
    }
}

/// Whitespace from `p` up to `e` is skipped over.
proof fn lemma_skip_ws_over(s: Seq<char>, p: int, e: int)
    requires
        0 <= p <= e <= s.len(),
        forall|k: int| p <= k < e ==> is_ws(#[trigger] s[k]),
    ensures
        skip_ws(s, p) == skip_ws(s, e),
    decreases e - p,
{
    if p < e {
        lemma_skip_ws_over(s, p + 1, e);
    }
}

proof fn lemma_digit_end_extend(s: Seq<char>, r: Seq<char>, p: int)
    requires
        0 <= p <= s.len(),
        r.len() > 0 ==> !ascii_digit(r[0]),
    ensures
        digit_end(s + r, p) == digit_end(s, p),
    decreases s.len() - p,
{
    if p < s.len() {
        assert((s + r)[p] == s[p]);
        if ascii_digit(s[p]) {
            lemma_digit_end_extend(s, r, p + 1);
        }
    } else if r.len() > 0 {
        assert((s + r)[p] == r[0]);
    }
}

proof fn lemma_alpha_end_extend(s: Seq<char>, r: Seq<char>, p: int)
    requires
        0 <= p <= s.len(),
        r.len() > 0 ==> !is_alpha(r[0]),
    ensures
        alpha_end(s + r, p) == alpha_end(s, p),
    decreases s.len() - p,
{
    if p < s.len() {
        assert((s + r)[p] == s[p]);
        if is_alpha(s[p]) {
            lemma_alpha_end_extend(s, r, p + 1);
        }
    } else if r.len() > 0 {
        assert((s + r)[p] == r[0]);
    }
}

/// Characters that begin with neither a digit nor a letter, placed after the
/// input, leave a token that starts inside it as it is.
proof fn lemma_next_token_extend(s: Seq<char>, r: Seq<char>, p: int)
    requires
        0 <= p <= s.len(),
        skip_ws(s, p) < s.len(),
        r.len() > 0 ==> !ascii_digit(r[0]) && !is_alpha(r[0]),
    ensures
        next_token_spec(s + r, p) == next_token_spec(s, p),
{
    lemma_skip_ws_extend(s, r, p);
    lemma_skip_ws_bounds(s, p);
    let q = skip_ws(s, p);
    assert((s + r)[q] == s[q]);
    lemma_digit_end_extend(s, r, q);
    lemma_alpha_end_extend(s, r, q);
    lemma_digit_end_bounds(s, q);
    lemma_alpha_end_bounds(s, q);
    assert((s + r).subrange(q, digit_end(s, q)) =~= s.subrange(q, digit_end(s, q)));
    assert((s + r).subrange(q, alpha_end(s, q)) =~= s.subrange(q, alpha_end(s, q)));
}

/// Tokenizing depends on where it starts only through the first position
/// that holds no whitespace.
proof fn lemma_tokenize_same_start(s: Seq<char>, p1: int, p2: int)
    requires
        skip_ws(s, p1) == skip_ws(s, p2),
    ensures
        tokenize_spec(s, p1) == tokenize_spec(s, p2),
{
    assert(next_token_spec(s, p1) == next_token_spec(s, p2));
}

/// A successful tokenization ends with its only `Eof`, and has no colon
/// where the input has none.
proof fn lemma_tokens_shape(s: Seq<char>, p: int)
    requires
        0 <= p,
        tokenize_spec(s, p) is Ok,
    ensures
        ({
            let t = tokenize_spec(s, p)->Ok_0;
            &&& t.len() >= 1
            &&& t.last() == TokenView::Eof
            &&& forall|i: int| 0 <= i < t.len() - 1 ==> !(#[trigger] t[i] is Eof)
            &&& (forall|k: int| 0 <= k < s.len() ==> s[k] != ':') ==> forall|i: int|
                0 <= i < t.len() ==> !(#[trigger] t[i] is Colon)
        }),
    decreases s.len() - p,
{
    lemma_next_token_advances(s, p);
    lemma_skip_ws_bounds(s, p);
    let (r, q) = next_token_spec(s, p);
    match r {
        Ok(TokenView::Eof) => {},
        Ok(tok) => {
            lemma_tokens_shape(s, q);
            let rest = tokenize_spec(s, q)->Ok_0;
            let t = seq![tok] + rest;
            assert(tokenize_spec(s, p)->Ok_0 == t);
            assert forall|i: int| 0 < i < t.len() implies #[trigger] t[i] == rest[i - 1] by {}
            assert(t.last() == rest.last());
        },
        Err(_) => {},
    }
}

/// Characters that begin with neither a digit nor a letter, placed after the
/// input, leave its tokens as they are; tokenizing then goes on from the end
/// of the input.
proof fn lemma_tokenize_extend(s: Seq<char>, r: Seq<char>, p: int)
    requires
        0 <= p <= s.len(),
        tokenize_spec(s, p) is Ok,
        r.len() > 0 ==> !ascii_digit(r[0]) && !is_alpha(r[0]),
    ensures
        tokenize_spec(s + r, p) == match tokenize_spec(s + r, s.len() as int) {
            Ok(rest) => Ok(tokenize_spec(s, p)->Ok_0.drop_last() + rest),
            Err(e) => Err::<Seq<TokenView>, ErrorView>(e),
        },
    decreases s.len() - p,
{
    lemma_skip_ws_bounds(s, p);
    lemma_skip_ws_extend(s, r, p);
    if skip_ws(s, p) >= s.len() {
        lemma_skip_ws_bounds(s + r, s.len() as int);
        lemma_tokenize_same_start(s + r, p, s.len() as int);
        match tokenize_spec(s + r, s.len() as int) {
            Ok(rest) => {
                assert(seq![TokenView::Eof].drop_last() + rest =~= rest);
            },
            Err(_) => {},
        }
    } else {
        lemma_next_token_extend(s, r, p);
        lemma_next_token_advances(s, p);
        let (t, q) = next_token_spec(s, p);
        let tok = t->Ok_0;
        lemma_tokenize_extend(s, r, q);
        lemma_tokens_shape(s, q);
        let rest_s = tokenize_spec(s, q)->Ok_0;
        assert((seq![tok] + rest_s).drop_last() =~= seq![tok] + rest_s.drop_last());
        match tokenize_spec(s + r, s.len() as int) {
            Ok(rest) => {
                assert(seq![tok] + (rest_s.drop_last() + rest) =~= seq![tok] + rest_s.drop_last()
                    + rest);
            },
            Err(_) => {},
        }
    }
}

/// The components without where their units start.
spec fn strip(cs: Seq<(u64, Seq<char>, int)>) -> Seq<(u64, Seq<char>)> {
    cs.map_values(|c: (u64, Seq<char>, int)| (c.0, c.1))
}

spec fn strip_result(r: Result<Seq<(u64, Seq<char>, int)>, ErrorView>) -> Result<
    Seq<(u64, Seq<char>)>,
    ErrorView,
> {
    match r {
        Ok(cs) => Ok(strip(cs)),
        Err(e) => Err(e),
    }
}

/// The normalized units of the components.
spec fn names(cs: Seq<(u64, Seq<char>, int)>) -> Seq<Seq<char>> {
    cs.map_values(|c: (u64, Seq<char>, int)| normalize_spec(c.1))
}

/// Scanning the tokens that follow others is scanning them alone, but for
/// where their units start.
proof fn lemma_scan_shift(
    x: Seq<TokenView>,
    tb: Seq<TokenView>,
    st2: Seq<int>,
    st3: Seq<int>,
    k: nat,
    seen: Seq<Seq<char>>,
)
    ensures
        strip_result(scan_units(x + tb, st2, x.len() + k, seen)) == strip_result(
            scan_units(tb, st3, k, seen),
        ),
    decreases tb.len() - k,
{
    let t = x + tb;
    if k < tb.len() {
        assert(t[x.len() + k as int] == tb[k as int]);
        assert(token_at(t, x.len() + k + 1int) == token_at(tb, k + 1int));
        match tb[k as int] {
            TokenView::Number(v) => match token_at(tb, k + 1int) {
                TokenView::Unit(u) => {
                    let n = normalize_spec(u);
                    if !seen.contains(n) {
                        lemma_scan_shift(x, tb, st2, st3, k + 2, seen.push(n));
                        assert((x.len() + k + 2) as nat == x.len() + (k + 2));
                        match scan_units(tb, st3, k + 2, seen.push(n)) {
                            Ok(r3) => {
                                let r2 = scan_units(t, st2, x.len() + (k + 2), seen.push(n))->Ok_0;
                                let p2 = start_at(st2, x.len() + k + 1int);
                                let p3 = start_at(st3, k + 1int);
                                assert(strip(seq![(v, u, p2)] + r2) =~= seq![(v, u)] + strip(r2));
                                assert(strip(seq![(v, u, p3)] + r3) =~= seq![(v, u)] + strip(r3));
                            },
                            Err(_) => {},
                        }
                    }
                },
                _ => {},
            },
            _ => {},
        }
    }
}

/// Scanning tokens `x` followed by `tb` is scanning `x` and then `tb`, with
/// the units of `x` counted as seen; every unit of `x`'s components is
/// written in `x`.
proof fn lemma_scan_concat(
    x: Seq<TokenView>,
    tb: Seq<TokenView>,
    st1: Seq<int>,
    st2: Seq<int>,
    st3: Seq<int>,
    i: nat,
    seen: Seq<Seq<char>>,
)
    requires
        i <= x.len(),
        forall|j: int| 0 <= j < x.len() ==> !(#[trigger] x[j] is Eof),
        scan_units(x.push(TokenView::Eof), st1, i, seen) is Ok,
    ensures
        ({
            let c1 = scan_units(x.push(TokenView::Eof), st1, i, seen)->Ok_0;
            &&& strip_result(scan_units(x + tb, st2, i, seen)) == match scan_units(
                tb,
                st3,
                0,
                seen + names(c1),
            ) {
                Ok(r) => Ok(strip(c1) + strip(r)),
                Err(e) => Err::<Seq<(u64, Seq<char>)>, ErrorView>(e),
            }
            &&& forall|j: int|
                0 <= j < c1.len() ==> exists|k: int|
                    i <= k < x.len() && x[k] == TokenView::Unit(#[trigger] c1[j].1)
        }),
    decreases x.len() - i,
{
    let ta = x.push(TokenView::Eof);
    let c1 = scan_units(ta, st1, i, seen)->Ok_0;
    if i == x.len() {
        assert(ta[i as int] == TokenView::Eof);
        assert(c1 =~= Seq::<(u64, Seq<char>, int)>::empty());
        assert(seen + names(c1) =~= seen);
        lemma_scan_shift(x, tb, st2, st3, 0, seen);
        assert(x.len() + 0nat == i);
        match scan_units(tb, st3, 0, seen) {
            Ok(r) => {
                assert(strip(c1) + strip(r) =~= strip(r));
            },
            Err(_) => {},
        }
    } else {
        let t = x + tb;
        assert(ta[i as int] == x[i as int]);
        assert(t[i as int] == x[i as int]);
        let v = x[i as int]->Number_0;
        if i + 1 == x.len() {
            assert(token_at(ta, i + 1int) == TokenView::Eof);
        }
        assert(i + 1 < x.len());
        assert(token_at(ta, i + 1int) == x[i + 1int]);
        assert(token_at(t, i + 1int) == x[i + 1int]);
        let u = x[i + 1int]->Unit_0;
        let n = normalize_spec(u);
        let seen2 = seen.push(n);
        lemma_scan_concat(x, tb, st1, st2, st3, i + 2, seen2);
        let c1r = scan_units(ta, st1, i + 2, seen2)->Ok_0;
        let p1 = start_at(st1, i + 1int);
        assert(c1 == seq![(v, u, p1)] + c1r);
        assert(names(c1) =~= seq![n] + names(c1r));
        assert(seen + names(c1) =~= seen2 + names(c1r));
        match scan_units(tb, st3, 0, seen2 + names(c1r)) {
            Ok(r) => {
                let r2 = scan_units(t, st2, i + 2, seen2)->Ok_0;
                let p2 = start_at(st2, i + 1int);
                assert(strip(seq![(v, u, p2)] + r2) =~= seq![(v, u)] + strip(r2));
                assert(strip(c1) =~= seq![(v, u)] + strip(c1r));
                assert(seq![(v, u)] + (strip(c1r) + strip(r)) =~= seq![(v, u)] + strip(c1r)
                    + strip(r));
            },
            Err(_) => {},
        }
        assert forall|j: int| 0 <= j < c1.len() implies exists|k: int|
            i <= k < x.len() && x[k] == TokenView::Unit(#[trigger] c1[j].1) by {
            if j == 0 {
                assert(x[i + 1int] == TokenView::Unit(c1[0].1));
            } else {
                assert(c1[j] == c1r[j - 1]);
                let k = choose|k: int| i + 2 <= k < x.len() && x[k] == TokenView::Unit(
                    #[trigger] c1r[j - 1].1,
                );
                assert(x[k] == TokenView::Unit(c1[j].1));
            }
        }
    }
}

proof fn lemma_contains_add(a: Seq<Seq<char>>, b: Seq<Seq<char>>, n: Seq<char>)
    ensures
        (a + b).contains(n) <==> a.contains(n) || b.contains(n),
{
    if (a + b).contains(n) {
        let i = choose|i: int| 0 <= i < (a + b).len() && (a + b)[i] == n;
        if i >= a.len() {
            assert(b[i - a.len()] == n);
        }
    }
    if a.contains(n) {
        let i = choose|i: int| 0 <= i < a.len() && a[i] == n;
        assert((a + b)[i] == n);
    }
    if b.contains(n) {
        let i = choose|i: int| 0 <= i < b.len() && b[i] == n;
        assert((a + b)[a.len() + i] == n);
    }
}

/// Units counted as seen that no unit of the tokens matches change nothing.
proof fn lemma_scan_seen_extra(
    tb: Seq<TokenView>,
    st: Seq<int>,
    k: nat,
    extra: Seq<Seq<char>>,
    seen: Seq<Seq<char>>,
)
    requires
        forall|m: int|
            k <= m < tb.len() ==> (#[trigger] tb[m] matches TokenView::Unit(w) ==> !extra.contains(
                normalize_spec(w),
            )),
    ensures
        scan_units(tb, st, k, extra + seen) == scan_units(tb, st, k, seen),
    decreases tb.len() - k,
{
    if k < tb.len() {
        match tb[k as int] {
            TokenView::Number(v) => match token_at(tb, k + 1int) {
                TokenView::Unit(w) => {
                    assert(tb[k + 1int] == TokenView::Unit(w));
                    let n = normalize_spec(w);
                    lemma_contains_add(extra, seen, n);
                    assert((extra + seen).push(n) =~= extra + seen.push(n));
                    lemma_scan_seen_extra(tb, st, k + 2, extra, seen.push(n));
                },
                _ => {},
            },
            _ => {},
        }
    }
}

/// The length in nanoseconds of one component whose unit is known.
spec fn pair_nanos(c: (u64, Seq<char>)) -> nat {
    match unit_kind(lower(c.1)) {
        Some(k) => kind_nanos(k, c.0 as nat),
        None => 0,
    }
}

/// The total length of the components from `i` on.
spec fn total_from(ps: Seq<(u64, Seq<char>)>, i: nat) -> nat
    decreases ps.len() - i,
{
    if i >= ps.len() {
        0
    } else {
        pair_nanos(ps[i as int]) + total_from(ps, i + 1)
    }
}

proof fn lemma_total_shift(p1: Seq<(u64, Seq<char>)>, p2: Seq<(u64, Seq<char>)>, k: nat)
    ensures
        total_from(p1 + p2, p1.len() + k) == total_from(p2, k),
    decreases p2.len() - k,
{
    if k < p2.len() {
        assert((p1 + p2)[p1.len() + k as int] == p2[k as int]);
        lemma_total_shift(p1, p2, k + 1);
        assert(p1.len() + k + 1 == p1.len() + (k + 1));
    }
}

proof fn lemma_total_add(p1: Seq<(u64, Seq<char>)>, p2: Seq<(u64, Seq<char>)>, i: nat)
    requires
        i <= p1.len(),
    ensures
        total_from(p1 + p2, i) == total_from(p1, i) + total_from(p2, 0),
    decreases p1.len() - i,
{
    if i < p1.len() {
        assert((p1 + p2)[i as int] == p1[i as int]);
        lemma_total_add(p1, p2, i + 1);
    } else {
        lemma_total_shift(p1, p2, 0);
        assert(p1.len() + 0nat == i);
    }
}

/// Every component from `i` on stands for a length.
spec fn components_valid(cs: Seq<(u64, Seq<char>, int)>, i: nat) -> bool {
    forall|j: int| i <= j < cs.len() ==> #[trigger] component_nanos(cs[j].0, cs[j].1, cs[j].2) is Ok
}

proof fn lemma_sum_valid(cs: Seq<(u64, Seq<char>, int)>, i: nat, acc: nat)
    requires
        sum_from(cs, i, acc) is Ok,
    ensures
        components_valid(cs, i),
    decreases cs.len() - i,
{
    if i < cs.len() {
        let n = component_nanos(cs[i as int].0, cs[i as int].1, cs[i as int].2)->Ok_0;
        lemma_sum_valid(cs, i + 1, acc + n);
    }
}

/// Adding up valid components gives their total, or an overflow where it
/// exceeds the longest duration.
proof fn lemma_sum_value(cs: Seq<(u64, Seq<char>, int)>, i: nat, acc: nat)
    requires
        components_valid(cs, i),
        acc <= max_total_nanos(),
    ensures
        sum_from(cs, i, acc) == if acc + total_from(strip(cs), i) <= max_total_nanos() {
            Ok::<nat, ErrorView>(acc + total_from(strip(cs), i))
        } else {
            Err(ErrorView::DurationOverflow)
        },
    decreases cs.len() - i,
{
    if i < cs.len() {
        assert(component_nanos(cs[i as int].0, cs[i as int].1, cs[i as int].2) is Ok);
        assert(strip(cs)[i as int] == (cs[i as int].0, cs[i as int].1));
        let n = pair_nanos(strip(cs)[i as int]);
        if acc + n <= max_total_nanos() {
            lemma_sum_value(cs, i + 1, acc + n);
        }
    }
}

proof fn lemma_trim_end_append(x: Seq<char>, y: Seq<char>)
    requires
        trim_end(y) > 0,
    ensures
        trim_end(x + y) == x.len() + trim_end(y),
    decreases y.len(),
{
    assert((x + y).last() == y.last());
    if is_ws(y.last()) {
        assert((x + y).drop_last() =~= x + y.drop_last());
        lemma_trim_end_append(x, y.drop_last());
    }
}

/// Everything after the content of `s` is whitespace.
proof fn lemma_trim_end_tail(s: Seq<char>)
    ensures
        forall|k: int| trim_end(s) <= k < s.len() ==> is_ws(#[trigger] s[k]),
    decreases s.len(),
{
    if s.len() > 0 && is_ws(s.last()) {
        lemma_trim_end_tail(s.drop_last());
        lemma_trim_end_bounds(s.drop_last());
        assert forall|k: int| trim_end(s) <= k < s.len() implies is_ws(#[trigger] s[k]) by {
            if k < s.len() - 1 {
                assert(s[k] == s.drop_last()[k]);
            }
        }
    }
}

/// The normalized unit that token `i` writes, if it is a unit.
pub open spec fn unit_name_at(t: Seq<TokenView>, i: int) -> Option<Seq<char>> {
    if 0 <= i < t.len() {
        match t[i] {
            TokenView::Unit(u) => Some(normalize_spec(u)),
            _ => None,
        }
    } else {
        None
    }
}

/// The tokens that an input is read as; none where it cannot be tokenized.
pub open spec fn tokens_of(s: Seq<char>) -> Seq<TokenView> {
    match tokenize_spec(content(s), skip_ws(s, 0)) {
        Ok(t) => t,
        Err(_) => Seq::empty(),
    }
}

/// No unit written among the tokens `ta` counts as the same unit as one
/// written among the tokens `tb`.
pub open spec fn share_no_unit(ta: Seq<TokenView>, tb: Seq<TokenView>) -> bool {
    forall|i: int, j: int|
        #![trigger unit_name_at(ta, i), unit_name_at(tb, j)]
        unit_name_at(ta, i) is Some ==> unit_name_at(ta, i) != unit_name_at(tb, j)
}

/// Two unit-based expressions that share no unit, joined by a space, stand
/// for the sum of their lengths, or overflow where the sum exceeds the
/// longest duration; so the order of components does not matter.
pub proof fn law_joined_lengths_add(a: Seq<char>, b: Seq<char>)
    requires
        !a.contains(':'),
        !b.contains(':'),
        parse_spec(a) is Ok,
        parse_spec(b) is Ok,
        share_no_unit(tokens_of(a), tokens_of(b)),
    ensures
        parse_spec(a + seq![' '] + b) == ({
            let sum = parse_spec(a)->Ok_0 + parse_spec(b)->Ok_0;
            if sum <= max_total_nanos() {
                Ok::<nat, ErrorView>(sum)
            } else {
                Err(ErrorView::DurationOverflow)
            }
        }),
{
    let sa = skip_ws(a, 0);
    let ea = trim_end(a);
    let ca_s = content(a);
    let sb = skip_ws(b, 0);
    let eb = trim_end(b);
    let cb_s = content(b);
    lemma_trim_end_bounds(a);
    lemma_trim_end_bounds(b);
    lemma_skip_ws_bounds(a, 0);
    lemma_skip_ws_bounds(b, 0);
    let ta = tokenize_spec(ca_s, sa)->Ok_0;
    let tb = tokenize_spec(cb_s, sb)->Ok_0;
    let sta = token_starts(ca_s, sa);
    let stb = token_starts(cb_s, sb);
    assert forall|k: int| 0 <= k < ca_s.len() implies ca_s[k] != ':' by {
        if ca_s[k] == ':' {
            assert(a[k] == ':');
        }
    }
    assert forall|k: int| 0 <= k < cb_s.len() implies cb_s[k] != ':' by {
        if cb_s[k] == ':' {
            assert(b[k] == ':');
        }
    }
    lemma_tokens_shape(ca_s, sa);
    lemma_tokens_shape(cb_s, sb);
    assert(!has_colon(ta));
    assert(!has_colon(tb));
    let x = parse_spec(a)->Ok_0;
    let y = parse_spec(b)->Ok_0;
    assert(unit_based_spec(ta, sta, 0) == Ok::<nat, ErrorView>(x));
    assert(unit_based_spec(tb, stb, 0) == Ok::<nat, ErrorView>(y));
    // Where the joined input is read.
    let pa = a + seq![' '];
    let j = pa + b;
    lemma_trim_end_append(pa, b);
    assert(j =~= a + (seq![' '] + b));
    lemma_skip_ws_extend(a, seq![' '] + b, 0);
    let cj = content(j);
    assert(cj =~= pa + cb_s);
    let r = a.subrange(ea, a.len() as int) + seq![' '] + cb_s;
    assert(cj =~= ca_s + r);
    lemma_trim_end_tail(a);
    if ea < a.len() {
        assert(r[0] == a[ea]);
        assert(is_ws(a[ea]));
    } else {
        assert(r[0] == ' ');
    }
    lemma_tokenize_extend(ca_s, r, sa);
    // The tokens after the first expression are those of the second.
    assert forall|k: int| ea <= k < pa.len() implies is_ws(#[trigger] cj[k]) by {
        if k < a.len() {
            assert(cj[k] == a[k]);
        } else {
            assert(cj[k] == ' ');
        }
    }
    lemma_skip_ws_over(cj, ea, pa.len() as int);
    lemma_skip_ws_shift(pa, cb_s, 0);
    assert(b =~= cb_s + b.subrange(eb, b.len() as int));
    lemma_skip_ws_extend(cb_s, b.subrange(eb, b.len() as int), 0);
    lemma_skip_ws_bounds(b, eb);
    lemma_skip_ws_bounds(cb_s, 0);
    assert(skip_ws(cb_s, 0) == sb);
    lemma_skip_ws_shift(pa, cb_s, sb);
    assert(skip_ws(cb_s, sb) == sb);
    lemma_tokenize_same_start(cj, ea, pa.len() + sb);
    lemma_tokenize_shift(pa, cb_s, sb);
    let big = ta.drop_last() + tb;
    assert(tokenize_spec(cj, sa) == Ok::<Seq<TokenView>, ErrorView>(big));
    let stc = token_starts(cj, sa);
    assert(parse_spec(j) == parse_tokens_spec(big, stc, 0));
    assert forall|i: int| 0 <= i < big.len() implies !(#[trigger] big[i] is Colon) by {
        if i < ta.len() - 1 {
            assert(big[i] == ta[i]);
        } else {
            assert(big[i] == tb[i - (ta.len() - 1)]);
        }
    }
    assert(!has_colon(big));
    // The components of the joined input are those of each expression.
    let xs = ta.drop_last();
    assert(xs.push(TokenView::Eof) =~= ta);
    let ca = scan_units(ta, sta, 0, Seq::empty())->Ok_0;
    lemma_scan_concat(xs, tb, sta, stc, stb, 0, Seq::empty());
    assert(Seq::<Seq<char>>::empty() + names(ca) =~= names(ca));
    assert(names(ca) + Seq::<Seq<char>>::empty() =~= names(ca));
    assert(tokens_of(a) == ta);
    assert(tokens_of(b) == tb);
    assert forall|m: int| 0 <= m < tb.len() implies (#[trigger] tb[m] matches TokenView::Unit(w)
        ==> !names(ca).contains(normalize_spec(w))) by {
        if tb[m] is Unit {
            let w = tb[m]->Unit_0;
            if names(ca).contains(normalize_spec(w)) {
                let jj = choose|jj: int|
                    0 <= jj < names(ca).len() && names(ca)[jj] == normalize_spec(w);
                assert(names(ca)[jj] == normalize_spec(ca[jj].1));
                let k = choose|k: int|
                    0 <= k < xs.len() && xs[k] == TokenView::Unit(#[trigger] ca[jj].1);
                assert(ta[k] == xs[k]);
                assert(unit_name_at(ta, k) == Some(normalize_spec(ca[jj].1)));
                assert(unit_name_at(tb, m) == Some(normalize_spec(w)));
                assert(false);
            }
        }
    }
    lemma_scan_seen_extra(tb, stb, 0, names(ca), Seq::empty());
    let cb = scan_units(tb, stb, 0, Seq::empty())->Ok_0;
    let cc = scan_units(big, stc, 0, Seq::empty())->Ok_0;
    assert(strip(cc) == strip(ca) + strip(cb));
    // Their lengths add up.
    lemma_sum_valid(ca, 0, 0);
    lemma_sum_valid(cb, 0, 0);
    lemma_sum_value(ca, 0, 0);
    lemma_sum_value(cb, 0, 0);
    assert forall|jj: int| 0 <= jj < cc.len() implies #[trigger] component_nanos(
        cc[jj].0,
        cc[jj].1,
        cc[jj].2,
    ) is Ok by {
        assert(strip(cc)[jj] == (cc[jj].0, cc[jj].1));
        if jj < ca.len() {
            assert(strip(cc)[jj] == strip(ca)[jj]);
            assert(component_nanos(ca[jj].0, ca[jj].1, ca[jj].2) is Ok);
        } else {
            let jb = jj - ca.len();
            assert(strip(cc)[jj] == strip(cb)[jb]);
            assert(component_nanos(cb[jb].0, cb[jb].1, cb[jb].2) is Ok);
        }
    }
    lemma_sum_value(cc, 0, 0);
    lemma_total_add(strip(ca), strip(cb), 0);
    assert(cc.len() > 0);
}

} // verus!
