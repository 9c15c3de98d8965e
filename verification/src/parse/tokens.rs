//! Tokenization of duration strings.

use vstd::prelude::*;

use crate::error::{shift_position, Error, ErrorView};
use crate::text::{
    ascii_digit, char_is_alpha, char_is_digit, char_is_ws, chars_of, digits_value, is_alpha, is_ws,
    string_of,
};

verus! {

/// A token in a duration expression.
#[derive(Debug, Clone, PartialEq, Eq)]
pub enum Token {
    /// A numeric value (e.g., "123", "45")
    Number(u64),
    /// A time unit (e.g., "h", "min", "seconds")
    Unit(String),
    /// A colon separator for clock format
    Colon,
    /// End of input
    Eof,
}

/// The mathematical content of a [`Token`].
pub enum TokenView {
    Number(u64),
    Unit(Seq<char>),
    Colon,
    Eof,
}

impl View for Token {
    type V = TokenView;

    open spec fn view(&self) -> TokenView {
        match self {
            Token::Number(n) => TokenView::Number(*n),
            Token::Unit(u) => TokenView::Unit(u@),
            Token::Colon => TokenView::Colon,
            Token::Eof => TokenView::Eof,
        }
    }
}

pub open spec fn tokens_view(v: Seq<Token>) -> Seq<TokenView> {
    v.map_values(|t: Token| t@)
}

/// The first position at or after `p` that holds no whitespace (or the end).
pub open spec fn skip_ws(s: Seq<char>, p: int) -> int
    decreases s.len() - p,
{
    if 0 <= p < s.len() && is_ws(s[p]) {
        skip_ws(s, p + 1)
    } else {
        p
    }
}

/// The end of the run of ASCII digits that starts at `p`.
pub open spec fn digit_end(s: Seq<char>, p: int) -> int
    decreases s.len() - p,
{
    if 0 <= p < s.len() && ascii_digit(s[p]) {
        digit_end(s, p + 1)
    } else {
        p
    }
}

/// The end of the run of alphabetic characters that starts at `p`.
pub open spec fn alpha_end(s: Seq<char>, p: int) -> int
    decreases s.len() - p,
{
    if 0 <= p < s.len() && is_alpha(s[p]) {
        alpha_end(s, p + 1)
    } else {
        p
    }
}

/// Why a run of digits that exceeds `u64::MAX` is no number.
pub open spec fn overflow_reason() -> Seq<char> {
    "number too large to fit in target type"@
}

/// The token that starts at `p` (after skipping whitespace), with the
/// position after it; on an error, the position where the tokenizer stops.
pub open spec fn next_token_spec(s: Seq<char>, p: int) -> (Result<TokenView, ErrorView>, int) {
    let q = skip_ws(s, p);
    if q < 0 || q >= s.len() {
        (Ok(TokenView::Eof), q)
    } else if s[q] == ':' {
        (Ok(TokenView::Colon), q + 1)
    } else if ascii_digit(s[q]) {
        let e = digit_end(s, q);
        let digits = s.subrange(q, e);
        if digits_value(digits) <= u64::MAX {
            (Ok(TokenView::Number(digits_value(digits) as u64)), e)
        } else {
            (
                Err(
                    ErrorView::InvalidNumber {
                        value: digits,
                        position: q as nat,
                        reason: overflow_reason(),
                    },
                ),
                e,
            )
        }
    } else if is_alpha(s[q]) {
        let e = alpha_end(s, q);
        (Ok(TokenView::Unit(s.subrange(q, e))), e)
    } else {
        (Err(ErrorView::InvalidCharacter { character: s[q], position: q as nat }), q)
    }
}

/// All tokens from position `p` on, ending with `Eof`, or the first error.
pub open spec fn tokenize_spec(s: Seq<char>, p: int) -> Result<Seq<TokenView>, ErrorView>
    decreases s.len() - p,
    via tokenize_spec_decreases
{
    let (r, q) = next_token_spec(s, p);
    match r {
        Err(e) => Err(e),
        Ok(TokenView::Eof) => Ok(seq![TokenView::Eof]),
        Ok(t) => match tokenize_spec(s, q) {
            Ok(rest) => Ok(seq![t] + rest),
            Err(e) => Err(e),
        },
    }
}

/// Where each token from position `p` on starts, once whitespace before it
/// is skipped; it ends where tokenizing fails.
pub open spec fn token_starts(s: Seq<char>, p: int) -> Seq<int>
    decreases s.len() - p,
    via token_starts_decreases
{
    let (r, q) = next_token_spec(s, p);
    match r {
        Err(_) => Seq::empty(),
        Ok(TokenView::Eof) => seq![skip_ws(s, p)],
        Ok(_) => seq![skip_ws(s, p)] + token_starts(s, q),
    }
}

/// A tokenization result with the position of its error moved `k` later.
pub open spec fn shift_tokens_result(r: Result<Seq<TokenView>, ErrorView>, k: nat) -> Result<
    Seq<TokenView>,
    ErrorView,
> {
    match r {
        Ok(t) => Ok(t),
        Err(e) => Err(shift_position(e, k)),
    }
}

pub open spec fn starts_view(v: Seq<usize>) -> Seq<int> {
    v.map_values(|i: usize| i as int)
}

pub open spec fn shift_starts(st: Seq<int>, k: int) -> Seq<int> {
    st.map_values(|i: int| i + k)
}

pub proof fn lemma_skip_ws_bounds(s: Seq<char>, p: int)
    requires
        0 <= p,
    ensures
        p <= skip_ws(s, p),
        p <= s.len() ==> skip_ws(s, p) <= s.len(),
        skip_ws(s, p) < s.len() ==> !is_ws(s[skip_ws(s, p)]),
    decreases s.len() - p,
{
    if 0 <= p < s.len() && is_ws(s[p]) {
        lemma_skip_ws_bounds(s, p + 1);
    }
}

pub proof fn lemma_digit_end_bounds(s: Seq<char>, p: int)
    requires
        0 <= p <= s.len(),
    ensures
        p <= digit_end(s, p) <= s.len(),
        p < s.len() && ascii_digit(s[p]) ==> p < digit_end(s, p),
    decreases s.len() - p,
{
    if 0 <= p < s.len() && ascii_digit(s[p]) {
        lemma_digit_end_bounds(s, p + 1);
    }
}

pub proof fn lemma_alpha_end_bounds(s: Seq<char>, p: int)
    requires
        0 <= p <= s.len(),
    ensures
        p <= alpha_end(s, p) <= s.len(),
        p < s.len() && is_alpha(s[p]) ==> p < alpha_end(s, p),
    decreases s.len() - p,
{
    if 0 <= p < s.len() && is_alpha(s[p]) {
        lemma_alpha_end_bounds(s, p + 1);
    }
}

/// A token other than `Eof` lies inside the input and takes at least one character.
pub proof fn lemma_next_token_advances(s: Seq<char>, p: int)
    requires
        0 <= p,
    ensures
        ({
            let (r, q) = next_token_spec(s, p);
            &&& p <= s.len() ==> q <= s.len()
            &&& p <= q
            &&& (r matches Ok(t) && !(t is Eof)) ==> p < q <= s.len()
        }),
{
    lemma_skip_ws_bounds(s, p);
    let q = skip_ws(s, p);
    if 0 <= q < s.len() {
        lemma_digit_end_bounds(s, q);
        lemma_alpha_end_bounds(s, q);
    }
}

#[via_fn]
proof fn tokenize_spec_decreases(s: Seq<char>, p: int) {
    if p >= 0 {
        lemma_next_token_advances(s, p);
    } else {
        lemma_next_token_advances(s, 0);
        lemma_skip_ws_bounds(s, 0);
    }
}

#[via_fn]
proof fn token_starts_decreases(s: Seq<char>, p: int) {
    if p >= 0 {
        lemma_next_token_advances(s, p);
    } else {
        lemma_next_token_advances(s, 0);
        lemma_skip_ws_bounds(s, 0);
    }
}

pub proof fn lemma_skip_ws_shift(x: Seq<char>, s: Seq<char>, p: int)
    requires
        0 <= p,
    ensures
        skip_ws(x + s, x.len() + p) == x.len() + skip_ws(s, p),
    decreases s.len() - p,
{
    if p < s.len() {
        assert((x + s)[x.len() + p] == s[p]);
        if is_ws(s[p]) {
            lemma_skip_ws_shift(x, s, p + 1);
        }
    }
}

pub proof fn lemma_digit_end_shift(x: Seq<char>, s: Seq<char>, p: int)
    requires
        0 <= p,
    ensures
        digit_end(x + s, x.len() + p) == x.len() + digit_end(s, p),
    decreases s.len() - p,
{
    if p < s.len() {
        assert((x + s)[x.len() + p] == s[p]);
        if ascii_digit(s[p]) {
            lemma_digit_end_shift(x, s, p + 1);
        }
    }
}

pub proof fn lemma_alpha_end_shift(x: Seq<char>, s: Seq<char>, p: int)
    requires
        0 <= p,
    ensures
        alpha_end(x + s, x.len() + p) == x.len() + alpha_end(s, p),
    decreases s.len() - p,
{
    if p < s.len() {
        assert((x + s)[x.len() + p] == s[p]);
        if is_alpha(s[p]) {
            lemma_alpha_end_shift(x, s, p + 1);
        }
    }
}

/// Characters placed before the input move every token and every error
/// position by their number and change no token.
pub proof fn lemma_next_token_shift(x: Seq<char>, s: Seq<char>, p: int)
    requires
        0 <= p,
    ensures
        next_token_spec(x + s, x.len() + p).1 == x.len() + next_token_spec(s, p).1,
        next_token_spec(x + s, x.len() + p).0 == match next_token_spec(s, p).0 {
            Ok(t) => Ok(t),
            Err(e) => Err::<TokenView, ErrorView>(shift_position(e, x.len())),
        },
        skip_ws(x + s, x.len() + p) == x.len() + skip_ws(s, p),
{
    lemma_skip_ws_shift(x, s, p);
    lemma_skip_ws_bounds(s, p);
    let q = skip_ws(s, p);
    if q < s.len() {
        assert((x + s)[x.len() + q] == s[q]);
        lemma_digit_end_shift(x, s, q);
        lemma_alpha_end_shift(x, s, q);
        lemma_digit_end_bounds(s, q);
        lemma_alpha_end_bounds(s, q);
        assert((x + s).subrange(x.len() + q, x.len() + digit_end(s, q)) =~= s.subrange(
            q,
            digit_end(s, q),
        ));
        assert((x + s).subrange(x.len() + q, x.len() + alpha_end(s, q)) =~= s.subrange(
            q,
            alpha_end(s, q),
        ));
    }
}

/// Characters placed before the input leave the tokens as they are and move
/// every start and error position by their number.
pub proof fn lemma_tokenize_shift(x: Seq<char>, s: Seq<char>, p: int)
    requires
        0 <= p,
    ensures
        tokenize_spec(x + s, x.len() + p) == shift_tokens_result(tokenize_spec(s, p), x.len()),
        token_starts(x + s, x.len() + p) == shift_starts(token_starts(s, p), x.len() as int),
    decreases s.len() - p,
{
    lemma_next_token_shift(x, s, p);
    lemma_next_token_advances(s, p);
    let (r, q) = next_token_spec(s, p);
    match r {
        Ok(TokenView::Eof) => {
            assert(shift_starts(token_starts(s, p), x.len() as int) =~= seq![
                skip_ws(x + s, x.len() + p),
            ]);
        },
        Ok(t) => {
            lemma_tokenize_shift(x, s, q);
            assert(shift_starts(token_starts(s, p), x.len() as int) =~= seq![
                skip_ws(x + s, x.len() + p),
            ] + shift_starts(token_starts(s, q), x.len() as int));
        },
        Err(_) => {
            assert(shift_starts(token_starts(s, p), x.len() as int) =~= Seq::empty());
        },
    }
}

/// A successful tokenization knows where each of its tokens starts.
pub proof fn lemma_starts_len(s: Seq<char>, p: int)
    requires
        0 <= p,
        tokenize_spec(s, p) is Ok,
    ensures
        token_starts(s, p).len() == tokenize_spec(s, p)->Ok_0.len(),
    decreases s.len() - p,
{
    lemma_next_token_advances(s, p);
    let (r, q) = next_token_spec(s, p);
    match r {
        Ok(TokenView::Eof) => {},
        Ok(_) => {
            lemma_starts_len(s, q);
        },
        Err(_) => {},
    }
}

/// Whitespace placed before the input leaves a successful tokenization as it is.
pub proof fn lemma_tokenize_after_ws(w: Seq<char>, s: Seq<char>)
    requires
        forall|i: int| 0 <= i < w.len() ==> is_ws(#[trigger] w[i]),
        tokenize_spec(s, 0) is Ok,
    ensures
        tokenize_spec(w + s, 0) == tokenize_spec(s, 0),
{
    lemma_skip_ws_prefix(w, s, 0);
    lemma_tokenize_shift(w, s, 0);
    assert(next_token_spec(w + s, 0) == next_token_spec(w + s, w.len() as int));
    assert(tokenize_spec(w + s, 0) == tokenize_spec(w + s, w.len() as int));
}

pub proof fn lemma_skip_ws_prefix(w: Seq<char>, s: Seq<char>, i: int)
    requires
        0 <= i <= w.len(),
        forall|j: int| 0 <= j < w.len() ==> is_ws(#[trigger] w[j]),
    ensures
        skip_ws(w + s, i) == skip_ws(w + s, w.len() as int),
    decreases w.len() - i,
{
    if i < w.len() {
        assert((w + s)[i] == w[i]);
        lemma_skip_ws_prefix(w, s, i + 1);
    }
}

/// A tokenizer that produces tokens from an input string.
#[derive(Debug)]
pub struct Tokenizer {
    input: Vec<char>,
    position: usize,
}

impl Tokenizer {
    #[verifier::type_invariant]
    spec fn position_in_input(self) -> bool {
        self.position <= self.input.len()
    }

    /// The characters of the input.
    pub closed spec fn chars(self) -> Seq<char> {
        self.input@
    }

    /// The current position, counted in characters.
    pub closed spec fn pos(self) -> int {
        self.position as int
    }

    /// Creates a new tokenizer for the given input string.
    pub fn new(input: &str) -> (t: Self)
        ensures
            t.chars() == input@,
            t.pos() == 0,
    {
        Tokenizer { input: chars_of(input), position: 0 }
    }

    /// Creates a tokenizer over the given characters, starting at `position`.
    pub(crate) fn from_chars_at(input: Vec<char>, position: usize) -> (t: Self)
        requires
            position <= input.len(),
        ensures
            t.chars() == input@,
            t.pos() == position,
    {
        Tokenizer { input, position }
    }

    /// Returns the current position in the input.
    pub fn position(&self) -> (p: usize)
        ensures
            p == self.pos(),
            p <= self.chars().len(),
    {
        proof {
            use_type_invariant(self);
        }
        self.position
    }

    /// Peeks at the current character without consuming it.
    fn peek(&self) -> (c: Option<char>)
        ensures
            self.pos() < self.chars().len() ==> c == Some(self.chars()[self.pos()]),
            self.pos() >= self.chars().len() ==> c is None,
    {
        proof {
            use_type_invariant(self);
        }
        if self.position < self.input.len() {
            Some(self.input[self.position])
        } else {
            None
        }
    }

    /// Consumes and returns the current character.
    fn advance(&mut self) -> (c: Option<char>)
        ensures
            final(self).chars() == old(self).chars(),
            old(self).pos() < old(self).chars().len() ==> c == Some(
                old(self).chars()[old(self).pos()],
            ) && final(self).pos() == old(self).pos() + 1,
            old(self).pos() >= old(self).chars().len() ==> c is None && final(self).pos() == old(
                self,
            ).pos(),
    {
        proof {
            use_type_invariant(&*self);
        }
        let ch = self.peek()?;
        self.position = self.position + 1;
        Some(ch)
    }

    /// Skips whitespace characters.
    fn skip_whitespace(&mut self)
        ensures
            final(self).chars() == old(self).chars(),
            final(self).pos() == skip_ws(old(self).chars(), old(self).pos()),
    {
        proof {
            use_type_invariant(&*self);
        }
        while self.position < self.input.len() && char_is_ws(self.input[self.position])
            invariant
                self.chars() == old(self).chars(),
                skip_ws(self.chars(), self.pos()) == skip_ws(old(self).chars(), old(self).pos()),
                0 <= self.pos() <= self.chars().len(),
            decreases self.chars().len() - self.pos(),
        {
            self.position = self.position + 1;
        }
    }

    /// Parses a number token.
    fn parse_number(&mut self) -> (r: Result<Token, Error>)
        requires
            old(self).pos() < old(self).chars().len(),
            ascii_digit(old(self).chars()[old(self).pos()]),
        ensures
            final(self).chars() == old(self).chars(),
            ({
                let s = old(self).chars();
                let q = old(self).pos();
                let digits = s.subrange(q, digit_end(s, q));
                &&& final(self).pos() == digit_end(s, q)
                &&& digits_value(digits) <= u64::MAX ==> (r matches Ok(t) && t@ == TokenView::Number(
                    digits_value(digits) as u64,
                ))
                &&& digits_value(digits) > u64::MAX ==> (r matches Err(e) && e@
                    == ErrorView::InvalidNumber {
                    value: digits,
                    position: q as nat,
                    reason: overflow_reason(),
                })
            }),
    {
        proof {
            use_type_invariant(&*self);
        }
        let start_pos = self.position;
        let ghost s = self.chars();
        let mut value: u64 = 0;
        let mut overflow = false;
        while self.position < self.input.len() && char_is_digit(self.input[self.position])
            invariant
                self.chars() == s,
                start_pos <= self.pos() <= s.len(),
                start_pos == old(self).pos(),
                digit_end(s, self.pos()) == digit_end(s, start_pos as int),
                !overflow ==> value == digits_value(s.subrange(start_pos as int, self.pos())),
                overflow ==> digits_value(s.subrange(start_pos as int, self.pos())) > u64::MAX,
            decreases s.len() - self.pos(),
        {
            let ch = self.input[self.position];
            let ghost before = s.subrange(start_pos as int, self.pos());
            let d = (ch as u32 - 48) as u64;
            if !overflow {
                match value.checked_mul(10) {
                    Some(v10) => match v10.checked_add(d) {
                        Some(v) => {
                            value = v;
                        },
                        None => {
                            overflow = true;
                        },
                    },
                    None => {
                        overflow = true;
                    },
                }
            }
            self.position = self.position + 1;
            proof {
                let after = s.subrange(start_pos as int, self.pos());
                assert(after.drop_last() =~= before);
                assert(after.last() == ch);
            }
        }
        let end = self.position;
        if overflow {
            Err(
                Error::InvalidNumber {
                    value: string_of(&self.input, start_pos, end),
                    position: start_pos,
                    reason: String::from_str("number too large to fit in target type"),
                },
            )
        } else {
            Ok(Token::Number(value))
        }
    }

    /// Parses a unit token.
    fn parse_unit(&mut self) -> (r: Token)
        ensures
            final(self).chars() == old(self).chars(),
            final(self).pos() == alpha_end(old(self).chars(), old(self).pos()),
            r@ == TokenView::Unit(
                old(self).chars().subrange(
                    old(self).pos(),
                    alpha_end(old(self).chars(), old(self).pos()),
                ),
            ),
    {
        proof {
            use_type_invariant(&*self);
        }
        let start_pos = self.position;
        let ghost s = self.chars();
        while self.position < self.input.len() && char_is_alpha(self.input[self.position])
            invariant
                self.chars() == s,
                start_pos <= self.pos() <= s.len(),
                start_pos == old(self).pos(),
                alpha_end(s, self.pos()) == alpha_end(s, start_pos as int),
            decreases s.len() - self.pos(),
        {
            self.position = self.position + 1;
        }
        Token::Unit(string_of(&self.input, start_pos, self.position))
    }

    /// Returns the next token from the input, with the position where it starts.
    fn next_located(&mut self) -> (r: (Result<Token, Error>, usize))
        ensures
            final(self).chars() == old(self).chars(),
            (r.0 matches Ok(t) ==> next_token_spec(old(self).chars(), old(self).pos()).0 == Ok::<
                TokenView,
                ErrorView,
            >(t@)),
            (r.0 matches Err(e) ==> next_token_spec(old(self).chars(), old(self).pos()).0 == Err::<
                TokenView,
                ErrorView,
            >(e@)),
            final(self).pos() == next_token_spec(old(self).chars(), old(self).pos()).1,
            r.1 == skip_ws(old(self).chars(), old(self).pos()),
    {
        proof {
            use_type_invariant(&*self);
            lemma_skip_ws_bounds(self.chars(), self.pos());
        }
        self.skip_whitespace();
        proof {
            use_type_invariant(&*self);
        }
        let start = self.position;
        let r = match self.peek() {
            None => Ok(Token::Eof),
            Some(ch) => {
                if ch == ':' {
                    self.advance();
                    Ok(Token::Colon)
                } else if char_is_digit(ch) {
                    self.parse_number()
                } else if char_is_alpha(ch) {
                    Ok(self.parse_unit())
                } else {
                    Err(Error::InvalidCharacter { character: ch, position: self.position })
                }
            },
        };
        (r, start)
    }

    /// Returns the next token from the input.
    pub fn next_token(&mut self) -> (r: Result<Token, Error>)
        ensures
            final(self).chars() == old(self).chars(),
            (r matches Ok(t) ==> next_token_spec(old(self).chars(), old(self).pos()).0 == Ok::<
                TokenView,
                ErrorView,
            >(t@)),
            (r matches Err(e) ==> next_token_spec(old(self).chars(), old(self).pos()).0 == Err::<
                TokenView,
                ErrorView,
            >(e@)),
            final(self).pos() == next_token_spec(old(self).chars(), old(self).pos()).1,
    {
        self.next_located().0
    }

    /// Collects all tokens from the input, with the position where each starts.
    pub(crate) fn tokenize_located(self) -> (r: Result<(Vec<Token>, Vec<usize>), Error>)
        ensures
            (r matches Ok(v) ==> tokenize_spec(self.chars(), self.pos()) == Ok::<
                Seq<TokenView>,
                ErrorView,
            >(tokens_view(v.0@)) && starts_view(v.1@) == token_starts(self.chars(), self.pos())),
            (r matches Err(e) ==> tokenize_spec(self.chars(), self.pos()) == Err::<
                Seq<TokenView>,
                ErrorView,
            >(e@)),
    {
        let ghost s = self.chars();
        let ghost p0 = self.pos();
        let mut this = self;
        let mut tokens: Vec<Token> = Vec::new();
        let mut starts: Vec<usize> = Vec::new();
        proof {
            use_type_invariant(&this);
        }
        loop
            invariant
                this.chars() == s,
                s == self.chars(),
                p0 == self.pos(),
                0 <= this.pos() <= s.len(),
                forall|i: int| 0 <= i < tokens.len() ==> !(tokens@[i]@ is Eof),
                tokenize_spec(s, this.pos()) is Ok ==> token_starts(s, p0) == starts_view(starts@)
                    + token_starts(s, this.pos()),
                tokenize_spec(s, p0) == (match tokenize_spec(s, this.pos()) {
                    Ok(rest) => Ok(tokens_view(tokens@) + rest),
                    Err(e) => Err::<Seq<TokenView>, ErrorView>(e),
                }),
            decreases s.len() - this.pos(),
        {
            proof {
                use_type_invariant(&this);
                lemma_next_token_advances(s, this.pos());
            }
            let ghost before = this.pos();
            let (token, start) = this.next_located();
            let ghost old_starts = starts@;
            starts.push(start);
            proof {
                assert(starts_view(starts@) =~= starts_view(old_starts) + seq![start as int]);
                if tokenize_spec(s, this.pos()) is Ok {
                    assert(starts_view(old_starts) + (seq![start as int] + token_starts(
                        s,
                        this.pos(),
                    )) =~= starts_view(starts@) + token_starts(s, this.pos()));
                }
            }
            match token {
                Err(e) => {
                    assert(tokenize_spec(s, before) == Err::<Seq<TokenView>, ErrorView>(e@));
                    return Err(e);
                },
                Ok(t) => {
                    match t {
                        Token::Eof => {
                            assert(tokenize_spec(s, before) == Ok::<Seq<TokenView>, ErrorView>(
                                seq![TokenView::Eof],
                            ));
                            let ghost old_tokens = tokens@;
                            tokens.push(t);
                            proof {
                                assert(tokens_view(tokens@) =~= tokens_view(old_tokens) + seq![
                                    TokenView::Eof,
                                ]);
                            }
                            assert(starts_view(old_starts) + seq![start as int] =~= starts_view(
                                starts@,
                            ));
                            return Ok((tokens, starts));
                        },
                        _ => {
                            let ghost tv = t@;
                            let ghost old_tokens = tokens@;
                            tokens.push(t);
                            proof {
                                assert(tokens_view(tokens@) =~= tokens_view(old_tokens) + seq![tv]);
                                match tokenize_spec(s, this.pos()) {
                                    Ok(rest) => {
                                        assert(tokens_view(old_tokens) + (seq![tv] + rest)
                                            =~= tokens_view(tokens@) + rest);
                                    },
                                    Err(_) => {},
                                }
                            }
                        },
                    }
                },
            }
        }
    }

    /// Collects all tokens from the input.
    pub fn tokenize(self) -> (r: Result<Vec<Token>, Error>)
        ensures
            (r matches Ok(v) ==> tokenize_spec(self.chars(), self.pos()) == Ok::<
                Seq<TokenView>,
                ErrorView,
            >(tokens_view(v@))),
            (r matches Err(e) ==> tokenize_spec(self.chars(), self.pos()) == Err::<
                Seq<TokenView>,
                ErrorView,
            >(e@)),
    {
        match self.tokenize_located() {
            Ok((tokens, _)) => Ok(tokens),
            Err(e) => Err(e),
        }
    }
}

} // verus!
