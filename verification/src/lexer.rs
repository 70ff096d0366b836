//! The lexer: source text to tokens, in one pass from left to right.
use crate::error::LexError;
use crate::text::{
    chars_of, escaped, is_digit, is_escaped, is_identifier, is_identifier_part,
    is_identifier_start, is_literal_body, is_number, is_paren, is_quote, is_whitespace, text_of,
};
use crate::token::{all_well_formed, token_views, Token, TokenView};
use vstd::prelude::*;

verus! {

/// What the lexer hands back: the tokens it collected, and the reason it
/// stopped early, if it did.
#[derive(Debug, PartialEq, Eq)]
pub struct LexOutcome {
    /// The tokens collected up to the end of the text or up to the failure.
    pub tokens: Vec<Token>,
    /// `None` when the whole text was scanned.
    pub error: Option<LexError>,
}

/// The mathematical value of a [`LexOutcome`].
pub ghost struct LexOutcomeView {
    pub tokens: Seq<TokenView>,
    pub error: Option<LexError>,
}

impl View for LexOutcome {
    type V = LexOutcomeView;

    open spec fn view(&self) -> LexOutcomeView {
        LexOutcomeView { tokens: token_views(self.tokens@), error: self.error }
    }
}

impl LexOutcomeView {
    /// This outcome with `first` placed in front of its tokens.
    pub open spec fn after(self, first: Seq<TokenView>) -> LexOutcomeView {
        LexOutcomeView { tokens: first + self.tokens, error: self.error }
    }
}

/// The number of digits in `s` from `i` on, up to the first character that
/// is no digit.
pub open spec fn digit_run(s: Seq<char>, i: int) -> nat
    decreases s.len() - i,
{
    if 0 <= i < s.len() && is_digit(s[i]) {
        1 + digit_run(s, i + 1)
    } else {
        0
    }
}

/// The number of identifier characters in `s` from `i` on.
pub open spec fn identifier_run(s: Seq<char>, i: int) -> nat
    decreases s.len() - i,
{
    if 0 <= i < s.len() && is_identifier_part(s[i]) {
        1 + identifier_run(s, i + 1)
    } else {
        0
    }
}

/// Whether the character at `i` ends a literal opened with `quote`: it is
/// that quote, and it is not escaped.
pub open spec fn closes_literal(s: Seq<char>, i: int, quote: char) -> bool {
    s[i] == quote && !is_escaped(s, i)
}

/// The number of characters in `s` from `i` on that come before the quote
/// which closes the literal, or before the end of `s` if nothing closes it.
pub open spec fn literal_run(s: Seq<char>, i: int, quote: char) -> nat
    decreases s.len() - i,
{
    if 0 <= i < s.len() && !closes_literal(s, i, quote) {
        1 + literal_run(s, i + 1, quote)
    } else {
        0
    }
}

/// The token for the text between a pair of quotes.
pub open spec fn literal_token(quote: char, text: Seq<char>) -> TokenView {
    if quote == '\'' {
        TokenView::CharLiteral(text)
    } else {
        TokenView::StringLiteral(text)
    }
}

/// A run of digits ends within the text.
pub proof fn lemma_digit_run_in_bounds(s: Seq<char>, i: int)
    requires
        0 <= i <= s.len(),
    ensures
        i + digit_run(s, i) <= s.len(),
    decreases s.len() - i,
{
    if i < s.len() && is_digit(s[i]) {
        lemma_digit_run_in_bounds(s, i + 1);
    }
}

/// A run of identifier characters ends within the text.
pub proof fn lemma_identifier_run_in_bounds(s: Seq<char>, i: int)
    requires
        0 <= i <= s.len(),
    ensures
        i + identifier_run(s, i) <= s.len(),
    decreases s.len() - i,
{
    if i < s.len() && is_identifier_part(s[i]) {
        lemma_identifier_run_in_bounds(s, i + 1);
    }
}

/// The outcome of scanning `s` from position `i`.
///
/// Whitespace is skipped. A parenthesis is a token by itself. A digit
/// starts a number, which takes every digit that follows. A quote that is
/// not escaped starts a literal, which runs to the next quote of the same
/// kind that is not escaped; the quotes are not part of its text. A letter
/// or underscore starts an identifier. Anything else stops the scan.
pub open spec fn lex_from(s: Seq<char>, i: int) -> LexOutcomeView
    decreases s.len() - i,
{
    if !(0 <= i < s.len()) {
        LexOutcomeView { tokens: Seq::empty(), error: None }
    } else if is_whitespace(s[i]) {
        lex_from(s, i + 1)
    } else if is_paren(s[i]) {
        lex_from(s, i + 1).after(seq![TokenView::Paren(seq![s[i]])])
    } else if is_digit(s[i]) {
        let end = i + 1 + digit_run(s, i + 1);
        proof {
            lemma_digit_run_in_bounds(s, i + 1);
        }
        lex_from(s, end).after(seq![TokenView::NumberLiteral(s.subrange(i, end))])
    } else if is_quote(s[i]) && !is_escaped(s, i) {
        let close = i + 1 + literal_run(s, i + 1, s[i]);
        if close < s.len() {
            lex_from(s, close + 1).after(seq![literal_token(s[i], s.subrange(i + 1, close))])
        } else {
            LexOutcomeView { tokens: Seq::empty(), error: Some(LexError::UnterminatedLiteral) }
        }
    } else if is_identifier_start(s[i]) {
        let end = i + 1 + identifier_run(s, i + 1);
        proof {
            lemma_identifier_run_in_bounds(s, i + 1);
        }
        lex_from(s, end).after(seq![TokenView::Identifier(s.subrange(i, end))])
    } else {
        LexOutcomeView { tokens: Seq::empty(), error: Some(LexError::UnknownCharacter) }
    }
}

/// The outcome of scanning the whole of `s`.
pub open spec fn lex(s: Seq<char>) -> LexOutcomeView {
    lex_from(s, 0)
}

/// Every character of a run of digits is a digit.
pub proof fn lemma_digit_run_holds(s: Seq<char>, i: int, k: int)
    requires
        0 <= k < digit_run(s, i),
    ensures
        0 <= i + k < s.len(),
        is_digit(s[i + k]),
    decreases k,
{
    if k > 0 {
        lemma_digit_run_holds(s, i + 1, k - 1);
    }
}

/// Every character of a run of identifier characters is one.
pub proof fn lemma_identifier_run_holds(s: Seq<char>, i: int, k: int)
    requires
        0 <= k < identifier_run(s, i),
    ensures
        0 <= i + k < s.len(),
        is_identifier_part(s[i + k]),
    decreases k,
{
    if k > 0 {
        lemma_identifier_run_holds(s, i + 1, k - 1);
    }
}

/// No character inside the text of a literal closes it; the character after
/// the text, if there is one, does.
pub proof fn lemma_literal_run_holds(s: Seq<char>, i: int, quote: char, k: int)
    requires
        0 <= i,
        0 <= k <= literal_run(s, i, quote),
    ensures
        k < literal_run(s, i, quote) ==> i + k < s.len() && !closes_literal(s, i + k, quote),
        k == literal_run(s, i, quote) && i + k < s.len() ==> closes_literal(s, i + k, quote),
    decreases k,
{
    if k > 0 {
        lemma_literal_run_holds(s, i + 1, quote, k - 1);
    }
}

/// A digit and the digits that follow it make a number.
pub proof fn lemma_number_text(s: Seq<char>, i: int)
    requires
        0 <= i < s.len(),
        is_digit(s[i]),
    ensures
        i + 1 + digit_run(s, i + 1) <= s.len(),
        is_number(s.subrange(i, i + 1 + digit_run(s, i + 1))),
{
    lemma_digit_run_in_bounds(s, i + 1);
    let text = s.subrange(i, i + 1 + digit_run(s, i + 1));
    assert forall|j: int| 0 <= j < text.len() implies is_digit(#[trigger] text[j]) by {
        if j > 0 {
            lemma_digit_run_holds(s, i + 1, j - 1);
        }
    }
}

/// A letter or underscore and the identifier characters that follow it make
/// an identifier.
pub proof fn lemma_identifier_text(s: Seq<char>, i: int)
    requires
        0 <= i < s.len(),
        is_identifier_start(s[i]),
    ensures
        i + 1 + identifier_run(s, i + 1) <= s.len(),
        is_identifier(s.subrange(i, i + 1 + identifier_run(s, i + 1))),
{
    lemma_identifier_run_in_bounds(s, i + 1);
    let text = s.subrange(i, i + 1 + identifier_run(s, i + 1));
    assert forall|j: int| 0 <= j < text.len() implies is_identifier_part(#[trigger] text[j]) by {
        if j > 0 {
            lemma_identifier_run_holds(s, i + 1, j - 1);
        }
    }
}

/// The text between a quote and the quote that closes it can stand between
/// quotes of that kind.
pub proof fn lemma_literal_text(s: Seq<char>, i: int)
    requires
        0 <= i < s.len(),
        is_quote(s[i]),
        i + 1 + literal_run(s, i + 1, s[i]) < s.len(),
    ensures
        is_literal_body(s.subrange(i + 1, i + 1 + literal_run(s, i + 1, s[i])), s[i]),
{
    let quote = s[i];
    let run = literal_run(s, i + 1, quote) as int;
    let text = s.subrange(i + 1, i + 1 + run);
    assert forall|j: int| 0 <= j <= text.len() implies is_escaped(text, j) == is_escaped(
        s,
        i + 1 + j,
    ) by {
        if j >= 1 {
            assert(text[j - 1] == s[i + j]);
        }
        if j >= 2 {
            assert(text[j - 2] == s[i + j - 1]);
        }
    }
    assert forall|j: int| 0 <= j < text.len() implies !(#[trigger] text[j] == quote
        && !is_escaped(text, j)) by {
        lemma_literal_run_holds(s, i + 1, quote, j);
    }
    lemma_literal_run_holds(s, i + 1, quote, run);
}

/// Every token that the scan yields is well formed.
pub proof fn lemma_lex_from_well_formed(s: Seq<char>, i: int)
    ensures
        all_well_formed(lex_from(s, i).tokens),
    decreases s.len() - i,
{
    if !(0 <= i < s.len()) {
    } else if is_whitespace(s[i]) {
        lemma_lex_from_well_formed(s, i + 1);
    } else if is_paren(s[i]) {
        lemma_lex_from_well_formed(s, i + 1);
    } else if is_digit(s[i]) {
        lemma_number_text(s, i);
        lemma_lex_from_well_formed(s, i + 1 + digit_run(s, i + 1));
    } else if is_quote(s[i]) && !is_escaped(s, i) {
        let close = i + 1 + literal_run(s, i + 1, s[i]);
        if close < s.len() {
            lemma_literal_text(s, i);
            lemma_lex_from_well_formed(s, close + 1);
        }
    } else if is_identifier_start(s[i]) {
        lemma_identifier_text(s, i);
        lemma_lex_from_well_formed(s, i + 1 + identifier_run(s, i + 1));
    }
}

/// The end of the run of digits that starts at `from`.
fn number_end(chars: &Vec<char>, from: usize) -> (end: usize)
    requires
        from <= chars.len(),
    ensures
        end == from + digit_run(chars@, from as int),
        end <= chars.len(),
{
    let mut end: usize = from;
    while end < chars.len() && '0' <= chars[end] && chars[end] <= '9'
        invariant
            from <= end <= chars.len(),
            digit_run(chars@, from as int) == (end - from) + digit_run(chars@, end as int),
        decreases chars.len() - end,
    {
        end += 1;
    }
    end
}

/// The end of the run of identifier characters that starts at `from`.
fn identifier_end(chars: &Vec<char>, from: usize) -> (end: usize)
    requires
        from <= chars.len(),
    ensures
        end == from + identifier_run(chars@, from as int),
        end <= chars.len(),
{
    let mut end: usize = from;
    while end < chars.len() && (('a' <= chars[end] && chars[end] <= 'z') || ('A' <= chars[end]
        && chars[end] <= 'Z') || chars[end] == '_' || ('0' <= chars[end] && chars[end] <= '9'))
        invariant
            from <= end <= chars.len(),
            identifier_run(chars@, from as int) == (end - from) + identifier_run(
                chars@,
                end as int,
            ),
        decreases chars.len() - end,
    {
        end += 1;
    }
    end
}

/// The position of the quote that closes a literal whose text starts at
/// `from`, or the length of `chars` if nothing closes it.
fn literal_end(chars: &Vec<char>, from: usize, quote: char) -> (end: usize)
    requires
        from <= chars.len(),
    ensures
        end == from + literal_run(chars@, from as int, quote),
        end <= chars.len(),
{
    let mut end: usize = from;
    while end < chars.len() && !(chars[end] == quote && !escaped(chars, end))
        invariant
            from <= end <= chars.len(),
            literal_run(chars@, from as int, quote) == (end - from) + literal_run(
                chars@,
                end as int,
                quote,
            ),
        decreases chars.len() - end,
    {
        end += 1;
    }
    end
}

/// If the scan from `here` yields `token` and goes on from `next`, then the
/// tokens collected before `here`, with `token` added, stand before the
/// scan from `next`.
proof fn lemma_scan_step(s: Seq<char>, here: int, next: int, before: Seq<Token>, token: Token)
    requires
        lex_from(s, here) == lex_from(s, next).after(seq![token@]),
    ensures
        lex_from(s, here).after(token_views(before)) == lex_from(s, next).after(
            token_views(before.push(token)),
        ),
{
    let rest = lex_from(s, next).tokens;
    assert(token_views(before.push(token)) =~= token_views(before).push(token@));
    assert(token_views(before) + (seq![token@] + rest) =~= token_views(before).push(token@)
        + rest);
}

/// Splits source text into tokens.
///
/// The scan goes on to the end of the text unless it meets a character that
/// starts no token, or a literal that is never closed. In both cases it stops
/// there: the outcome holds the tokens collected so far and names the failure.
pub fn lexer(srcs: String) -> (outcome: LexOutcome)
    ensures
        outcome@ == lex(srcs@),
        all_well_formed(outcome@.tokens),
{
    proof {
        lemma_lex_from_well_formed(srcs@, 0);
    }
    let chars = chars_of(srcs.as_str());
    let mut tokens: Vec<Token> = Vec::new();
    let mut cur: usize = 0;
    assert(token_views(tokens@) =~= Seq::empty());
    assert(lex_from(chars@, 0).after(Seq::empty()).tokens =~= lex_from(chars@, 0).tokens);
    while cur < chars.len()
        invariant
            cur <= chars.len(),
            chars@ == srcs@,
            lex(srcs@) == lex_from(chars@, cur as int).after(token_views(tokens@)),
            all_well_formed(lex(srcs@).tokens),
        decreases chars.len() - cur,
    {
        let ghost here = cur as int;
        let ghost before = tokens@;
        let c = chars[cur];
        if c == ' ' || c == '\n' || c == '\t' {
            cur += 1;
        } else if c == '(' || c == ')' {
            let token = Token::Paren(text_of(&chars, cur, cur + 1));
            cur += 1;
            proof {
                assert(chars@.subrange(here, here + 1) =~= seq![c]);
                lemma_scan_step(chars@, here, cur as int, before, token);
            }
            tokens.push(token);
        } else if '0' <= c && c <= '9' {
            let end = number_end(&chars, cur + 1);
            let token = Token::NumberLiteral(text_of(&chars, cur, end));
            cur = end;
            proof {
                lemma_scan_step(chars@, here, cur as int, before, token);
            }
            tokens.push(token);
        } else if (c == '\'' || c == '"') && !escaped(&chars, cur) {
            let close = literal_end(&chars, cur + 1, c);
            if close >= chars.len() {
                assert(token_views(tokens@) + Seq::empty() =~= token_views(tokens@));
                return LexOutcome { tokens, error: Some(LexError::UnterminatedLiteral) };
            }
            let text = text_of(&chars, cur + 1, close);
            let token = if c == '\'' {
                Token::CharLiteral(text)
            } else {
                Token::StringLiteral(text)
            };
            cur = close + 1;
            proof {
                lemma_scan_step(chars@, here, cur as int, before, token);
            }
            tokens.push(token);
        } else if ('a' <= c && c <= 'z') || ('A' <= c && c <= 'Z') || c == '_' {
            let end = identifier_end(&chars, cur + 1);
            let token = Token::Identifier(text_of(&chars, cur, end));
            cur = end;
            proof {
                lemma_scan_step(chars@, here, cur as int, before, token);
            }
            tokens.push(token);
        } else {
            assert(token_views(tokens@) + Seq::empty() =~= token_views(tokens@));
            return LexOutcome { tokens, error: Some(LexError::UnknownCharacter) };
        }
    }
    assert(token_views(tokens@) + Seq::empty() =~= token_views(tokens@));
    LexOutcome { tokens, error: None }
}

} // verus!
