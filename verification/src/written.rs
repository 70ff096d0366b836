//! Tokens written out as source text, and what the lexer makes of it.
use crate::ast::{CallExpressionView, NodeView, ProgramView};
use crate::error::ParseError;
use crate::lexer::{
    closes_literal, digit_run, identifier_run, lex, lex_from, literal_run, literal_token,
    LexOutcomeView,
};
use crate::parser::{parse, parse_program};
use crate::roundtrip::{
    call_tokens, lemma_parse_program_tokens, node_tokens, params_tokens, program_tokens,
};
use crate::sequence::{lemma_occurs_concat, lemma_occurs_index, lemma_occurs_whole, occurs_at};
use crate::text::{
    is_digit, is_escaped, is_identifier, is_identifier_part, is_literal_body, is_number,
    is_quote, is_whitespace,
};
use crate::token::{all_well_formed, TokenView};
use vstd::prelude::*;

verus! {

/// The source text of a token: its own text, between quotes for a literal.
pub open spec fn token_source(token: TokenView) -> Seq<char> {
    match token {
        TokenView::Paren(text) => text,
        TokenView::Identifier(text) => text,
        TokenView::NumberLiteral(text) => text,
        TokenView::CharLiteral(text) => seq!['\''] + text + seq!['\''],
        TokenView::StringLiteral(text) => seq!['"'] + text + seq!['"'],
    }
}

/// Text that holds nothing but whitespace.
pub open spec fn is_blank(text: Seq<char>) -> bool {
    forall|i: int| 0 <= i < text.len() ==> is_whitespace(#[trigger] text[i])
}

/// Whether `next`, written straight after `token`, would be read as one
/// more character of it.
pub open spec fn runs_into(token: TokenView, next: char) -> bool {
    match token {
        TokenView::NumberLiteral(_) => is_digit(next),
        TokenView::Identifier(_) => is_identifier_part(next),
        _ => false,
    }
}

/// The tokens written one after another, with `gaps[0]` before the first,
/// `gaps[i + 1]` after token `i`.
pub open spec fn written(tokens: Seq<TokenView>, gaps: Seq<Seq<char>>) -> Seq<char>
    decreases tokens.len(),
{
    if tokens.len() == 0 {
        gaps[0]
    } else {
        gaps[0] + token_source(tokens[0]) + written(tokens.drop_first(), gaps.drop_first())
    }
}

/// Whether `gaps` can separate `tokens`: there is a gap before, between and
/// after the tokens; each gap is blank; and where a gap is empty, the token
/// before it does not run into the one after it.
pub open spec fn well_spaced(tokens: Seq<TokenView>, gaps: Seq<Seq<char>>) -> bool
    decreases tokens.len(),
{
    &&& gaps.len() == tokens.len() + 1
    &&& is_blank(gaps[0])
    &&& tokens.len() > 0 ==> {
        &&& well_spaced(tokens.drop_first(), gaps.drop_first())
        &&& tokens.len() > 1 && gaps[1].len() == 0 ==> !runs_into(
            tokens[0],
            token_source(tokens[1])[0],
        )
    }
}

/// The scan passes over whitespace.
pub proof fn lemma_lex_skips_whitespace(s: Seq<char>, from: int, to: int)
    requires
        0 <= from <= to <= s.len(),
        forall|i: int| from <= i < to ==> is_whitespace(#[trigger] s[i]),
    ensures
        lex_from(s, from) == lex_from(s, to),
    decreases to - from,
{
    if from < to {
        lemma_lex_skips_whitespace(s, from + 1, to);
    }
}

/// A stretch of digits that cannot go on is a whole run.
pub proof fn lemma_digit_run_exact(s: Seq<char>, from: int, to: int)
    requires
        0 <= from <= to <= s.len(),
        forall|i: int| from <= i < to ==> is_digit(#[trigger] s[i]),
        to == s.len() || !is_digit(s[to]),
    ensures
        digit_run(s, from) == to - from,
    decreases to - from,
{
    if from < to {
        lemma_digit_run_exact(s, from + 1, to);
    }
}

/// A stretch of identifier characters that cannot go on is a whole run.
pub proof fn lemma_identifier_run_exact(s: Seq<char>, from: int, to: int)
    requires
        0 <= from <= to <= s.len(),
        forall|i: int| from <= i < to ==> is_identifier_part(#[trigger] s[i]),
        to == s.len() || !is_identifier_part(s[to]),
    ensures
        identifier_run(s, from) == to - from,
    decreases to - from,
{
    if from < to {
        lemma_identifier_run_exact(s, from + 1, to);
    }
}

/// A stretch without a closing quote, followed by one, is the whole text
/// of a literal.
pub proof fn lemma_literal_run_exact(s: Seq<char>, from: int, to: int, quote: char)
    requires
        0 <= from <= to < s.len(),
        forall|i: int| from <= i < to ==> !closes_literal(s, i, quote),
        closes_literal(s, to, quote),
    ensures
        literal_run(s, from, quote) == to - from,
    decreases to - from,
{
    if from < to {
        lemma_literal_run_exact(s, from + 1, to, quote);
    }
}

/// Inside a literal, escaping is the same whether one looks at the text of
/// the literal alone or at the source around it.
pub proof fn lemma_escaped_inside(s: Seq<char>, open: int, text: Seq<char>, at: int)
    requires
        0 <= open < s.len(),
        s[open] != '\\',
        occurs_at(s, open + 1, text),
        0 <= at <= text.len(),
    ensures
        is_escaped(text, at) == is_escaped(s, open + 1 + at),
{
    if at >= 1 {
        lemma_occurs_index(s, open + 1, text, at - 1);
    }
    if at >= 2 {
        lemma_occurs_index(s, open + 1, text, at - 2);
    }
}

/// The source text of a well-formed token is not empty, and does not end
/// in a backslash.
pub proof fn lemma_token_source_ends(token: TokenView)
    requires
        token.well_formed(),
    ensures
        token_source(token).len() > 0,
        token_source(token).last() != '\\',
{
    match token {
        TokenView::Paren(text) => {
            assert(text[0] == '(' || text[0] == ')');
        },
        TokenView::Identifier(text) => {
            assert(is_identifier_part(text[text.len() - 1]));
        },
        TokenView::NumberLiteral(text) => {
            assert(is_digit(text[text.len() - 1]));
        },
        TokenView::CharLiteral(text) => {
            assert(token_source(token).last() == '\'');
        },
        TokenView::StringLiteral(text) => {
            assert(token_source(token).last() == '"');
        },
    }
}

/// A literal written between its quotes is read back as that literal.
proof fn lemma_lex_literal(s: Seq<char>, at: int, quote: char, text: Seq<char>)
    requires
        is_quote(quote),
        is_literal_body(text, quote),
        occurs_at(s, at, seq![quote] + text + seq![quote]),
        at == 0 || s[at - 1] != '\\',
    ensures
        lex_from(s, at) == lex_from(s, at + text.len() + 2).after(
            seq![literal_token(quote, text)],
        ),
{
    let close = at + 1 + text.len();
    lemma_occurs_concat(s, at, seq![quote] + text, seq![quote]);
    lemma_occurs_concat(s, at, seq![quote], text);
    lemma_occurs_index(s, at, seq![quote], 0);
    lemma_occurs_index(s, close, seq![quote], 0);
    assert forall|i: int| at + 1 <= i < close implies !closes_literal(s, i, quote) by {
        lemma_occurs_index(s, at + 1, text, i - (at + 1));
        lemma_escaped_inside(s, at, text, i - (at + 1));
    }
    lemma_escaped_inside(s, at, text, text.len() as int);
    lemma_literal_run_exact(s, at + 1, close, quote);
    assert(s.subrange(at + 1, close) == text);
}

/// A well-formed token written in a place where it is not escaped, and
/// where what follows does not run into it, is read back as it is.
pub proof fn lemma_lex_token(s: Seq<char>, at: int, token: TokenView)
    requires
        token.well_formed(),
        occurs_at(s, at, token_source(token)),
        at == 0 || s[at - 1] != '\\',
        at + token_source(token).len() == s.len() || !runs_into(
            token,
            s[at + token_source(token).len()],
        ),
    ensures
        lex_from(s, at) == lex_from(s, at + token_source(token).len()).after(seq![token]),
{
    let source = token_source(token);
    let next = at + source.len();
    lemma_token_source_ends(token);
    lemma_occurs_index(s, at, source, 0);
    match token {
        TokenView::Paren(text) => {
            assert(seq![s[at]] =~= text);
        },
        TokenView::Identifier(text) => {
            assert forall|i: int| at + 1 <= i < next implies is_identifier_part(
                #[trigger] s[i],
            ) by {
                lemma_occurs_index(s, at, text, i - at);
            }
            lemma_identifier_run_exact(s, at + 1, next);
        },
        TokenView::NumberLiteral(text) => {
            assert forall|i: int| at + 1 <= i < next implies is_digit(#[trigger] s[i]) by {
                lemma_occurs_index(s, at, text, i - at);
            }
            lemma_digit_run_exact(s, at + 1, next);
        },
        TokenView::CharLiteral(text) => {
            lemma_lex_literal(s, at, '\'', text);
        },
        TokenView::StringLiteral(text) => {
            lemma_lex_literal(s, at, '"', text);
        },
    }
}

/// Where well-formed, well-spaced tokens are written up to the end of a
/// text, the scan from there reads them back, all of them and nothing else.
pub proof fn lemma_lex_written_at(
    s: Seq<char>,
    at: int,
    tokens: Seq<TokenView>,
    gaps: Seq<Seq<char>>,
)
    requires
        all_well_formed(tokens),
        well_spaced(tokens, gaps),
        occurs_at(s, at, written(tokens, gaps)),
        at + written(tokens, gaps).len() == s.len(),
        at == 0 || s[at - 1] != '\\',
    ensures
        lex_from(s, at) == (LexOutcomeView { tokens, error: None }),
    decreases tokens.len(),
{
    let gap = gaps[0];
    if tokens.len() == 0 {
        assert forall|i: int| at <= i < s.len() implies is_whitespace(#[trigger] s[i]) by {
            lemma_occurs_index(s, at, gap, i - at);
        }
        lemma_lex_skips_whitespace(s, at, s.len() as int);
        assert(tokens =~= Seq::empty());
    } else {
        let token = tokens[0];
        let source = token_source(token);
        let later = tokens.drop_first();
        let later_gaps = gaps.drop_first();
        let rest = written(later, later_gaps);
        let start = at + gap.len();
        let next = start + source.len();
        lemma_occurs_concat(s, at, gap + source, rest);
        lemma_occurs_concat(s, at, gap, source);
        assert forall|i: int| at <= i < start implies is_whitespace(#[trigger] s[i]) by {
            lemma_occurs_index(s, at, gap, i - at);
        }
        lemma_lex_skips_whitespace(s, at, start);
        if gap.len() > 0 {
            lemma_occurs_index(s, at, gap, gap.len() - 1);
        }
        assert(token.well_formed());
        lemma_token_source_ends(token);
        lemma_occurs_index(s, start, source, source.len() - 1);
        assert(well_spaced(later, later_gaps));
        assert(is_blank(later_gaps[0]));
        if next < s.len() {
            lemma_occurs_index(s, next, rest, 0);
            if later_gaps[0].len() > 0 {
                assert(rest[0] == later_gaps[0][0]);
                assert(is_whitespace(later_gaps[0][0]));
            } else {
                assert(later.len() > 0);
                assert(later[0].well_formed());
                lemma_token_source_ends(later[0]);
                assert(later_gaps[0] == gaps[1]);
                assert(later[0] == tokens[1]);
                assert(rest[0] == token_source(later[0])[0]);
            }
        }
        lemma_lex_token(s, start, token);
        assert(all_well_formed(later)) by {
            assert forall|i: int| 0 <= i < later.len() implies (#[trigger] later[i]).well_formed() by {
                assert(later[i] == tokens[i + 1]);
            }
        }
        lemma_lex_written_at(s, next, later, later_gaps);
        assert(seq![token] + later =~= tokens);
    }
}

/// The lexer reads back what was written: well-formed tokens, written with
/// whitespace wherever two of them would otherwise run together, come out
/// of the scan as they went in, and the scan does not fail.
pub proof fn lemma_lex_written(tokens: Seq<TokenView>, gaps: Seq<Seq<char>>)
    requires
        all_well_formed(tokens),
        well_spaced(tokens, gaps),
    ensures
        lex(written(tokens, gaps)) == (LexOutcomeView { tokens, error: None }),
{
    lemma_occurs_whole(written(tokens, gaps));
    lemma_lex_written_at(written(tokens, gaps), 0, tokens, gaps);
}

/// Whether a call can be written out as a balanced group of well-formed
/// tokens: its name is an identifier, and its parameters can be written.
pub open spec fn writable(call: CallExpressionView) -> bool
    decreases call,
{
    &&& is_identifier(call.name)
    &&& forall|i: int|
        0 <= i < call.params.len() ==> writable_node(#[trigger] call.params[i])
}

/// Whether a parameter can be written out as well-formed tokens: a number
/// is a run of digits, a string can stand between double quotes, a nested
/// call is [`writable`].
pub open spec fn writable_node(node: NodeView) -> bool
    decreases node,
{
    match node {
        NodeView::NumberLiteral(text) => is_number(text),
        NodeView::StringLiteral(text) => is_literal_body(text, '"'),
        NodeView::CallExpression(call) => writable(call),
    }
}

/// Whether every top-level call of a program is [`writable`].
pub open spec fn writable_program(program: ProgramView) -> bool {
    forall|i: int| 0 <= i < program.body.len() ==> writable(#[trigger] program.body[i])
}

/// Well-formed tokens followed by well-formed tokens are well-formed tokens.
proof fn lemma_well_formed_concat(first: Seq<TokenView>, second: Seq<TokenView>)
    requires
        all_well_formed(first),
        all_well_formed(second),
    ensures
        all_well_formed(first + second),
{
    assert forall|i: int| 0 <= i < (first + second).len() implies (#[trigger] (first
        + second)[i]).well_formed() by {
        if i < first.len() {
            assert((first + second)[i] == first[i]);
        } else {
            assert((first + second)[i] == second[i - first.len()]);
        }
    }
}

/// The tokens of a writable call are well formed.
pub proof fn lemma_call_tokens_well_formed(call: CallExpressionView)
    requires
        writable(call),
    ensures
        all_well_formed(call_tokens(call)),
    decreases call,
{
    let head = seq![TokenView::Paren(seq!['(']), TokenView::Identifier(call.name)];
    let tail = seq![TokenView::Paren(seq![')'])];
    assert(all_well_formed(head)) by {
        assert(head[0].well_formed());
        assert(head[1].well_formed());
    }
    assert(all_well_formed(tail)) by {
        assert(tail[0].well_formed());
    }
    lemma_params_tokens_well_formed(call.params);
    lemma_well_formed_concat(head, params_tokens(call.params));
    lemma_well_formed_concat(head + params_tokens(call.params), tail);
}

/// The tokens of writable parameters are well formed.
pub proof fn lemma_params_tokens_well_formed(params: Seq<NodeView>)
    requires
        forall|i: int| 0 <= i < params.len() ==> writable_node(#[trigger] params[i]),
    ensures
        all_well_formed(params_tokens(params)),
    decreases params,
{
    if params.len() > 0 {
        let rest = params.drop_first();
        assert forall|i: int| 0 <= i < rest.len() implies writable_node(#[trigger] rest[i]) by {
            assert(rest[i] == params[i + 1]);
        }
        lemma_params_tokens_well_formed(rest);
        assert(writable_node(params[0]));
        let first = node_tokens(params[0]);
        match params[0] {
            NodeView::NumberLiteral(text) => {
                assert(first[0].well_formed());
            },
            NodeView::StringLiteral(text) => {
                assert(first[0].well_formed());
            },
            NodeView::CallExpression(call) => {
                lemma_call_tokens_well_formed(call);
            },
        }
        lemma_well_formed_concat(first, params_tokens(rest));
    }
}

/// The tokens of writable calls are well formed.
pub proof fn lemma_program_tokens_well_formed(calls: Seq<CallExpressionView>)
    requires
        forall|i: int| 0 <= i < calls.len() ==> writable(#[trigger] calls[i]),
    ensures
        all_well_formed(program_tokens(calls)),
    decreases calls.len(),
{
    if calls.len() > 0 {
        let rest = calls.drop_first();
        assert forall|i: int| 0 <= i < rest.len() implies writable(#[trigger] rest[i]) by {
            assert(rest[i] == calls[i + 1]);
        }
        lemma_program_tokens_well_formed(rest);
        assert(writable(calls[0]));
        lemma_call_tokens_well_formed(calls[0]);
        lemma_well_formed_concat(call_tokens(calls[0]), program_tokens(rest));
    }
}

/// A program of balanced, whitespace-separated calls is read back whole.
///
/// Let a program be written out as one balanced group of tokens for each
/// top-level call, with whitespace in the gaps wherever two tokens would
/// otherwise run together. Then the scan of that text yields exactly those
/// tokens and does not fail; and the parser makes of them the program that
/// was written: one top-level call for each group, with every token used.
pub proof fn lemma_written_program_is_read_back(program: ProgramView, gaps: Seq<Seq<char>>)
    requires
        writable_program(program),
        well_spaced(program_tokens(program.body), gaps),
    ensures
        lex(written(program_tokens(program.body), gaps)) == (LexOutcomeView {
            tokens: program_tokens(program.body),
            error: None,
        }),
        parse(lex(written(program_tokens(program.body), gaps)).tokens) == Ok::<
            ProgramView,
            ParseError,
        >(program),
        parse_program(program_tokens(program.body), 0) matches Ok((calls, taken))
            && calls.len() == program.body.len() && taken == program_tokens(program.body).len(),
{
    lemma_program_tokens_well_formed(program.body);
    lemma_lex_written(program_tokens(program.body), gaps);
    lemma_parse_program_tokens(program);
}

} // verus!
