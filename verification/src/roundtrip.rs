//! From a tree back to tokens, and what the parser makes of them.
use crate::ast::{CallExpressionView, NodeView, ProgramView};
use crate::error::ParseError;
use crate::parser::{is_open_paren, parse, parse_call, parse_params, parse_program};
use crate::sequence::{lemma_occurs_concat, lemma_occurs_index, lemma_occurs_whole, occurs_at};
use crate::token::TokenView;
use vstd::prelude::*;

verus! {

/// The opening parenthesis as a token.
pub open spec fn open_paren() -> TokenView {
    TokenView::Paren(seq!['('])
}

/// The closing parenthesis as a token.
pub open spec fn close_paren() -> TokenView {
    TokenView::Paren(seq![')'])
}

/// The two parentheses are different tokens.
pub proof fn lemma_parens_differ()
    ensures
        open_paren() != close_paren(),
{
    assert(seq!['('][0] != seq![')'][0]);
}

/// The tokens of a call written out in full: a balanced group that opens
/// with a parenthesis and the name, and closes after the parameters.
pub open spec fn call_tokens(call: CallExpressionView) -> Seq<TokenView>
    decreases call,
{
    seq![open_paren(), TokenView::Identifier(call.name)] + params_tokens(call.params)
        + seq![close_paren()]
}

/// The tokens of a parameter: a number, a quoted string, or the group of a
/// nested call.
pub open spec fn node_tokens(node: NodeView) -> Seq<TokenView>
    decreases node,
{
    match node {
        NodeView::NumberLiteral(text) => seq![TokenView::NumberLiteral(text)],
        NodeView::StringLiteral(text) => seq![TokenView::StringLiteral(text)],
        NodeView::CallExpression(call) => call_tokens(call),
    }
}

/// The tokens of a sequence of parameters, one after another.
pub open spec fn params_tokens(params: Seq<NodeView>) -> Seq<TokenView>
    decreases params,
{
    if params.len() == 0 {
        Seq::empty()
    } else {
        node_tokens(params[0]) + params_tokens(params.drop_first())
    }
}

/// The tokens of a sequence of top-level calls: one balanced group for each.
pub open spec fn program_tokens(calls: Seq<CallExpressionView>) -> Seq<TokenView>
    decreases calls.len(),
{
    if calls.len() == 0 {
        Seq::empty()
    } else {
        call_tokens(calls[0]) + program_tokens(calls.drop_first())
    }
}

/// Where the tokens of a call stand, the parser reads that call, and stops
/// on the last of them.
pub proof fn lemma_parse_call_tokens(tokens: Seq<TokenView>, at: int, call: CallExpressionView)
    requires
        occurs_at(tokens, at, call_tokens(call)),
    ensures
        parse_call(tokens, at) == Ok::<(CallExpressionView, nat), ParseError>(
            (call, (call_tokens(call).len() - 1) as nat),
        ),
    decreases call,
{
    let head = seq![open_paren(), TokenView::Identifier(call.name)];
    let inner = params_tokens(call.params);
    let tail = seq![close_paren()];
    lemma_occurs_concat(tokens, at, head + inner, tail);
    lemma_occurs_concat(tokens, at, head, inner);
    lemma_occurs_index(tokens, at, head, 1);
    lemma_occurs_index(tokens, at + 2 + inner.len(), tail, 0);
    lemma_parse_params_tokens(tokens, at + 2, call.params);
}

/// Where the tokens of some parameters stand before a closing parenthesis,
/// the parser reads those parameters, and stops on that parenthesis.
pub proof fn lemma_parse_params_tokens(tokens: Seq<TokenView>, at: int, params: Seq<NodeView>)
    requires
        occurs_at(tokens, at, params_tokens(params)),
        at + params_tokens(params).len() < tokens.len(),
        tokens[at + params_tokens(params).len()] == close_paren(),
    ensures
        parse_params(tokens, at) == Ok::<(Seq<NodeView>, nat), ParseError>(
            (params, params_tokens(params).len()),
        ),
    decreases params,
{
    if params.len() == 0 {
        assert(params =~= Seq::empty());
    } else {
        let first = node_tokens(params[0]);
        let rest = params.drop_first();
        lemma_occurs_concat(tokens, at, first, params_tokens(rest));
        assert(seq![params[0]] + rest =~= params);
        match params[0] {
            NodeView::NumberLiteral(text) => {
                lemma_occurs_index(tokens, at, first, 0);
                lemma_parse_params_tokens(tokens, at + 1, rest);
            },
            NodeView::StringLiteral(text) => {
                lemma_occurs_index(tokens, at, first, 0);
                lemma_parse_params_tokens(tokens, at + 1, rest);
            },
            NodeView::CallExpression(call) => {
                lemma_occurs_index(tokens, at, first, 0);
                assert(first[0] == open_paren());
                lemma_parens_differ();
                lemma_parse_call_tokens(tokens, at, call);
                lemma_parse_params_tokens(tokens, at + first.len(), rest);
            },
        }
    }
}

/// Where the tokens of some calls stand, and no further call opens after
/// them, the parser reads those calls and all of their tokens.
pub proof fn lemma_parse_program_tokens_at(
    tokens: Seq<TokenView>,
    at: int,
    calls: Seq<CallExpressionView>,
)
    requires
        occurs_at(tokens, at, program_tokens(calls)),
        at + program_tokens(calls).len() == tokens.len() || !is_open_paren(
            tokens[at + program_tokens(calls).len()],
        ),
    ensures
        parse_program(tokens, at) == Ok::<(Seq<CallExpressionView>, nat), ParseError>(
            (calls, program_tokens(calls).len()),
        ),
    decreases calls.len(),
{
    if calls.len() == 0 {
        assert(calls =~= Seq::empty());
    } else {
        let first = call_tokens(calls[0]);
        let rest = calls.drop_first();
        lemma_occurs_concat(tokens, at, first, program_tokens(rest));
        assert(seq![calls[0]] + rest =~= calls);
        lemma_occurs_index(tokens, at, first, 0);
        assert(tokens[at] == open_paren());
        lemma_parse_call_tokens(tokens, at, calls[0]);
        lemma_parse_program_tokens_at(tokens, at + first.len(), rest);
    }
}

/// The parser reads back any program from its tokens: it takes every
/// token, and makes one top-level call of each balanced group.
pub proof fn lemma_parse_program_tokens(program: ProgramView)
    ensures
        parse(program_tokens(program.body)) == Ok::<ProgramView, ParseError>(program),
        parse_program(program_tokens(program.body), 0) matches Ok((calls, taken))
            && calls.len() == program.body.len() && taken == program_tokens(program.body).len(),
{
    lemma_occurs_whole(program_tokens(program.body));
    lemma_parse_program_tokens_at(program_tokens(program.body), 0, program.body);
}

} // verus!
