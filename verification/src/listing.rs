//! Plain-text listings of tokens and trees, for diagnostics.
use crate::ast::{CallExpression, CallExpressionView, Node, NodeView, Program};
use crate::token::{token_views, Token, TokenView};
use vstd::prelude::*;
use vstd::string::*;

verus! {

/// One line of a listing: `type = <kind>  <field> = <text>`.
pub open spec fn field_line(kind: Seq<char>, field: Seq<char>, text: Seq<char>) -> Seq<char> {
    "type = "@ + kind + "  "@ + field + " = "@ + text + "\n"@
}

/// The name under which a listing shows the kind of a token.
pub open spec fn kind_label(token: TokenView) -> Seq<char> {
    match token {
        TokenView::Paren(_) => "Parent"@,
        TokenView::Identifier(_) => "Name"@,
        TokenView::NumberLiteral(_) => "Number"@,
        TokenView::CharLiteral(_) => "Char"@,
        TokenView::StringLiteral(_) => "Str"@,
    }
}

/// The text that a token carries.
pub open spec fn token_text(token: TokenView) -> Seq<char> {
    match token {
        TokenView::Paren(text) => text,
        TokenView::Identifier(text) => text,
        TokenView::NumberLiteral(text) => text,
        TokenView::CharLiteral(text) => text,
        TokenView::StringLiteral(text) => text,
    }
}

/// The listing of a sequence of tokens: a heading, then one line for each
/// token, indented by two spaces.
pub open spec fn tokens_listing(tokens: Seq<TokenView>) -> Seq<char>
    decreases tokens.len(),
{
    if tokens.len() == 0 {
        "\nToken is:\n"@
    } else {
        tokens_listing(tokens.drop_last()) + "  "@ + field_line(
            kind_label(tokens.last()),
            "value"@,
            token_text(tokens.last()),
        )
    }
}

/// `count` times two spaces.
pub open spec fn indent(count: nat) -> Seq<char>
    decreases count,
{
    if count == 0 {
        Seq::empty()
    } else {
        indent((count - 1) as nat) + "  "@
    }
}

/// The listing of a call behind the margin `margin`: a line for the call,
/// then its parameters in order.
pub open spec fn express_listing(call: CallExpressionView, margin: Seq<char>) -> Seq<char>
    decreases call,
{
    margin + field_line("CallExpression"@, "name"@, call.name) + params_listing(
        call.params,
        margin,
        margin,
    )
}

/// The listing of the parameters of a call whose own margin is `margin`.
///
/// A literal takes one line, two spaces further in than the call. A nested
/// call is listed behind `nested` and two more spaces, and every nested call
/// moves `nested` that much further for the parameters after it.
pub open spec fn params_listing(params: Seq<NodeView>, margin: Seq<char>, nested: Seq<char>) -> Seq<
    char,
>
    decreases params,
{
    if params.len() == 0 {
        Seq::empty()
    } else {
        let rest = params.drop_first();
        match params[0] {
            NodeView::NumberLiteral(text) => margin + "  "@ + field_line(
                "NumberLiteral"@,
                "value"@,
                text,
            ) + params_listing(rest, margin, nested),
            NodeView::StringLiteral(text) => margin + "  "@ + field_line(
                "StringLiteral"@,
                "value"@,
                text,
            ) + params_listing(rest, margin, nested),
            NodeView::CallExpression(call) => express_listing(call, nested + "  "@)
                + params_listing(rest, margin, nested + "  "@),
        }
    }
}

/// The listing of a program: a heading, then each top-level call behind a
/// margin of two spaces.
pub open spec fn ast_listing(calls: Seq<CallExpressionView>) -> Seq<char>
    decreases calls.len(),
{
    if calls.len() == 0 {
        "\nAST is:\n"@
    } else {
        ast_listing(calls.drop_last()) + express_listing(calls.last(), indent(1))
    }
}

/// Appends one line of a listing to `out`.
fn push_field_line(out: &mut String, kind: &str, field: &str, text: &str)
    ensures
        final(out)@ == old(out)@ + field_line(kind@, field@, text@),
{
    out.append("type = ");
    out.append(kind);
    out.append("  ");
    out.append(field);
    out.append(" = ");
    out.append(text);
    out.append("\n");
    assert(out@ =~= old(out)@ + field_line(kind@, field@, text@));
}

/// Lists tokens, one to a line, with their kind and text.
pub fn format_tokens(tokens: &Vec<Token>) -> (out: String)
    ensures
        out@ == tokens_listing(token_views(tokens@)),
{
    let ghost views = token_views(tokens@);
    let mut out = String::from_str("\nToken is:\n");
    assert(views.take(0) =~= Seq::empty());
    let mut i: usize = 0;
    while i < tokens.len()
        invariant
            i <= tokens.len(),
            views == token_views(tokens@),
            out@ == tokens_listing(views.take(i as int)),
        decreases tokens.len() - i,
    {
        out.append("  ");
        match &tokens[i] {
            Token::Paren(value) => push_field_line(&mut out, "Parent", "value", value.as_str()),
            Token::Identifier(value) => push_field_line(&mut out, "Name", "value", value.as_str()),
            Token::NumberLiteral(value) => push_field_line(
                &mut out,
                "Number",
                "value",
                value.as_str(),
            ),
            Token::CharLiteral(value) => push_field_line(&mut out, "Char", "value", value.as_str()),
            Token::StringLiteral(value) => push_field_line(
                &mut out,
                "Str",
                "value",
                value.as_str(),
            ),
        }
        assert(views.take(i + 1).drop_last() =~= views.take(i as int));
        i += 1;
    }
    assert(views.take(i as int) =~= views);
    out
}

/// `space_count` times two spaces.
pub fn spaces(space_count: u64) -> (out: String)
    ensures
        out@ == indent(space_count as nat),
{
    let mut out = String::new();
    let mut done: u64 = 0;
    while done < space_count
        invariant
            done <= space_count,
            out@ == indent(done as nat),
        decreases space_count - done,
    {
        out.append("  ");
        done += 1;
    }
    out
}

/// Lists a call behind the margin `margin`.
fn format_express_behind(express: &CallExpression, margin: &str) -> (out: String)
    ensures
        out@ == express_listing(express@, margin@),
    decreases express,
{
    let ghost params = express@.params;
    let mut out = String::from_str(margin);
    push_field_line(&mut out, "CallExpression", "name", express.name.as_str());
    let ghost head = out@;
    let mut nested = String::from_str(margin);
    assert(params.skip(0) =~= params);
    assert(head + Seq::empty() =~= head);
    let mut i: usize = 0;
    while i < express.params.len()
        invariant
            i <= express.params.len(),
            params == express@.params,
            params.len() == express.params.len(),
            head + params_listing(params, margin@, margin@) == out@ + params_listing(
                params.skip(i as int),
                margin@,
                nested@,
            ),
        decreases express.params.len() - i,
    {
        let ghost before = out@;
        let ghost nested_before = nested@;
        let ghost rest = params.skip(i as int);
        assert(rest.drop_first() =~= params.skip(i + 1));
        assert(rest[0] == express.params@[i as int]@);
        match &express.params[i] {
            Node::NumberLiteral(value) => {
                out.append(margin);
                out.append("  ");
                push_field_line(&mut out, "NumberLiteral", "value", value.as_str());
            },
            Node::StringLiteral(value) => {
                out.append(margin);
                out.append("  ");
                push_field_line(&mut out, "StringLiteral", "value", value.as_str());
            },
            Node::CallExpression(value) => {
                nested.append("  ");
                let inner = format_express_behind(value, nested.as_str());
                out.append(inner.as_str());
            },
        }
        proof {
            let tail = params_listing(params.skip(i + 1), margin@, nested@);
            let step = out@.subrange(before.len() as int, out@.len() as int);
            assert(out@ =~= before + step);
            assert(params_listing(rest, margin@, nested_before) =~= step + tail);
            assert(before + (step + tail) =~= out@ + tail);
        }
        i += 1;
    }
    assert(params.skip(i as int) =~= Seq::empty());
    assert(out@ + Seq::empty() =~= out@);
    out
}

/// Lists a call expression behind `space_count` times two spaces.
pub fn format_express(express: &CallExpression, space_count: u64) -> (out: String)
    ensures
        out@ == express_listing(express@, indent(space_count as nat)),
{
    let margin = spaces(space_count);
    format_express_behind(express, margin.as_str())
}

/// Lists a program, call by call.
pub fn format_ast(ast: &Program) -> (out: String)
    ensures
        out@ == ast_listing(ast@.body),
{
    let ghost calls = ast@.body;
    let mut out = String::from_str("\nAST is:\n");
    assert(calls.take(0) =~= Seq::empty());
    let mut i: usize = 0;
    while i < ast.body.len()
        invariant
            i <= ast.body.len(),
            calls == ast@.body,
            calls.len() == ast.body.len(),
            out@ == ast_listing(calls.take(i as int)),
        decreases ast.body.len() - i,
    {
        let lines = format_express(&ast.body[i], 1);
        out.append(lines.as_str());
        assert(calls.take(i + 1).drop_last() =~= calls.take(i as int));
        i += 1;
    }
    assert(calls.take(i as int) =~= calls);
    out
}

} // verus!
