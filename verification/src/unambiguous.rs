//! The generated text determines the tree: two well-formed trees with the
//! same text are the same tree, as long as their strings can stand between
//! double quotes.
use crate::ast::{CallExpressionView, NodeView, ProgramView};
use crate::generator::{
    join, render_call, render_calls, render_node, render_nodes, render_program,
};
use crate::lexer::{lemma_lex_from_well_formed, lex};
use crate::parser::{lemma_parse_program_well_formed, parse, parse_program};
use crate::sequence::{lemma_occurs_concat, lemma_occurs_index, lemma_occurs_whole, occurs_at};
use crate::text::{
    is_digit, is_escaped, is_identifier, is_identifier_part, is_identifier_start,
    is_literal_body, is_number,
};
use vstd::prelude::*;

verus! {

/// Whether a number that ends just before `at` ends there for good: the
/// text ends, or goes on with something other than a digit.
pub open spec fn ends_number(text: Seq<char>, at: int) -> bool {
    at == text.len() || (0 <= at < text.len() && !is_digit(text[at]))
}

/// Whether a node is well formed and its strings can be quoted.
pub open spec fn legible(node: NodeView) -> bool {
    node.well_formed() && node.quotable()
}

/// Whether each node of a sequence is [`legible`].
pub open spec fn all_legible(nodes: Seq<NodeView>) -> bool {
    forall|i: int| 0 <= i < nodes.len() ==> legible(#[trigger] nodes[i])
}

/// Whether each call of a sequence is well formed with strings that can be
/// quoted.
pub open spec fn all_calls_legible(calls: Seq<CallExpressionView>) -> bool {
    forall|i: int|
        0 <= i < calls.len() ==> (#[trigger] calls[i]).well_formed() && calls[i].quotable()
}

/// The text of a call starts with its name, or with the parenthesis if it
/// has none.
pub proof fn lemma_render_call_first(call: CallExpressionView)
    requires
        call.well_formed(),
    ensures
        render_call(call).len() > 0,
        is_identifier_start(render_call(call)[0]) || render_call(call)[0] == '(',
{
    let text = render_call(call);
    if call.name.len() == 0 {
        assert(text[0] == '(');
    } else {
        assert(text[0] == call.name[0]);
    }
}

/// The first character of the text of a node tells its kind: a digit for a
/// number, a double quote for a string, the start of a call otherwise.
pub proof fn lemma_render_node_first(node: NodeView)
    requires
        node.well_formed(),
    ensures
        render_node(node).len() > 0,
        match node {
            NodeView::NumberLiteral(_) => is_digit(render_node(node)[0]),
            NodeView::StringLiteral(_) => render_node(node)[0] == '"',
            NodeView::CallExpression(_) => is_identifier_start(render_node(node)[0])
                || render_node(node)[0] == '(',
        },
{
    match node {
        NodeView::NumberLiteral(text) => {},
        NodeView::StringLiteral(text) => {
            assert(render_node(node)[0] == '"');
        },
        NodeView::CallExpression(call) => {
            lemma_render_call_first(call);
        },
    }
}

/// Two numbers that stand at the same place and both end there for good
/// are the same number.
proof fn lemma_numbers_agree(w: Seq<char>, k: int, t: Seq<char>, u: Seq<char>)
    requires
        is_number(t),
        is_number(u),
        occurs_at(w, k, t),
        occurs_at(w, k, u),
        ends_number(w, k + t.len()),
        ends_number(w, k + u.len()),
    ensures
        t == u,
{
    if t.len() < u.len() {
        lemma_occurs_index(w, k, u, t.len() as int);
        assert(is_digit(u[t.len() as int]));
    } else if u.len() < t.len() {
        lemma_occurs_index(w, k, t, u.len() as int);
        assert(is_digit(t[u.len() as int]));
    }
}

/// Two names that stand at the same place, each before an opening
/// parenthesis, are the same name.
proof fn lemma_names_agree(w: Seq<char>, k: int, s: Seq<char>, t: Seq<char>)
    requires
        s.len() == 0 || is_identifier(s),
        t.len() == 0 || is_identifier(t),
        occurs_at(w, k, s),
        occurs_at(w, k, t),
        k + s.len() < w.len() && w[k + s.len()] == '(',
        k + t.len() < w.len() && w[k + t.len()] == '(',
    ensures
        s == t,
{
    if s.len() < t.len() {
        lemma_occurs_index(w, k, t, s.len() as int);
        assert(is_identifier_part(t[s.len() as int]));
    } else if t.len() < s.len() {
        lemma_occurs_index(w, k, s, t.len() as int);
        assert(is_identifier_part(s[t.len() as int]));
    }
}

/// The text of a string between its double quotes.
pub open spec fn quoted(text: Seq<char>) -> Seq<char> {
    seq!['"'] + text + seq!['"']
}

/// Two quoted strings that stand at the same place are the same string.
proof fn lemma_strings_agree(w: Seq<char>, k: int, t: Seq<char>, u: Seq<char>)
    requires
        is_literal_body(t, '"'),
        is_literal_body(u, '"'),
        occurs_at(w, k, quoted(t)),
        occurs_at(w, k, quoted(u)),
    ensures
        t == u,
{
    let qt = quoted(t);
    let qu = quoted(u);
    assert forall|i: int| 0 <= i < t.len() implies w[k + 1 + i] == t[i] by {
        lemma_occurs_index(w, k, qt, 1 + i);
    }
    assert forall|i: int| 0 <= i < u.len() implies w[k + 1 + i] == u[i] by {
        lemma_occurs_index(w, k, qu, 1 + i);
    }
    lemma_occurs_index(w, k, qt, 1 + t.len() as int);
    lemma_occurs_index(w, k, qu, 1 + u.len() as int);
    if t.len() < u.len() {
        lemma_same_escape(w, k + 1, t, u, t.len() as int);
        assert(u[t.len() as int] == '"');
    } else if u.len() < t.len() {
        lemma_same_escape(w, k + 1, u, t, u.len() as int);
        assert(t[u.len() as int] == '"');
    } else {
        assert(t =~= u);
    }
}

/// Texts that agree up to a position agree on whether it is escaped.
proof fn lemma_same_escape(w: Seq<char>, k: int, t: Seq<char>, u: Seq<char>, at: int)
    requires
        0 <= at <= t.len(),
        at <= u.len(),
        forall|i: int| 0 <= i < t.len() ==> w[k + i] == t[i],
        forall|i: int| 0 <= i < u.len() ==> w[k + i] == u[i],
    ensures
        is_escaped(t, at) == is_escaped(u, at),
{
    if at >= 1 {
        assert(t[at - 1] == w[k + (at - 1)]);
        assert(u[at - 1] == w[k + (at - 1)]);
    }
    if at >= 2 {
        assert(t[at - 2] == w[k + (at - 2)]);
        assert(u[at - 2] == w[k + (at - 2)]);
    }
}

/// What follows the first parameter of a call: the closing parenthesis, or
/// a comma and the parameters that are left.
pub open spec fn after_first_param(params: Seq<NodeView>) -> Seq<char> {
    if params.len() <= 1 {
        seq![')']
    } else {
        seq![','] + (join(render_nodes(params.drop_first()), seq![',']) + seq![')'])
    }
}

/// Where the parameters of a call stand before its closing parenthesis, the
/// first one stands first, and [`after_first_param`] after it.
proof fn lemma_params_parts(w: Seq<char>, k: int, params: Seq<NodeView>)
    requires
        params.len() > 0,
        occurs_at(w, k, join(render_nodes(params), seq![',']) + seq![')']),
    ensures
        occurs_at(w, k, render_node(params[0])),
        occurs_at(w, k + render_node(params[0]).len(), after_first_param(params)),
{
    let parts = render_nodes(params);
    let first = render_node(params[0]);
    assert(parts[0] == first);
    assert(parts.drop_first() =~= render_nodes(params.drop_first()));
    assert(join(parts, seq![',']) + seq![')'] =~= first + after_first_param(params));
    lemma_occurs_concat(w, k, first, after_first_param(params));
}

/// Where the text of a call stands, its name stands first, then the
/// opening parenthesis, then the parameters and the closing parenthesis.
proof fn lemma_call_parts(w: Seq<char>, k: int, call: CallExpressionView)
    requires
        occurs_at(w, k, render_call(call)),
    ensures
        occurs_at(w, k, call.name),
        k + call.name.len() < w.len(),
        w[k + call.name.len()] == '(',
        occurs_at(
            w,
            k + call.name.len() + 1,
            join(render_nodes(call.params), seq![',']) + seq![')'],
        ),
{
    let inner = join(render_nodes(call.params), seq![',']) + seq![')'];
    let tail = seq!['('] + inner;
    assert(render_call(call) =~= call.name + tail);
    lemma_occurs_concat(w, k, call.name, tail);
    lemma_occurs_concat(w, k + call.name.len(), seq!['('], inner);
    lemma_occurs_index(w, k + call.name.len(), seq!['('], 0);
}

/// Two legible nodes whose texts stand at the same place, each ending there
/// for good, are the same node.
pub proof fn lemma_node_unambiguous(w: Seq<char>, k: int, a: NodeView, b: NodeView)
    requires
        legible(a),
        legible(b),
        occurs_at(w, k, render_node(a)),
        occurs_at(w, k, render_node(b)),
        ends_number(w, k + render_node(a).len()),
        ends_number(w, k + render_node(b).len()),
    ensures
        a == b,
    decreases a,
{
    lemma_render_node_first(a);
    lemma_render_node_first(b);
    lemma_occurs_index(w, k, render_node(a), 0);
    lemma_occurs_index(w, k, render_node(b), 0);
    match (a, b) {
        (NodeView::NumberLiteral(t), NodeView::NumberLiteral(u)) => {
            lemma_numbers_agree(w, k, t, u);
        },
        (NodeView::StringLiteral(t), NodeView::StringLiteral(u)) => {
            lemma_strings_agree(w, k, t, u);
        },
        (NodeView::CallExpression(c), NodeView::CallExpression(d)) => {
            lemma_call_unambiguous(w, k, c, d);
        },
        _ => {},
    }
}

/// Two legible calls whose texts stand at the same place are the same call.
pub proof fn lemma_call_unambiguous(
    w: Seq<char>,
    k: int,
    a: CallExpressionView,
    b: CallExpressionView,
)
    requires
        a.well_formed() && a.quotable(),
        b.well_formed() && b.quotable(),
        occurs_at(w, k, render_call(a)),
        occurs_at(w, k, render_call(b)),
    ensures
        a == b,
    decreases a,
{
    lemma_call_parts(w, k, a);
    lemma_call_parts(w, k, b);
    lemma_names_agree(w, k, a.name, b.name);
    lemma_params_unambiguous(w, k + a.name.len() + 1, a.params, b.params);
}

/// Two sequences of legible parameters whose texts stand at the same place,
/// each before a closing parenthesis, are the same sequence.
pub proof fn lemma_params_unambiguous(w: Seq<char>, k: int, ps: Seq<NodeView>, qs: Seq<NodeView>)
    requires
        all_legible(ps),
        all_legible(qs),
        occurs_at(w, k, join(render_nodes(ps), seq![',']) + seq![')']),
        occurs_at(w, k, join(render_nodes(qs), seq![',']) + seq![')']),
    ensures
        ps == qs,
    decreases ps,
{
    let close = seq![')'];
    let ja = join(render_nodes(ps), seq![',']) + close;
    let jb = join(render_nodes(qs), seq![',']) + close;
    if ps.len() == 0 && qs.len() == 0 {
        assert(ps =~= qs);
    } else if ps.len() == 0 {
        lemma_occurs_index(w, k, ja, 0);
        lemma_params_parts(w, k, qs);
        lemma_render_node_first(qs[0]);
        lemma_occurs_index(w, k, render_node(qs[0]), 0);
        assert(false);
    } else if qs.len() == 0 {
        lemma_occurs_index(w, k, jb, 0);
        lemma_params_parts(w, k, ps);
        lemma_render_node_first(ps[0]);
        lemma_occurs_index(w, k, render_node(ps[0]), 0);
        assert(false);
    } else {
        lemma_params_parts(w, k, ps);
        lemma_params_parts(w, k, qs);
        let ra = render_node(ps[0]);
        let rb = render_node(qs[0]);
        lemma_occurs_index(w, k + ra.len(), after_first_param(ps), 0);
        lemma_occurs_index(w, k + rb.len(), after_first_param(qs), 0);
        lemma_node_unambiguous(w, k, ps[0], qs[0]);
        let m = k + ra.len();
        if ps.len() == 1 || qs.len() == 1 {
            assert(w[m] == ')');
            assert(ps.len() == 1 && qs.len() == 1);
            assert(ps =~= qs);
        } else {
            let rest_a = join(render_nodes(ps.drop_first()), seq![',']) + close;
            let rest_b = join(render_nodes(qs.drop_first()), seq![',']) + close;
            lemma_occurs_concat(w, m, seq![','], rest_a);
            lemma_occurs_concat(w, m, seq![','], rest_b);
            lemma_params_unambiguous(w, m + 1, ps.drop_first(), qs.drop_first());
            assert(ps =~= seq![ps[0]] + ps.drop_first());
            assert(qs =~= seq![qs[0]] + qs.drop_first());
        }
    }
}

/// What follows the first call of a program: nothing, or a newline and
/// the calls that are left.
pub open spec fn after_first_call(calls: Seq<CallExpressionView>) -> Seq<char> {
    if calls.len() <= 1 {
        Seq::empty()
    } else {
        seq!['\n'] + join(render_calls(calls.drop_first()), seq!['\n'])
    }
}

/// Where the text of some calls stands, the first one stands first, and
/// [`after_first_call`] after it.
proof fn lemma_calls_parts(w: Seq<char>, k: int, calls: Seq<CallExpressionView>)
    requires
        calls.len() > 0,
        occurs_at(w, k, join(render_calls(calls), seq!['\n'])),
    ensures
        occurs_at(w, k, render_call(calls[0])),
        occurs_at(w, k + render_call(calls[0]).len(), after_first_call(calls)),
        join(render_calls(calls), seq!['\n']).len() == render_call(calls[0]).len()
            + after_first_call(calls).len(),
{
    let parts = render_calls(calls);
    let first = render_call(calls[0]);
    assert(parts[0] == first);
    assert(parts.drop_first() =~= render_calls(calls.drop_first()));
    assert(join(parts, seq!['\n']) =~= first + after_first_call(calls));
    lemma_occurs_concat(w, k, first, after_first_call(calls));
}

/// Two sequences of legible calls whose texts stand at the same place and
/// both run to the end of the text are the same sequence.
pub proof fn lemma_calls_unambiguous(
    w: Seq<char>,
    k: int,
    ps: Seq<CallExpressionView>,
    qs: Seq<CallExpressionView>,
)
    requires
        all_calls_legible(ps),
        all_calls_legible(qs),
        occurs_at(w, k, join(render_calls(ps), seq!['\n'])),
        occurs_at(w, k, join(render_calls(qs), seq!['\n'])),
        k + join(render_calls(ps), seq!['\n']).len() == w.len(),
        k + join(render_calls(qs), seq!['\n']).len() == w.len(),
    ensures
        ps == qs,
    decreases ps.len(),
{
    if ps.len() == 0 && qs.len() == 0 {
        assert(ps =~= qs);
    } else if ps.len() == 0 {
        lemma_calls_parts(w, k, qs);
        lemma_render_call_first(qs[0]);
    } else if qs.len() == 0 {
        lemma_calls_parts(w, k, ps);
        lemma_render_call_first(ps[0]);
    } else {
        lemma_calls_parts(w, k, ps);
        lemma_calls_parts(w, k, qs);
        lemma_call_unambiguous(w, k, ps[0], qs[0]);
        let m = k + render_call(ps[0]).len();
        if ps.len() == 1 || qs.len() == 1 {
            assert(ps.len() == 1 && qs.len() == 1);
            assert(ps =~= qs);
        } else {
            let rest_a = join(render_calls(ps.drop_first()), seq!['\n']);
            let rest_b = join(render_calls(qs.drop_first()), seq!['\n']);
            lemma_occurs_concat(w, m, seq!['\n'], rest_a);
            lemma_occurs_concat(w, m, seq!['\n'], rest_b);
            lemma_calls_unambiguous(w, m + 1, ps.drop_first(), qs.drop_first());
            assert(ps =~= seq![ps[0]] + ps.drop_first());
            assert(qs =~= seq![qs[0]] + qs.drop_first());
        }
    }
}

/// The text of a call determines the call: two well-formed calls whose
/// strings can stand between double quotes, and whose texts are equal, are
/// equal.
pub proof fn lemma_render_call_injective(a: CallExpressionView, b: CallExpressionView)
    requires
        a.well_formed(),
        a.quotable(),
        b.well_formed(),
        b.quotable(),
        render_call(a) == render_call(b),
    ensures
        a == b,
{
    lemma_occurs_whole(render_call(a));
    lemma_call_unambiguous(render_call(a), 0, a, b);
}

/// The generated text determines the program: two well-formed programs
/// whose strings can stand between double quotes, and whose texts are equal,
/// are equal. Nothing of a tree is lost in its text: not a name, not a
/// literal, not the nesting.
pub proof fn lemma_render_program_injective(p: ProgramView, q: ProgramView)
    requires
        p.well_formed(),
        p.quotable(),
        q.well_formed(),
        q.quotable(),
        render_program(p) == render_program(q),
    ensures
        p == q,
{
    lemma_occurs_whole(render_program(p));
    lemma_calls_unambiguous(render_program(p), 0, p.body, q.body);
}

/// Nothing is lost between the parser and the generated text.
///
/// Take two source texts whose tokens the parser accepts, and let every
/// string in the two programs be one that can stand between double quotes.
/// If the generator writes the same text for both programs, they are the
/// same program: the names, the literals and the nesting can all be read
/// off the generated text.
pub proof fn lemma_generated_text_determines_program(first: Seq<char>, second: Seq<char>)
    requires
        parse(lex(first).tokens) matches Ok(p) && p.quotable(),
        parse(lex(second).tokens) matches Ok(q) && q.quotable(),
        render_program(parse(lex(first).tokens)->Ok_0) == render_program(
            parse(lex(second).tokens)->Ok_0,
        ),
    ensures
        parse(lex(first).tokens) == parse(lex(second).tokens),
{
    lemma_lex_from_well_formed(first, 0);
    lemma_lex_from_well_formed(second, 0);
    lemma_parse_program_well_formed(lex(first).tokens, 0);
    lemma_parse_program_well_formed(lex(second).tokens, 0);
    let p = parse(lex(first).tokens)->Ok_0;
    let q = parse(lex(second).tokens)->Ok_0;
    assert(p.body == parse_program(lex(first).tokens, 0)->Ok_0.0);
    assert(q.body == parse_program(lex(second).tokens, 0)->Ok_0.0);
    lemma_render_program_injective(p, q);
}

} // verus!
