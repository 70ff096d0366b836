//! The code generator: a tree of call expressions to C-style text.
use crate::ast::{CallExpression, CallExpressionView, Node, NodeView, Program, ProgramView};
use vstd::prelude::*;
use vstd::string::*;

verus! {

/// The texts `parts` one after another, with `separator` between each two.
pub open spec fn join(parts: Seq<Seq<char>>, separator: Seq<char>) -> Seq<char>
    decreases parts.len(),
{
    if parts.len() == 0 {
        Seq::empty()
    } else if parts.len() == 1 {
        parts[0]
    } else {
        parts[0] + separator + join(parts.drop_first(), separator)
    }
}

/// The text of a parameter: a number as it is, a string between double
/// quotes, a nested call as [`render_call`] gives it.
pub open spec fn render_node(node: NodeView) -> Seq<char>
    decreases node,
{
    match node {
        NodeView::NumberLiteral(text) => text,
        NodeView::StringLiteral(text) => seq!['"'] + text + seq!['"'],
        NodeView::CallExpression(call) => render_call(call),
    }
}

/// The texts of a sequence of parameters, one by one.
pub open spec fn render_nodes(nodes: Seq<NodeView>) -> Seq<Seq<char>>
    decreases nodes,
{
    Seq::new(
        nodes.len(),
        |i: int|
            if 0 <= i < nodes.len() {
                render_node(nodes[i])
            } else {
                Seq::empty()
            },
    )
}

/// The text of a call: its name, then its parameters between parentheses,
/// with a comma between each two.
pub open spec fn render_call(call: CallExpressionView) -> Seq<char>
    decreases call,
{
    call.name + seq!['('] + join(render_nodes(call.params), seq![',']) + seq![')']
}

/// The texts of a sequence of calls, one by one.
pub open spec fn render_calls(calls: Seq<CallExpressionView>) -> Seq<Seq<char>> {
    Seq::new(calls.len(), |i: int| render_call(calls[i]))
}

/// The text of a program: its calls in order, with a newline between each
/// two.
pub open spec fn render_program(program: ProgramView) -> Seq<char> {
    join(render_calls(program.body), seq!['\n'])
}

/// Joining one more part at the end: the first part stands alone, each
/// later one follows a separator.
pub proof fn lemma_join_push(parts: Seq<Seq<char>>, separator: Seq<char>, last: Seq<char>)
    ensures
        join(parts.push(last), separator) == if parts.len() == 0 {
            last
        } else {
            join(parts, separator) + separator + last
        },
    decreases parts.len(),
{
    let all = parts.push(last);
    if parts.len() == 0 {
    } else if parts.len() == 1 {
        assert(all.drop_first() =~= seq![last]);
        assert(join(all.drop_first(), separator) == last);
    } else {
        let rest = parts.drop_first();
        assert(all.drop_first() =~= rest.push(last));
        lemma_join_push(rest, separator, last);
        assert(parts[0] + separator + (join(rest, separator) + separator + last) =~= (parts[0]
            + separator + join(rest, separator)) + separator + last);
    }
}

/// Joining the first `i + 1` parts, from joining the first `i`.
pub proof fn lemma_join_take(parts: Seq<Seq<char>>, separator: Seq<char>, i: int)
    requires
        0 <= i < parts.len(),
    ensures
        join(parts.take(i + 1), separator) == if i == 0 {
            parts[0]
        } else {
            join(parts.take(i), separator) + separator + parts[i]
        },
{
    assert(parts.take(i + 1) =~= parts.take(i).push(parts[i]));
    lemma_join_push(parts.take(i), separator, parts[i]);
}

/// Renders one call expression.
pub fn generate_express(express: &CallExpression) -> (out: String)
    ensures
        out@ == render_call(express@),
    decreases express,
{
    let ghost parts = render_nodes(express@.params);
    let mut out = String::new();
    out.append(express.name.as_str());
    out.push('(');
    let ghost head = out@;
    assert(head =~= express@.name + seq!['(']);
    assert(parts.take(0) =~= Seq::empty());
    assert(head + join(parts.take(0), seq![',']) =~= head);
    let mut i: usize = 0;
    while i < express.params.len()
        invariant
            i <= express.params.len(),
            parts == render_nodes(express@.params),
            parts.len() == express.params.len(),
            head == express@.name + seq!['('],
            out@ == head + join(parts.take(i as int), seq![',']),
        decreases express.params.len() - i,
    {
        let ghost before = out@;
        if i > 0 {
            out.push(',');
        }
        match &express.params[i] {
            Node::NumberLiteral(value) => {
                out.append(value.as_str());
            },
            Node::StringLiteral(value) => {
                out.push('"');
                out.append(value.as_str());
                out.push('"');
            },
            Node::CallExpression(value) => {
                let inner = generate_express(value);
                out.append(inner.as_str());
            },
        }
        proof {
            let part = parts[i as int];
            assert(part == render_node(express.params@[i as int]@));
            lemma_join_take(parts, seq![','], i as int);
            if i > 0 {
                assert(out@ =~= before + seq![','] + part);
                assert(out@ =~= head + (join(parts.take(i as int), seq![',']) + seq![','] + part));
            } else {
                assert(out@ =~= before + part);
            }
        }
        i += 1;
    }
    assert(parts.take(i as int) =~= parts);
    out.push(')');
    out
}

/// Renders a program: each top-level call on a line of its own.
pub fn code_generator(ast: Program) -> (out: String)
    ensures
        out@ == render_program(ast@),
{
    let ghost parts = render_calls(ast@.body);
    let mut out = String::new();
    assert(parts.take(0) =~= Seq::empty());
    let mut i: usize = 0;
    while i < ast.body.len()
        invariant
            i <= ast.body.len(),
            parts == render_calls(ast@.body),
            parts.len() == ast.body.len(),
            out@ == join(parts.take(i as int), seq!['\n']),
        decreases ast.body.len() - i,
    {
        let ghost before = out@;
        if i > 0 {
            out.push('\n');
        }
        let line = generate_express(&ast.body[i]);
        out.append(line.as_str());
        proof {
            lemma_join_take(parts, seq!['\n'], i as int);
            if i == 0 {
                assert(out@ =~= parts[0]);
            }
        }
        i += 1;
    }
    assert(parts.take(i as int) =~= parts);
    out
}

} // verus!
