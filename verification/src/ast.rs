//! The abstract syntax tree: a program of nested call expressions.
use crate::text::{is_identifier, is_literal_body, is_number};
use vstd::prelude::*;

verus! {

/// A parameter of a call expression.
#[derive(Debug, PartialEq, Eq)]
pub enum Node {
    /// Numeric text, kept exactly as it was written.
    NumberLiteral(String),
    /// Quoted text, from a string or a character literal alike.
    StringLiteral(String),
    /// A nested call.
    CallExpression(CallExpression),
}

/// A call `(name param ...)`.
#[derive(Debug, PartialEq, Eq)]
pub struct CallExpression {
    /// The identifier after the opening parenthesis; empty if there was none.
    pub name: String,
    /// The parameters, in source order.
    pub params: Vec<Node>,
}

/// The root of a tree: the top-level calls in source order.
#[derive(Debug, PartialEq, Eq)]
pub struct Program {
    pub body: Vec<CallExpression>,
}

/// The mathematical value of a [`Node`].
pub ghost enum NodeView {
    NumberLiteral(Seq<char>),
    StringLiteral(Seq<char>),
    CallExpression(CallExpressionView),
}

/// The mathematical value of a [`CallExpression`].
pub ghost struct CallExpressionView {
    pub name: Seq<char>,
    pub params: Seq<NodeView>,
}

/// The mathematical value of a [`Program`].
pub ghost struct ProgramView {
    pub body: Seq<CallExpressionView>,
}

impl NodeView {
    /// Whether the node is one that well-formed tokens can give: a number
    /// is a run of digits, a string can stand between quotes of one kind or
    /// the other, and a nested call is well formed.
    pub open spec fn well_formed(self) -> bool
        decreases self,
    {
        match self {
            NodeView::NumberLiteral(text) => is_number(text),
            NodeView::StringLiteral(text) => is_literal_body(text, '\'') || is_literal_body(
                text,
                '"',
            ),
            NodeView::CallExpression(call) => call.well_formed(),
        }
    }
}

impl NodeView {
    /// Whether every string in the node can stand between double quotes:
    /// each double quote in it is escaped.
    pub open spec fn quotable(self) -> bool
        decreases self,
    {
        match self {
            NodeView::NumberLiteral(_) => true,
            NodeView::StringLiteral(text) => is_literal_body(text, '"'),
            NodeView::CallExpression(call) => call.quotable(),
        }
    }
}

impl CallExpressionView {
    /// Whether every string in the call can stand between double quotes.
    pub open spec fn quotable(self) -> bool
        decreases self,
    {
        forall|i: int| 0 <= i < self.params.len() ==> (#[trigger] self.params[i]).quotable()
    }

    /// Whether the call is one that well-formed tokens can give: its name
    /// is an identifier or empty, and its parameters are well formed.
    pub open spec fn well_formed(self) -> bool
        decreases self,
    {
        &&& self.name.len() == 0 || is_identifier(self.name)
        &&& forall|i: int|
            0 <= i < self.params.len() ==> (#[trigger] self.params[i]).well_formed()
    }
}

impl ProgramView {
    /// Whether every string in the program can stand between double quotes.
    pub open spec fn quotable(self) -> bool {
        forall|i: int| 0 <= i < self.body.len() ==> (#[trigger] self.body[i]).quotable()
    }

    /// Whether every top-level call is well formed.
    pub open spec fn well_formed(self) -> bool {
        forall|i: int| 0 <= i < self.body.len() ==> (#[trigger] self.body[i]).well_formed()
    }
}

impl Node {
    pub open spec fn view(&self) -> NodeView
        decreases self,
    {
        match self {
            Node::NumberLiteral(text) => NodeView::NumberLiteral(text@),
            Node::StringLiteral(text) => NodeView::StringLiteral(text@),
            Node::CallExpression(call) => NodeView::CallExpression(call.view()),
        }
    }
}

/// The values of a sequence of nodes, one by one.
pub open spec fn node_views(nodes: Seq<Node>) -> Seq<NodeView>
    decreases nodes,
{
    Seq::new(
        nodes.len(),
        |i: int|
            if 0 <= i < nodes.len() {
                nodes[i].view()
            } else {
                arbitrary()
            },
    )
}

impl CallExpression {
    pub open spec fn view(&self) -> CallExpressionView
        decreases self,
    {
        CallExpressionView { name: self.name@, params: node_views(self.params@) }
    }
}

/// The values of a sequence of calls, one by one.
pub open spec fn call_views(calls: Seq<CallExpression>) -> Seq<CallExpressionView> {
    Seq::new(calls.len(), |i: int| calls[i].view())
}

impl Program {
    pub open spec fn view(&self) -> ProgramView {
        ProgramView { body: call_views(self.body@) }
    }
}

/// Adding a node at the end adds its value at the end.
pub proof fn lemma_node_views_push(nodes: Seq<Node>, node: Node)
    ensures
        node_views(nodes.push(node)) == node_views(nodes).push(node@),
{
    assert(node_views(nodes.push(node)) =~= node_views(nodes).push(node@));
}

/// Adding a call at the end adds its value at the end.
pub proof fn lemma_call_views_push(calls: Seq<CallExpression>, call: CallExpression)
    ensures
        call_views(calls.push(call)) == call_views(calls).push(call@),
{
    assert(call_views(calls.push(call)) =~= call_views(calls).push(call@));
}

} // verus!
