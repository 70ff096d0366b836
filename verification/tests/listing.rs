use super_tiny_compiler::ast::{CallExpression, Node, Program};
use super_tiny_compiler::lexer::lexer;
use super_tiny_compiler::listing::{format_ast, format_express, format_tokens, spaces};
use super_tiny_compiler::parser::parser;

fn call(name: &str, params: Vec<Node>) -> CallExpression {
    CallExpression { name: name.to_string(), params }
}

fn num(text: &str) -> Node {
    Node::NumberLiteral(text.to_string())
}

fn nested(name: &str, params: Vec<Node>) -> Node {
    Node::CallExpression(call(name, params))
}

#[test]
fn lists_tokens_with_kind_and_text() {
    let outcome = lexer("(add 2 'H' \"ello\")".to_string());
    assert_eq!(
        format_tokens(&outcome.tokens),
        "\nToken is:\n\
         \x20 type = Parent  value = (\n\
         \x20 type = Name  value = add\n\
         \x20 type = Number  value = 2\n\
         \x20 type = Char  value = H\n\
         \x20 type = Str  value = ello\n\
         \x20 type = Parent  value = )\n"
    );
}

#[test]
fn lists_no_tokens_as_the_heading_alone() {
    assert_eq!(format_tokens(&vec![]), "\nToken is:\n");
}

#[test]
fn lists_a_program_as_an_indented_tree() {
    let source = "(add 2 (subtract 4 2))\n(strcat 'H' (strcat \"ello\" \"world\"))";
    let ast = parser(lexer(source.to_string()).tokens).unwrap();
    assert_eq!(
        format_ast(&ast),
        "\nAST is:\n\
         \x20 type = CallExpression  name = add\n\
         \x20   type = NumberLiteral  value = 2\n\
         \x20   type = CallExpression  name = subtract\n\
         \x20     type = NumberLiteral  value = 4\n\
         \x20     type = NumberLiteral  value = 2\n\
         \x20 type = CallExpression  name = strcat\n\
         \x20   type = StringLiteral  value = H\n\
         \x20   type = CallExpression  name = strcat\n\
         \x20     type = StringLiteral  value = ello\n\
         \x20     type = StringLiteral  value = world\n"
    );
}

#[test]
fn lists_an_empty_program_as_the_heading_alone() {
    assert_eq!(format_ast(&Program { body: vec![] }), "\nAST is:\n");
}

#[test]
fn each_nested_call_is_listed_further_in_than_the_one_before() {
    let tree = call("a", vec![nested("b", vec![]), nested("c", vec![num("5")]), num("1")]);
    assert_eq!(
        format_express(&tree, 1),
        "\x20 type = CallExpression  name = a\n\
         \x20   type = CallExpression  name = b\n\
         \x20     type = CallExpression  name = c\n\
         \x20       type = NumberLiteral  value = 5\n\
         \x20   type = NumberLiteral  value = 1\n"
    );
}

#[test]
fn a_call_can_be_listed_without_a_margin() {
    assert_eq!(
        format_express(&call("f", vec![num("1")]), 0),
        "type = CallExpression  name = f\n\x20 type = NumberLiteral  value = 1\n"
    );
}

#[test]
fn spaces_come_in_pairs() {
    assert_eq!(spaces(0), "");
    assert_eq!(spaces(1), "  ");
    assert_eq!(spaces(3), "      ");
}
