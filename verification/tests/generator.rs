use super_tiny_compiler::ast::{CallExpression, Node, Program};
use super_tiny_compiler::generator::{code_generator, generate_express};
use super_tiny_compiler::lexer::lexer;
use super_tiny_compiler::parser::parser;

fn call(name: &str, params: Vec<Node>) -> CallExpression {
    CallExpression { name: name.to_string(), params }
}

fn num(text: &str) -> Node {
    Node::NumberLiteral(text.to_string())
}

fn text(text: &str) -> Node {
    Node::StringLiteral(text.to_string())
}

fn nested(name: &str, params: Vec<Node>) -> Node {
    Node::CallExpression(call(name, params))
}

fn compile(source: &str) -> String {
    let outcome = lexer(source.to_string());
    assert_eq!(outcome.error, None);
    code_generator(parser(outcome.tokens).unwrap())
}

#[test]
fn generates_a_nested_call() {
    let ast = Program {
        body: vec![call("add", vec![num("2"), nested("subtract", vec![num("4"), num("2")])])],
    };
    assert_eq!(code_generator(ast), "add(2,subtract(4,2))");
}

#[test]
fn generates_strings_between_double_quotes() {
    assert_eq!(
        generate_express(&call("strcat", vec![text("ello"), text("world")])),
        "strcat(\"ello\",\"world\")"
    );
}

#[test]
fn compiles_quoted_strings() {
    assert_eq!(compile("(strcat \"ello\" \"world\")"), "strcat(\"ello\",\"world\")");
}

#[test]
fn character_literals_come_out_in_double_quotes() {
    assert_eq!(
        compile("(strcat 'H' (strcat \"ello\" \"world\"))"),
        "strcat(\"H\",strcat(\"ello\",\"world\"))"
    );
}

#[test]
fn compiles_the_simple_examples() {
    assert_eq!(compile("(add 2 2)"), "add(2,2)");
    assert_eq!(compile("(subtract 4 2)"), "subtract(4,2)");
    assert_eq!(compile("(add 2 (subtract 4 2))"), "add(2,subtract(4,2))");
}

#[test]
fn top_level_calls_are_joined_by_newlines() {
    assert_eq!(
        compile("(add 2 (subtract 4 2))\n(strcat 'H' (strcat \"ello\" \"world\"))"),
        "add(2,subtract(4,2))\nstrcat(\"H\",strcat(\"ello\",\"world\"))"
    );
    assert_eq!(compile("(a) (b) (c)"), "a()\nb()\nc()");
}

#[test]
fn an_empty_program_is_empty_text() {
    assert_eq!(code_generator(Program { body: vec![] }), "");
    assert_eq!(compile(""), "");
}

#[test]
fn a_call_without_parameters_has_empty_parentheses() {
    assert_eq!(generate_express(&call("now", vec![])), "now()");
}

#[test]
fn a_single_parameter_has_no_comma() {
    assert_eq!(generate_express(&call("f", vec![num("1")])), "f(1)");
    assert_eq!(generate_express(&call("f", vec![nested("g", vec![])])), "f(g())");
}

#[test]
fn an_empty_name_is_rendered_as_nothing() {
    assert_eq!(generate_express(&call("", vec![num("3")])), "(3)");
    assert_eq!(compile("(2 3)"), "(3)");
}

#[test]
fn literal_text_is_kept_as_it_is() {
    assert_eq!(
        generate_express(&call("f", vec![num("007"), text("a b,c)"), text("")])),
        "f(007,\"a b,c)\",\"\")"
    );
    // No escaping is added or removed.
    assert_eq!(compile("(f \"a\\\"b\")"), "f(\"a\\\"b\")");
}

#[test]
fn nesting_shows_in_the_parentheses() {
    assert_eq!(
        generate_express(&call(
            "a",
            vec![nested("b", vec![nested("c", vec![num("1")]), num("2")]), nested("d", vec![])]
        )),
        "a(b(c(1),2),d())"
    );
}

#[test]
fn different_trees_give_different_text() {
    let flat = call("f", vec![num("1"), num("2")]);
    let joined = call("f", vec![num("12")]);
    let deep = call("f", vec![nested("", vec![num("1"), num("2")])]);
    let as_text = call("f", vec![text("1"), text("2")]);
    let texts = [
        generate_express(&flat),
        generate_express(&joined),
        generate_express(&deep),
        generate_express(&as_text),
    ];
    assert_eq!(texts, ["f(1,2)", "f(12)", "f((1,2))", "f(\"1\",\"2\")"]);
}

#[test]
fn a_double_quote_inside_a_string_can_hide_the_tree() {
    let one = call("f", vec![text("a\",\"b")]);
    let two = call("f", vec![text("a"), text("b")]);
    assert_ne!(one, two);
    assert_eq!(generate_express(&one), generate_express(&two));
    assert_eq!(compile("(f 'a\",\"b')"), compile("(f \"a\" \"b\")"));
}
