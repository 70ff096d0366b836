use super_tiny_compiler::ast::{CallExpression, Node, Program};
use super_tiny_compiler::error::ParseError;
use super_tiny_compiler::lexer::lexer;
use super_tiny_compiler::parser::{parser, parser_express};
use super_tiny_compiler::token::Token;

fn tokens_of(source: &str) -> Vec<Token> {
    let outcome = lexer(source.to_string());
    assert_eq!(outcome.error, None);
    outcome.tokens
}

fn call(name: &str, params: Vec<Node>) -> CallExpression {
    CallExpression { name: name.to_string(), params }
}

fn num(text: &str) -> Node {
    Node::NumberLiteral(text.to_string())
}

fn text(text: &str) -> Node {
    Node::StringLiteral(text.to_string())
}

fn nested(name: &str, params: Vec<Node>) -> Node {
    Node::CallExpression(call(name, params))
}

#[test]
fn parses_a_nested_call() {
    assert_eq!(
        parser(tokens_of("(add 2 (subtract 4 2))")),
        Ok(Program { body: vec![call("add", vec![num("2"), nested("subtract", vec![num("4"), num("2")])])] })
    );
}

#[test]
fn parses_one_call_for_each_balanced_group() {
    let program = parser(tokens_of("(a 1)\n(b (c 2) \"x\")  (d)")).unwrap();
    assert_eq!(
        program.body,
        vec![
            call("a", vec![num("1")]),
            call("b", vec![nested("c", vec![num("2")]), text("x")]),
            call("d", vec![]),
        ]
    );
}

#[test]
fn character_and_string_literals_become_string_nodes() {
    assert_eq!(
        parser(tokens_of("(strcat 'H' (strcat \"ello\" \"world\"))")),
        Ok(Program {
            body: vec![call(
                "strcat",
                vec![text("H"), nested("strcat", vec![text("ello"), text("world")])]
            )]
        })
    );
}

#[test]
fn no_tokens_make_an_empty_program() {
    assert_eq!(parser(vec![]), Ok(Program { body: vec![] }));
}

#[test]
fn an_unterminated_parenthesis_is_an_error() {
    assert_eq!(parser(tokens_of("(add 2 2")), Err(ParseError::UnexpectedEndOfInput));
}

#[test]
fn an_unterminated_nested_call_is_an_error() {
    assert_eq!(parser(tokens_of("(add 2 (subtract 4 2)")), Err(ParseError::UnexpectedEndOfInput));
}

#[test]
fn a_lone_opening_parenthesis_is_an_error() {
    assert_eq!(parser(tokens_of("(")), Err(ParseError::UnexpectedEndOfInput));
}

#[test]
fn a_call_without_parameters_or_end_is_an_error() {
    assert_eq!(parser(tokens_of("(add")), Err(ParseError::UnexpectedEndOfInput));
}

#[test]
fn an_error_in_a_later_call_fails_the_whole_parse() {
    assert_eq!(parser(tokens_of("(a 1) (b 2")), Err(ParseError::UnexpectedEndOfInput));
}

#[test]
fn a_head_that_is_no_identifier_gives_an_empty_name() {
    // The token in the name's place is used up, whatever it is.
    assert_eq!(parser(tokens_of("(2 3)")), Ok(Program { body: vec![call("", vec![num("3")])] }));
    assert_eq!(
        parser(tokens_of("(\"f\" 1 2)")),
        Ok(Program { body: vec![call("", vec![num("1"), num("2")])] })
    );
}

#[test]
fn a_parenthesis_in_the_names_place_is_used_up_as_the_name() {
    // In "() )" the first ")" stands where the name should: the call ends at the second.
    assert_eq!(parser(tokens_of("() )")), Ok(Program { body: vec![call("", vec![])] }));
    assert_eq!(parser(tokens_of("()")), Err(ParseError::UnexpectedEndOfInput));
    // In "((a) b)" the inner "(" is the name's place, so the call ends after "a".
    assert_eq!(parser(tokens_of("((a) b)")), Ok(Program { body: vec![call("", vec![])] }));
}

#[test]
fn identifiers_among_the_parameters_are_dropped() {
    assert_eq!(
        parser(tokens_of("(add x 2 y)")),
        Ok(Program { body: vec![call("add", vec![num("2")])] })
    );
}

#[test]
fn a_parenthesis_token_with_other_text_is_dropped() {
    let tokens = vec![
        Token::Paren("(".to_string()),
        Token::Identifier("f".to_string()),
        Token::Paren("[".to_string()),
        Token::NumberLiteral("1".to_string()),
        Token::Paren("((".to_string()),
        Token::Paren(")".to_string()),
    ];
    assert_eq!(parser(tokens), Ok(Program { body: vec![call("f", vec![num("1")])] }));
}

#[test]
fn the_first_token_that_opens_no_call_ends_the_program() {
    assert_eq!(
        parser(tokens_of("(a 1) b (c 2)")),
        Ok(Program { body: vec![call("a", vec![num("1")])] })
    );
    assert_eq!(parser(tokens_of("7 (a 1)")), Ok(Program { body: vec![] }));
}

#[test]
fn a_closing_parenthesis_at_top_level_ends_the_program() {
    assert_eq!(parser(tokens_of(")")), Ok(Program { body: vec![] }));
    assert_eq!(
        parser(tokens_of("(a 1)) (b 2)")),
        Ok(Program { body: vec![call("a", vec![num("1")])] })
    );
}

#[test]
fn tokens_after_the_end_of_the_program_are_not_checked() {
    // The unterminated "(c" is never reached.
    assert_eq!(
        parser(tokens_of("(a 1) b (c")),
        Ok(Program { body: vec![call("a", vec![num("1")])] })
    );
}

#[test]
fn parser_express_stops_on_the_closing_parenthesis() {
    let tokens = tokens_of("(add 2 (subtract 4 2)) (next)");
    let mut index = 0;
    assert_eq!(
        parser_express(&tokens, &mut index),
        Ok(call("add", vec![num("2"), nested("subtract", vec![num("4"), num("2")])]))
    );
    assert_eq!(index, 8);
    assert_eq!(tokens[index], Token::Paren(")".to_string()));
}

#[test]
fn parser_express_reads_a_nested_call_in_place() {
    let tokens = tokens_of("(add 2 (subtract 4 2))");
    let mut index = 3;
    assert_eq!(parser_express(&tokens, &mut index), Ok(call("subtract", vec![num("4"), num("2")])));
    assert_eq!(index, 7);
}

#[test]
fn parser_express_does_not_look_at_the_token_it_starts_on() {
    let tokens = tokens_of("9 f 1 )");
    let mut index = 0;
    assert_eq!(parser_express(&tokens, &mut index), Ok(call("f", vec![num("1")])));
    assert_eq!(index, 3);
}

#[test]
fn parser_express_leaves_the_index_alone_when_it_fails() {
    let tokens = tokens_of("(a (b 1) 2");
    let mut index = 0;
    assert_eq!(parser_express(&tokens, &mut index), Err(ParseError::UnexpectedEndOfInput));
    assert_eq!(index, 0);
}

#[test]
fn parser_express_fails_on_an_index_near_or_past_the_end() {
    let tokens = tokens_of("(a)");
    for start in [2usize, 3, 4, usize::MAX] {
        let mut index = start;
        assert_eq!(parser_express(&tokens, &mut index), Err(ParseError::UnexpectedEndOfInput));
        assert_eq!(index, start);
    }
    let mut index = 0;
    assert_eq!(parser_express(&vec![], &mut index), Err(ParseError::UnexpectedEndOfInput));
}

#[test]
fn balanced_groups_are_read_back_whatever_the_whitespace() {
    let program = parser(tokens_of("  (add\t2\n(subtract 4 2))(f \"x\" )\n\n( g )\t")).unwrap();
    assert_eq!(
        program.body,
        vec![
            call("add", vec![num("2"), nested("subtract", vec![num("4"), num("2")])]),
            call("f", vec![text("x")]),
            call("g", vec![]),
        ]
    );
}
