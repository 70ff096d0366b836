use super_tiny_compiler::error::LexError;
use super_tiny_compiler::lexer::{lexer, LexOutcome};
use super_tiny_compiler::token::Token;

fn paren(text: &str) -> Token {
    Token::Paren(text.to_string())
}

fn ident(text: &str) -> Token {
    Token::Identifier(text.to_string())
}

fn number(text: &str) -> Token {
    Token::NumberLiteral(text.to_string())
}

fn chr(text: &str) -> Token {
    Token::CharLiteral(text.to_string())
}

fn string(text: &str) -> Token {
    Token::StringLiteral(text.to_string())
}

fn complete(tokens: Vec<Token>) -> LexOutcome {
    LexOutcome { tokens, error: None }
}

#[test]
fn tokenizes_a_simple_call() {
    assert_eq!(
        lexer("(add 2 2)".to_string()),
        complete(vec![paren("("), ident("add"), number("2"), number("2"), paren(")")])
    );
}

#[test]
fn tokenizes_a_nested_call() {
    assert_eq!(
        lexer("(add 2 (subtract 4 2))".to_string()),
        complete(vec![
            paren("("),
            ident("add"),
            number("2"),
            paren("("),
            ident("subtract"),
            number("4"),
            number("2"),
            paren(")"),
            paren(")"),
        ])
    );
}

#[test]
fn tokenizes_quoted_strings_without_their_quotes() {
    assert_eq!(
        lexer("(strcat \"ello\" \"world\")".to_string()),
        complete(vec![paren("("), ident("strcat"), string("ello"), string("world"), paren(")")])
    );
}

#[test]
fn tells_character_literals_from_strings() {
    assert_eq!(
        lexer("(strcat 'H' \"i\")".to_string()),
        complete(vec![paren("("), ident("strcat"), chr("H"), string("i"), paren(")")])
    );
}

#[test]
fn empty_text_has_no_tokens() {
    assert_eq!(lexer(String::new()), complete(vec![]));
}

#[test]
fn whitespace_alone_has_no_tokens() {
    assert_eq!(lexer(" \n\t  \n".to_string()), complete(vec![]));
}

#[test]
fn newlines_and_tabs_separate_tokens() {
    assert_eq!(
        lexer("(a\n1\t2)".to_string()),
        complete(vec![paren("("), ident("a"), number("1"), number("2"), paren(")")])
    );
}

#[test]
fn a_number_may_end_the_text() {
    assert_eq!(lexer("12".to_string()), complete(vec![number("12")]));
    assert_eq!(lexer("(add 2 345".to_string()).tokens.last(), Some(&number("345")));
}

#[test]
fn an_identifier_may_end_the_text() {
    assert_eq!(lexer("abc".to_string()), complete(vec![ident("abc")]));
    assert_eq!(lexer("x".to_string()), complete(vec![ident("x")]));
}

#[test]
fn identifiers_take_letters_digits_and_underscores() {
    assert_eq!(
        lexer("_a1 B_2z Zz".to_string()),
        complete(vec![ident("_a1"), ident("B_2z"), ident("Zz")])
    );
}

#[test]
fn a_number_ends_where_a_letter_begins() {
    assert_eq!(lexer("12ab".to_string()), complete(vec![number("12"), ident("ab")]));
}

#[test]
fn an_identifier_swallows_following_digits() {
    assert_eq!(lexer("ab12 3".to_string()), complete(vec![ident("ab12"), number("3")]));
}

#[test]
fn tokens_need_no_whitespace_around_parentheses() {
    assert_eq!(
        lexer("((f)1)".to_string()),
        complete(vec![paren("("), paren("("), ident("f"), paren(")"), number("1"), paren(")")])
    );
}

#[test]
fn a_quote_may_open_the_text() {
    assert_eq!(lexer("'a'".to_string()), complete(vec![chr("a")]));
    assert_eq!(lexer("\"a b\"".to_string()), complete(vec![string("a b")]));
}

#[test]
fn literals_may_be_empty() {
    assert_eq!(lexer("'' \"\"".to_string()), complete(vec![chr(""), string("")]));
}

#[test]
fn literals_keep_whitespace_and_other_characters() {
    assert_eq!(
        lexer("\"a (1)\t#\n'x'\"".to_string()),
        complete(vec![string("a (1)\t#\n'x'")])
    );
    assert_eq!(lexer("'say \"hi\"'".to_string()), complete(vec![chr("say \"hi\"")]));
}

#[test]
fn an_escaped_quote_does_not_close_a_literal() {
    // "a\"b"  holds the four characters  a \ " b
    assert_eq!(lexer("\"a\\\"b\"".to_string()), complete(vec![string("a\\\"b")]));
    assert_eq!(lexer("'\\''".to_string()), complete(vec![chr("\\'")]));
}

#[test]
fn a_quote_after_two_backslashes_closes_a_literal() {
    // "a\\"  holds  a \ \
    assert_eq!(lexer("\"a\\\\\" 1".to_string()), complete(vec![string("a\\\\"), number("1")]));
}

#[test]
fn only_two_characters_are_looked_back_at() {
    // "a\\\"  holds three backslashes: the quote counts as not escaped.
    assert_eq!(lexer("\"a\\\\\\\" 1".to_string()), complete(vec![string("a\\\\\\"), number("1")]));
}

#[test]
fn non_ascii_text_is_read_by_character() {
    assert_eq!(
        lexer("(f \"h\u{e9}llo \u{4e16}\u{754c}\" 1)".to_string()),
        complete(vec![
            paren("("),
            ident("f"),
            string("h\u{e9}llo \u{4e16}\u{754c}"),
            number("1"),
            paren(")"),
        ])
    );
}

#[test]
fn an_unknown_first_character_stops_the_scan_at_once() {
    assert_eq!(
        lexer("#".to_string()),
        LexOutcome { tokens: vec![], error: Some(LexError::UnknownCharacter) }
    );
}

#[test]
fn an_unknown_character_keeps_the_tokens_before_it() {
    assert_eq!(
        lexer("(add 2 # 3)".to_string()),
        LexOutcome {
            tokens: vec![paren("("), ident("add"), number("2")],
            error: Some(LexError::UnknownCharacter),
        }
    );
}

#[test]
fn a_non_ascii_letter_is_an_unknown_character() {
    assert_eq!(
        lexer("ab \u{e9}".to_string()),
        LexOutcome { tokens: vec![ident("ab")], error: Some(LexError::UnknownCharacter) }
    );
}

#[test]
fn a_backslash_outside_a_literal_is_an_unknown_character() {
    assert_eq!(
        lexer("1 \\'a'".to_string()),
        LexOutcome { tokens: vec![number("1")], error: Some(LexError::UnknownCharacter) }
    );
}

#[test]
fn a_nul_character_stops_the_scan() {
    assert_eq!(
        lexer("(a\0 1)".to_string()),
        LexOutcome { tokens: vec![paren("("), ident("a")], error: Some(LexError::UnknownCharacter) }
    );
}

#[test]
fn an_unterminated_string_is_reported() {
    assert_eq!(
        lexer("(f \"abc".to_string()),
        LexOutcome {
            tokens: vec![paren("("), ident("f")],
            error: Some(LexError::UnterminatedLiteral),
        }
    );
}

#[test]
fn an_unterminated_character_literal_is_reported() {
    assert_eq!(
        lexer("'".to_string()),
        LexOutcome { tokens: vec![], error: Some(LexError::UnterminatedLiteral) }
    );
}

#[test]
fn a_literal_closed_only_by_an_escaped_quote_is_unterminated() {
    assert_eq!(
        lexer("\"abc\\\"".to_string()),
        LexOutcome { tokens: vec![], error: Some(LexError::UnterminatedLiteral) }
    );
}

#[test]
fn a_quote_of_the_other_kind_does_not_close_a_literal() {
    assert_eq!(
        lexer("\"abc'".to_string()),
        LexOutcome { tokens: vec![], error: Some(LexError::UnterminatedLiteral) }
    );
}
