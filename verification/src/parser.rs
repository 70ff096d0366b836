//! The parser: tokens to a tree of call expressions, by recursive descent.
use crate::ast::{
    call_views, lemma_call_views_push, lemma_node_views_push, node_views, CallExpression,
    CallExpressionView, Node, NodeView, Program, ProgramView,
};
use crate::error::ParseError;
use crate::text::is_char;
use crate::token::{all_well_formed, token_views, Token, TokenView};
use vstd::prelude::*;

verus! {

/// What a parsing step yields: the items it built and the number of tokens
/// it went over, or the reason it failed.
pub type Parsed<A> = Result<(Seq<A>, nat), ParseError>;

/// The number of tokens from `index` to the end.
pub open spec fn remaining(tokens: Seq<TokenView>, index: int) -> nat {
    if index <= tokens.len() {
        (tokens.len() - index) as nat
    } else {
        0
    }
}

/// An opening parenthesis.
pub open spec fn is_open_paren(token: TokenView) -> bool {
    token == TokenView::Paren(seq!['('])
}

/// A closing parenthesis.
pub open spec fn is_close_paren(token: TokenView) -> bool {
    token == TokenView::Paren(seq![')'])
}

/// The name that the token after an opening parenthesis gives to the call:
/// its text if it is an identifier, and the empty name otherwise.
pub open spec fn call_name(token: TokenView) -> Seq<char> {
    match token {
        TokenView::Identifier(text) => text,
        _ => Seq::empty(),
    }
}

/// The result `rest` of a later step, with the items `first` placed in front
/// and `skipped` more tokens counted.
pub open spec fn after<A>(first: Seq<A>, skipped: nat, rest: Parsed<A>) -> Parsed<A> {
    match rest {
        Ok((items, span)) => Ok((first + items, skipped + span)),
        Err(e) => Err(e),
    }
}

/// The call expression whose opening parenthesis stands at `start`, with the
/// distance from `start` to its closing parenthesis.
///
/// The token after the opening parenthesis gives the name, whatever it is.
/// The parameters follow. The call fails if the tokens end before its
/// closing parenthesis.
pub open spec fn parse_call(tokens: Seq<TokenView>, start: int) -> Result<
    (CallExpressionView, nat),
    ParseError,
>
    decreases remaining(tokens, start), 0int,
{
    if 0 <= start && start + 1 < tokens.len() {
        match parse_params(tokens, start + 2) {
            Ok((params, span)) => Ok(
                (CallExpressionView { name: call_name(tokens[start + 1]), params }, span + 2),
            ),
            Err(e) => Err(e),
        }
    } else {
        Err(ParseError::UnexpectedEndOfInput)
    }
}

/// The parameters from `index` up to the closing parenthesis of the call
/// they belong to, with the distance from `index` to that parenthesis.
///
/// A number becomes a number literal; a string or a character literal
/// becomes a string literal; an opening parenthesis starts a nested call.
/// Every other token is passed over.
pub open spec fn parse_params(tokens: Seq<TokenView>, index: int) -> Parsed<NodeView>
    decreases remaining(tokens, index), 1int,
{
    if !(0 <= index < tokens.len()) {
        Err(ParseError::UnexpectedEndOfInput)
    } else if is_close_paren(tokens[index]) {
        Ok((Seq::empty(), 0))
    } else if is_open_paren(tokens[index]) {
        match parse_call(tokens, index) {
            Ok((call, span)) => after(
                seq![NodeView::CallExpression(call)],
                span + 1,
                parse_params(tokens, index + span + 1),
            ),
            Err(e) => Err(e),
        }
    } else {
        after(param_of(tokens[index]), 1, parse_params(tokens, index + 1))
    }
}

/// The parameter that a token other than a parenthesis stands for, if any.
pub open spec fn param_of(token: TokenView) -> Seq<NodeView> {
    match token {
        TokenView::NumberLiteral(text) => seq![NodeView::NumberLiteral(text)],
        TokenView::CharLiteral(text) => seq![NodeView::StringLiteral(text)],
        TokenView::StringLiteral(text) => seq![NodeView::StringLiteral(text)],
        _ => Seq::empty(),
    }
}

/// The top-level calls from `cur` on, with the number of tokens they take.
///
/// Calls are read as long as the next token is an opening parenthesis. The
/// first token that is none ends the program, and so does the end of the
/// tokens; what follows is left unread.
pub open spec fn parse_program(tokens: Seq<TokenView>, cur: int) -> Parsed<CallExpressionView>
    decreases remaining(tokens, cur),
{
    if 0 <= cur < tokens.len() && is_open_paren(tokens[cur]) {
        match parse_call(tokens, cur) {
            Ok((call, span)) => after(
                seq![call],
                span + 1,
                parse_program(tokens, cur + span + 1),
            ),
            Err(e) => Err(e),
        }
    } else {
        Ok((Seq::empty(), 0))
    }
}

/// The program that a sequence of tokens stands for.
pub open spec fn parse(tokens: Seq<TokenView>) -> Result<ProgramView, ParseError> {
    match parse_program(tokens, 0) {
        Ok((body, _)) => Ok(ProgramView { body }),
        Err(e) => Err(e),
    }
}

/// A call read from well-formed tokens is well formed.
pub proof fn lemma_parse_call_well_formed(tokens: Seq<TokenView>, start: int)
    requires
        all_well_formed(tokens),
    ensures
        parse_call(tokens, start) matches Ok((call, _)) ==> call.well_formed(),
    decreases remaining(tokens, start), 0int,
{
    if 0 <= start && start + 1 < tokens.len() {
        lemma_parse_params_well_formed(tokens, start + 2);
        assert(tokens[start + 1].well_formed());
    }
}

/// Parameters read from well-formed tokens are well formed.
pub proof fn lemma_parse_params_well_formed(tokens: Seq<TokenView>, index: int)
    requires
        all_well_formed(tokens),
    ensures
        parse_params(tokens, index) matches Ok((params, _)) ==> forall|i: int|
            0 <= i < params.len() ==> (#[trigger] params[i]).well_formed(),
    decreases remaining(tokens, index), 1int,
{
    if !(0 <= index < tokens.len()) {
    } else if is_close_paren(tokens[index]) {
    } else if is_open_paren(tokens[index]) {
        lemma_parse_call_well_formed(tokens, index);
        if let Ok((call, span)) = parse_call(tokens, index) {
            lemma_parse_params_well_formed(tokens, index + span + 1);
        }
    } else {
        lemma_parse_params_well_formed(tokens, index + 1);
        assert(tokens[index].well_formed());
    }
}

/// A program read from well-formed tokens is well formed.
pub proof fn lemma_parse_program_well_formed(tokens: Seq<TokenView>, cur: int)
    requires
        all_well_formed(tokens),
    ensures
        parse_program(tokens, cur) matches Ok((calls, _)) ==> forall|i: int|
            0 <= i < calls.len() ==> (#[trigger] calls[i]).well_formed(),
    decreases remaining(tokens, cur),
{
    if 0 <= cur < tokens.len() && is_open_paren(tokens[cur]) {
        lemma_parse_call_well_formed(tokens, cur);
        if let Ok((call, span)) = parse_call(tokens, cur) {
            lemma_parse_program_well_formed(tokens, cur + span + 1);
        }
    }
}

/// Placing nothing in front changes nothing.
proof fn lemma_after_nothing<A>(rest: Parsed<A>)
    ensures
        after(Seq::empty(), 0, rest) == rest,
{
    if let Ok((items, span)) = rest {
        assert(Seq::<A>::empty() + items =~= items);
    }
}

/// Placing `first` and then `second` in front is placing both in front.
proof fn lemma_after_after<A>(
    first: Seq<A>,
    skipped: nat,
    second: Seq<A>,
    more: nat,
    rest: Parsed<A>,
)
    ensures
        after(first, skipped, after(second, more, rest)) == after(
            first + second,
            skipped + more,
            rest,
        ),
{
    if let Ok((items, span)) = rest {
        assert(first + (second + items) =~= (first + second) + items);
    }
}

/// Parses the call expression whose opening parenthesis is at `*index_t`.
///
/// The token at `*index_t` is passed over unread, and the token after it
/// gives the name. On success `*index_t` is left on the closing parenthesis
/// of the call. The call fails, and leaves `*index_t` as it was, if the
/// tokens end before that parenthesis.
pub fn parser_express(tokens: &Vec<Token>, index_t: &mut usize) -> (result: Result<
    CallExpression,
    ParseError,
>)
    ensures
        match parse_call(token_views(tokens@), *old(index_t) as int) {
            Ok((call, span)) => {
                &&& result matches Ok(express)
                &&& express@ == call
                &&& *final(index_t) == *old(index_t) + span
                &&& *final(index_t) < tokens.len()
                &&& is_close_paren(tokens[*final(index_t) as int]@)
            },
            Err(e) => result == Err::<CallExpression, ParseError>(e) && *final(index_t) == *old(
                index_t,
            ),
        },
    decreases tokens.len() - *old(index_t),
{
    let ghost views = token_views(tokens@);
    let start: usize = *index_t;
    if tokens.len() < 2 || start > tokens.len() - 2 {
        return Err(ParseError::UnexpectedEndOfInput);
    }
    let name = match &tokens[start + 1] {
        Token::Identifier(text) => text.clone(),
        _ => String::new(),
    };
    let mut params: Vec<Node> = Vec::new();
    let mut index: usize = start + 2;
    proof {
        assert(node_views(params@) =~= Seq::empty());
        lemma_after_nothing(parse_params(views, index as int));
    }
    loop
        invariant
            views == token_views(tokens@),
            start == *old(index_t),
            *index_t == *old(index_t),
            start + 2 <= index <= tokens.len(),
            name@ == call_name(views[start + 1]),
            parse_params(views, start + 2) == after(
                node_views(params@),
                (index - (start + 2)) as nat,
                parse_params(views, index as int),
            ),
        ensures
            index < tokens.len(),
            is_close_paren(views[index as int]),
        decreases tokens.len() - index,
    {
        if index >= tokens.len() {
            return Err(ParseError::UnexpectedEndOfInput);
        }
        let ghost here = index as int;
        let ghost before = params@;
        match &tokens[index] {
            Token::Paren(text) => {
                if is_char(text, ')') {
                    break ;
                }
                if is_char(text, '(') {
                    match parser_express(tokens, &mut index) {
                        Ok(nested) => {
                            params.push(Node::CallExpression(nested));
                        },
                        Err(e) => {
                            return Err(e);
                        },
                    }
                }
                index += 1;
            },
            Token::NumberLiteral(text) => {
                params.push(Node::NumberLiteral(text.clone()));
                index += 1;
            },
            Token::CharLiteral(text) => {
                params.push(Node::StringLiteral(text.clone()));
                index += 1;
            },
            Token::StringLiteral(text) => {
                params.push(Node::StringLiteral(text.clone()));
                index += 1;
            },
            Token::Identifier(_) => {
                index += 1;
            },
        }
        proof {
            let added = if params@.len() == before.len() {
                Seq::<NodeView>::empty()
            } else {
                seq![params@.last()@]
            };
            if params@.len() != before.len() {
                assert(params@ == before.push(params@.last()));
                lemma_node_views_push(before, params@.last());
            }
            assert(node_views(params@) =~= node_views(before) + added);
            assert(parse_params(views, here) == after(
                added,
                (index - here) as nat,
                parse_params(views, index as int),
            ));
            lemma_after_after(
                node_views(before),
                (here - (start + 2)) as nat,
                added,
                (index - here) as nat,
                parse_params(views, index as int),
            );
        }
    }
    proof {
        assert(node_views(params@) + Seq::empty() =~= node_views(params@));
    }
    *index_t = index;
    Ok(CallExpression { name, params })
}

/// Parses a whole sequence of tokens into a program.
///
/// Top-level calls are read one after another. The first token that is not
/// an opening parenthesis ends the program without an error, and the tokens
/// after it are not looked at. The parse fails if the tokens end inside a
/// call.
pub fn parser(tokens: Vec<Token>) -> (result: Result<Program, ParseError>)
    ensures
        match parse(token_views(tokens@)) {
            Ok(program) => result matches Ok(ast) && ast@ == program,
            Err(e) => result == Err::<Program, ParseError>(e),
        },
        all_well_formed(token_views(tokens@)) ==> (result matches Ok(ast) ==> ast@.well_formed()),
{
    proof {
        if all_well_formed(token_views(tokens@)) {
            lemma_parse_program_well_formed(token_views(tokens@), 0);
        }
    }
    let ghost views = token_views(tokens@);
    let mut body: Vec<CallExpression> = Vec::new();
    let mut token_cur: usize = 0;
    proof {
        assert(call_views(body@) =~= Seq::empty());
        lemma_after_nothing(parse_program(views, 0));
    }
    loop
        invariant
            views == token_views(tokens@),
            token_cur <= tokens.len(),
            parse_program(views, 0) == after(
                call_views(body@),
                token_cur as nat,
                parse_program(views, token_cur as int),
            ),
        ensures
            !(token_cur < tokens.len() && is_open_paren(views[token_cur as int])),
        decreases tokens.len() - token_cur,
    {
        if token_cur >= tokens.len() {
            break ;
        }
        let ghost here = token_cur as int;
        let ghost before = body@;
        let opens = match &tokens[token_cur] {
            Token::Paren(text) => is_char(text, '('),
            _ => false,
        };
        if !opens {
            break ;
        }
        match parser_express(&tokens, &mut token_cur) {
            Ok(express) => {
                body.push(express);
            },
            Err(e) => {
                return Err(e);
            },
        }
        token_cur += 1;
        proof {
            lemma_call_views_push(before, body@.last());
            assert(body@ == before.push(body@.last()));
            assert(call_views(body@) =~= call_views(before) + seq![body@.last()@]);
            lemma_after_after(
                call_views(before),
                here as nat,
                seq![body@.last()@],
                (token_cur - here) as nat,
                parse_program(views, token_cur as int),
            );
        }
    }
    proof {
        assert(call_views(body@) + Seq::empty() =~= call_views(body@));
    }
    Ok(Program { body })
}

} // verus!
