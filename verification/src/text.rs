//! Character classes and small helpers on text.
use vstd::prelude::*;
use vstd::string::*;

verus! {

/// Space, newline or tab.
pub open spec fn is_whitespace(c: char) -> bool {
    c == ' ' || c == '\n' || c == '\t'
}

/// An opening or closing parenthesis.
pub open spec fn is_paren(c: char) -> bool {
    c == '(' || c == ')'
}

/// A decimal digit.
pub open spec fn is_digit(c: char) -> bool {
    '0' <= c <= '9'
}

/// A character that may begin an identifier: an ASCII letter or `_`.
pub open spec fn is_identifier_start(c: char) -> bool {
    'a' <= c <= 'z' || 'A' <= c <= 'Z' || c == '_'
}

/// A character that may continue an identifier.
pub open spec fn is_identifier_part(c: char) -> bool {
    is_identifier_start(c) || is_digit(c)
}

/// A single or a double quote.
pub open spec fn is_quote(c: char) -> bool {
    c == '\'' || c == '"'
}

/// Whether the character at `i` is escaped: the character before it is a
/// backslash which is not itself preceded by a backslash. Only the two
/// characters before `i` are looked at, and only those that exist.
pub open spec fn is_escaped(s: Seq<char>, i: int) -> bool {
    &&& 1 <= i <= s.len()
    &&& s[i - 1] == '\\'
    &&& !(2 <= i && s[i - 2] == '\\')
}

/// An identifier: a letter or underscore, then letters, digits and
/// underscores.
pub open spec fn is_identifier(text: Seq<char>) -> bool {
    &&& text.len() > 0
    &&& is_identifier_start(text[0])
    &&& forall|i: int| 0 <= i < text.len() ==> is_identifier_part(#[trigger] text[i])
}

/// A number: one decimal digit or more.
pub open spec fn is_number(text: Seq<char>) -> bool {
    &&& text.len() > 0
    &&& forall|i: int| 0 <= i < text.len() ==> is_digit(#[trigger] text[i])
}

/// Text that can stand between a pair of `quote`s: every `quote` in it is
/// escaped, and a `quote` that follows it is not.
pub open spec fn is_literal_body(text: Seq<char>, quote: char) -> bool {
    &&& forall|i: int|
        0 <= i < text.len() ==> !(#[trigger] text[i] == quote && !is_escaped(text, i))
    &&& !is_escaped(text, text.len() as int)
}

/// Taken on trust from the standard library: `String::push` appends the
/// given character to the end of the string, and changes nothing else.
pub assume_specification[ String::push ](s: &mut String, c: char)
    ensures
        final(s)@ == old(s)@.push(c),
;

/// The characters of `s`, in order, as a vector.
pub(crate) fn chars_of(s: &str) -> (v: Vec<char>)
    ensures
        v@ == s@,
{
    let mut v: Vec<char> = Vec::new();
    for c in it: s.chars()
        invariant
            v@ == it.seq().take(it.index() as int),
    {
        v.push(c);
    }
    v
}

/// The characters `chars[from..to]` as a `String`.
pub(crate) fn text_of(chars: &Vec<char>, from: usize, to: usize) -> (text: String)
    requires
        from <= to <= chars.len(),
    ensures
        text@ == chars@.subrange(from as int, to as int),
{
    let mut text = String::new();
    let mut i: usize = from;
    while i < to
        invariant
            from <= i <= to <= chars.len(),
            text@ == chars@.subrange(from as int, i as int),
        decreases to - i,
    {
        text.push(chars[i]);
        i += 1;
    }
    text
}

/// Whether `chars[i]` is escaped in the sense of [`is_escaped`].
pub(crate) fn escaped(chars: &Vec<char>, i: usize) -> (b: bool)
    requires
        i <= chars.len(),
    ensures
        b == is_escaped(chars@, i as int),
{
    i >= 1 && chars[i - 1] == '\\' && !(i >= 2 && chars[i - 2] == '\\')
}

/// Whether `text` is the single character `c`.
pub(crate) fn is_char(text: &String, c: char) -> (b: bool)
    ensures
        b == (text@ == seq![c]),
{
    let s = text.as_str();
    let b = s.unicode_len() == 1 && s.get_char(0) == c;
    proof {
        if b {
            assert(text@ =~= seq![c]);
        }
    }
    b
}

} // verus!
