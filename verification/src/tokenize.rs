//! The lexer: from source text to a sequence of tokens, in one pass from left
//! to right.

use crate::text::{char_to_string, chars_of, is_decimal_digit, is_digit, unicode_alphanumeric};
use vstd::prelude::*;

verus! {

/// The kind of a token.
#[derive(Clone, Copy, Debug, PartialEq, Eq, Structural)]
pub enum TokenType {
    /// A run of decimal digits: `3`, `17`.
    NumberLiteral,
    /// A name: `a`, `print`, `variable_name`.
    Identifier,
    Equal,
    Plus,
    Minus,
    Star,
    Slash,
    LeftParen,
    RightParen,
    NewLine,
}

/// A classified lexeme: its kind and the exact source text it was read from.
#[derive(Debug, PartialEq, Eq)]
pub struct Token {
    pub token_type: TokenType,
    pub lexeme: String,
}

/// The mathematical value of a [`Token`]: its kind, and its text as a
/// sequence of characters.
pub ghost struct TokenView {
    pub token_type: TokenType,
    pub lexeme: Seq<char>,
}

impl View for Token {
    type V = TokenView;

    open spec fn view(&self) -> TokenView {
        TokenView { token_type: self.token_type, lexeme: self.lexeme@ }
    }
}

impl Clone for Token {
    fn clone(&self) -> (copy: Self)
        ensures
            copy == *self,
    {
        Token { token_type: self.token_type, lexeme: self.lexeme.clone() }
    }
}

/// The values of a sequence of tokens, in the same order.
pub open spec fn token_views(tokens: Seq<Token>) -> Seq<TokenView> {
    Seq::new(tokens.len(), |i: int| tokens[i]@)
}

/// Why a text is not a sequence of tokens.
#[derive(Clone, Copy, Debug, PartialEq, Eq, Structural)]
pub enum LexError {
    /// This character follows the digits of a number, and is neither a digit
    /// nor one of the characters that may end a number.
    InvalidCharacter(char),
}

/// The kind of the one-character token that `c` is, if it is one.
pub open spec fn symbol_type(c: char) -> Option<TokenType> {
    if c == '=' {
        Some(TokenType::Equal)
    } else if c == '+' {
        Some(TokenType::Plus)
    } else if c == '-' {
        Some(TokenType::Minus)
    } else if c == '*' {
        Some(TokenType::Star)
    } else if c == '/' {
        Some(TokenType::Slash)
    } else if c == '(' {
        Some(TokenType::LeftParen)
    } else if c == ')' {
        Some(TokenType::RightParen)
    } else if c == '\n' {
        Some(TokenType::NewLine)
    } else {
        None
    }
}

/// Whether `c` may directly follow the digits of a number: a space, a right
/// parenthesis or a line feed.
pub open spec fn ends_number(c: char) -> bool {
    c == ' ' || c == ')' || c == '\n'
}

/// Whether `c` may stand in an identifier after its first character.
pub open spec fn is_identifier_char(c: char) -> bool {
    unicode_alphanumeric(c) || c == '_'
}

/// The end of the run of digits that starts at `from`: the first position
/// from there on that holds no digit, or the end of the text.
pub open spec fn digits_end(source: Seq<char>, from: int) -> int
    decreases source.len() - from,
{
    if 0 <= from < source.len() && is_digit(source[from]) {
        digits_end(source, from + 1)
    } else {
        from
    }
}

/// The end of the run of identifier characters that starts at `from`: the
/// first position from there on that holds none, or the end of the text.
pub open spec fn identifier_end(source: Seq<char>, from: int) -> int
    decreases source.len() - from,
{
    if 0 <= from < source.len() && is_identifier_char(source[from]) {
        identifier_end(source, from + 1)
    } else {
        from
    }
}

/// The tokens `before`, followed by `after` where that is a sequence of
/// tokens; the error of `after` where it is one.
pub open spec fn followed_by(
    before: Seq<TokenView>,
    after: Result<Seq<TokenView>, LexError>,
) -> Result<Seq<TokenView>, LexError> {
    match after {
        Ok(tokens) => Ok(before + tokens),
        Err(error) => Err(error),
    }
}

/// The token of kind `token_type` whose text is `source` from `from` up to
/// `to`.
pub open spec fn token_at(token_type: TokenType, source: Seq<char>, from: int, to: int) -> TokenView {
    TokenView { token_type, lexeme: source.subrange(from, to) }
}

/// The tokens of `source` from position `from` on.
///
/// At each position, in this order: one of `= + - * / ( )` or a line feed is
/// a token by itself; a digit starts a number, which runs through the digits
/// that follow and must end at a space, a `)`, a line feed or the end of the
/// text; a space is skipped; any other character starts an identifier, which
/// runs through the identifier characters that follow.
pub open spec fn lex_from(source: Seq<char>, from: int) -> Result<Seq<TokenView>, LexError>
    decreases source.len() - from,
{
    if !(0 <= from < source.len()) {
        Ok(Seq::empty())
    } else if symbol_type(source[from]) is Some {
        let token = token_at(symbol_type(source[from])->Some_0, source, from, from + 1);
        followed_by(seq![token], lex_from(source, from + 1))
    } else if is_digit(source[from]) {
        let end = digits_end(source, from + 1);
        if end < source.len() && !ends_number(source[end]) {
            Err(LexError::InvalidCharacter(source[end]))
        } else {
            proof {
                lemma_digits_end_bounds(source, from + 1);
            }
            followed_by(
                seq![token_at(TokenType::NumberLiteral, source, from, end)],
                lex_from(source, end),
            )
        }
    } else if source[from] == ' ' {
        lex_from(source, from + 1)
    } else {
        let end = identifier_end(source, from + 1);
        proof {
            lemma_identifier_end_bounds(source, from + 1);
        }
        followed_by(seq![token_at(TokenType::Identifier, source, from, end)], lex_from(source, end))
    }
}

/// The tokens of `source`, or the first error that stops the lexer.
pub open spec fn lex(source: Seq<char>) -> Result<Seq<TokenView>, LexError> {
    lex_from(source, 0)
}

/// A run of digits ends at or after its start, within the text, and holds
/// digits only.
pub proof fn lemma_digits_end_bounds(source: Seq<char>, from: int)
    requires
        0 <= from <= source.len(),
    ensures
        from <= digits_end(source, from) <= source.len(),
        forall|i: int| from <= i < digits_end(source, from) ==> is_digit(#[trigger] source[i]),
        digits_end(source, from) < source.len() ==> !is_digit(source[digits_end(source, from)]),
    decreases source.len() - from,
{
    if from < source.len() && is_digit(source[from]) {
        lemma_digits_end_bounds(source, from + 1);
    }
}

/// A run of identifier characters ends at or after its start, within the
/// text, and holds identifier characters only.
pub proof fn lemma_identifier_end_bounds(source: Seq<char>, from: int)
    requires
        0 <= from <= source.len(),
    ensures
        from <= identifier_end(source, from) <= source.len(),
        forall|i: int|
            from <= i < identifier_end(source, from) ==> is_identifier_char(#[trigger] source[i]),
        identifier_end(source, from) < source.len() ==> !is_identifier_char(
            source[identifier_end(source, from)],
        ),
    decreases source.len() - from,
{
    if from < source.len() && is_identifier_char(source[from]) {
        lemma_identifier_end_bounds(source, from + 1);
    }
}

/// Tells whether `ch` may stand in an identifier after its first character:
/// whether it is alphanumeric or an underscore.
pub fn is_valid_identifier_char(ch: char) -> (r: bool)
    ensures
        r == is_identifier_char(ch),
{
    ch.is_alphanumeric() || ch == '_'
}

/// The kind of the one-character token that `c` is, if it is one.
fn symbol_token_type(c: char) -> (r: Option<TokenType>)
    ensures
        r == symbol_type(c),
{
    match c {
        '=' => Some(TokenType::Equal),
        '+' => Some(TokenType::Plus),
        '-' => Some(TokenType::Minus),
        '*' => Some(TokenType::Star),
        '/' => Some(TokenType::Slash),
        '(' => Some(TokenType::LeftParen),
        ')' => Some(TokenType::RightParen),
        '\n' => Some(TokenType::NewLine),
        _ => None,
    }
}

/// Adding a token at the end of what was read is the same as putting it in
/// front of what is still to be read.
proof fn lemma_followed_by_push(
    before: Seq<TokenView>,
    token: TokenView,
    after: Result<Seq<TokenView>, LexError>,
)
    ensures
        followed_by(before, followed_by(seq![token], after)) == followed_by(
            before.push(token),
            after,
        ),
{
    if let Ok(tokens) = after {
        assert(before + (seq![token] + tokens) =~= before.push(token) + tokens);
    }
}

/// Splits `source` into its tokens.
///
/// Returns the tokens of the whole text in order, or the error of the first
/// number that is followed by a character that may not follow it.
pub fn tokenize(source: &str) -> (result: Result<Vec<Token>, LexError>)
    ensures
        match result {
            Ok(tokens) => lex(source@) == Ok::<Seq<TokenView>, LexError>(token_views(tokens@)),
            Err(error) => lex(source@) == Err::<Seq<TokenView>, LexError>(error),
        },
{
    let chars = chars_of(source);
    let mut position: usize = 0;
    let mut result: Vec<Token> = Vec::new();
    assert(token_views(result@) + Seq::<TokenView>::empty() =~= Seq::<TokenView>::empty());

    while position < chars.len()
        invariant
            position <= chars.len(),
            chars@ == source@,
            lex(source@) == followed_by(token_views(result@), lex_from(source@, position as int)),
        decreases chars.len() - position,
    {
        let current_char: char = chars[position];
        let ghost read = token_views(result@);
        let ghost start = position as int;
        if let Some(token_type) = symbol_token_type(current_char) {
            let lexeme = char_to_string(current_char);
            assert(lexeme@ =~= source@.subrange(start, start + 1));
            result.push(Token { token_type, lexeme });
            position += 1;
            proof {
                let token = token_at(token_type, source@, start, start + 1);
                assert(token_views(result@) =~= read.push(token));
                lemma_followed_by_push(read, token, lex_from(source@, start + 1));
            }
        } else if is_decimal_digit(current_char) {
            let mut number_lexeme = char_to_string(current_char);
            position += 1;
            assert(number_lexeme@ =~= source@.subrange(start, position as int));

            while position < chars.len()
                invariant
                    chars@ == source@,
                    0 <= start < position <= chars.len(),
                    symbol_type(source@[start]) is None,
                    is_digit(source@[start]),
                    lex(source@) == followed_by(read, lex_from(source@, start)),
                    number_lexeme@ == source@.subrange(start, position as int),
                    digits_end(source@, start + 1) == digits_end(source@, position as int),
                ensures
                    start < position <= chars.len(),
                    number_lexeme@ == source@.subrange(start, position as int),
                    digits_end(source@, start + 1) == position,
                    position < chars.len() ==> ends_number(source@[position as int]),
                decreases chars.len() - position,
            {
                let next_char = chars[position];
                if next_char == ' ' || next_char == ')' || next_char == '\n' {
                    break ;
                }
                if is_decimal_digit(next_char) {
                    number_lexeme.push(next_char);
                } else {
                    return Err(LexError::InvalidCharacter(next_char));
                }
                position += 1;
                assert(number_lexeme@ =~= source@.subrange(start, position as int));
            }

            result.push(Token { token_type: TokenType::NumberLiteral, lexeme: number_lexeme });
            proof {
                let token = token_at(TokenType::NumberLiteral, source@, start, position as int);
                assert(token_views(result@) =~= read.push(token));
                lemma_followed_by_push(read, token, lex_from(source@, position as int));
            }
        } else if current_char == ' ' {
            position += 1;
        } else {
            let mut lexeme = char_to_string(current_char);
            position += 1;
            assert(lexeme@ =~= source@.subrange(start, position as int));

            while position < chars.len()
                invariant
                    chars@ == source@,
                    0 <= start < position <= chars.len(),
                    lexeme@ == source@.subrange(start, position as int),
                    identifier_end(source@, start + 1) == identifier_end(source@, position as int),
                ensures
                    start < position <= chars.len(),
                    lexeme@ == source@.subrange(start, position as int),
                    identifier_end(source@, start + 1) == position,
                decreases chars.len() - position,
            {
                let next_char = chars[position];
                if !is_valid_identifier_char(next_char) {
                    break ;
                }
                lexeme.push(next_char);
                position += 1;
                assert(lexeme@ =~= source@.subrange(start, position as int));
            }

            result.push(Token { token_type: TokenType::Identifier, lexeme });
            proof {
                let token = token_at(TokenType::Identifier, source@, start, position as int);
                assert(token_views(result@) =~= read.push(token));
                lemma_followed_by_push(read, token, lex_from(source@, position as int));
            }
        }
    }

    assert(token_views(result@) + Seq::<TokenView>::empty() =~= token_views(result@));
    Ok(result)
}

} // verus!
