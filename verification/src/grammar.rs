//! The grammar, as a mathematical model of the parser.
//!
//! ```text
//! primary    := NUMBER | IDENTIFIER '(' expr ')' | IDENTIFIER | '(' expr ')'
//! factor     := primary (('*' | '/') primary)*
//! term       := factor (('+' | '-') factor)*
//! assignment := IDENTIFIER '=' expr | term
//! expr       := assignment
//! program    := (expr NEWLINE)*
//! ```
//!
//! Each rule is a function from the tokens that are still to be read, the
//! next one first, to an expression and the tokens that it leaves, or to the
//! error that stops the parser.

use crate::number::spec_parse_number;
use crate::tokenize::{TokenType, TokenView};
use vstd::prelude::*;

verus! {

/// The mathematical value of an expression tree.
#[allow(inconsistent_fields)]
pub ghost enum ExprView {
    /// `target = value`
    Assignment { target: TokenView, value: Box<ExprView> },
    /// `lhs operation rhs`
    BinaryOperation { lhs: Box<ExprView>, operation: TokenView, rhs: Box<ExprView> },
    /// `name(arg)`
    FunCall { name: TokenView, arg: Box<ExprView> },
    /// An integer literal and the token that it was read from.
    Number { value: i32, token: TokenView },
    /// A reference to the variable `name`.
    Variable { name: TokenView },
}

/// The mathematical value of a parse error.
pub ghost enum ParseErrorView {
    /// `found` stands where a token of kind `expected` has to.
    UnexpectedToken { expected: TokenType, found: TokenView },
    /// This token stands where an expression has to begin, and none begins
    /// with it.
    NotAnExpression(TokenView),
    /// The tokens end where one more is needed.
    UnexpectedEndOfInput,
    /// The text of this number denotes no 32-bit integer.
    InvalidNumber(TokenView),
}

/// What a rule makes of the tokens: an expression and the tokens after it, or
/// an error.
pub type Parsed = Result<(ExprView, Seq<TokenView>), ParseErrorView>;

/// The binary operation `lhs operation rhs`.
pub open spec fn binary(lhs: ExprView, operation: TokenView, rhs: ExprView) -> ExprView {
    ExprView::BinaryOperation { lhs: Box::new(lhs), operation, rhs: Box::new(rhs) }
}

/// Takes a token of kind `token_type` from the front of `rest`.
///
/// Where the tokens have ended, only a line's end is taken for granted; any
/// other token is missed.
pub open spec fn expect(token_type: TokenType, rest: Seq<TokenView>) -> Result<
    Seq<TokenView>,
    ParseErrorView,
> {
    if rest.len() == 0 {
        if token_type == TokenType::NewLine {
            Ok(rest)
        } else {
            Err(ParseErrorView::UnexpectedEndOfInput)
        }
    } else if rest[0].token_type == token_type {
        Ok(rest.drop_first())
    } else {
        Err(ParseErrorView::UnexpectedToken { expected: token_type, found: rest[0] })
    }
}

/// `inner`, once the right parenthesis after it is taken.
pub open spec fn closed(inner: Parsed) -> Parsed {
    match inner {
        Ok((expr, after)) => match expect(TokenType::RightParen, after) {
            Ok(left) => Ok((expr, left)),
            Err(error) => Err(error),
        },
        Err(error) => Err(error),
    }
}

/// `primary := NUMBER | IDENTIFIER '(' expr ')' | IDENTIFIER | '(' expr ')'`
///
/// An identifier is a call where a left parenthesis follows it directly, and
/// a variable otherwise. Parentheses leave no node of their own.
pub open spec fn primary(rest: Seq<TokenView>) -> Parsed
    decreases rest.len(), 0int,
{
    if rest.len() == 0 {
        Err(ParseErrorView::UnexpectedEndOfInput)
    } else {
        let token = rest[0];
        match token.token_type {
            TokenType::NumberLiteral => match spec_parse_number(token.lexeme) {
                Some(value) => Ok((ExprView::Number { value, token }, rest.drop_first())),
                None => Err(ParseErrorView::InvalidNumber(token)),
            },
            TokenType::Identifier => if rest.len() > 1 && rest[1].token_type
                == TokenType::LeftParen {
                match closed(expr(rest.skip(2))) {
                    Ok((arg, left)) => Ok((ExprView::FunCall { name: token, arg: Box::new(arg) }, left)),
                    Err(error) => Err(error),
                }
            } else {
                Ok((ExprView::Variable { name: token }, rest.drop_first()))
            },
            TokenType::LeftParen => closed(expr(rest.drop_first())),
            _ => Err(ParseErrorView::NotAnExpression(token)),
        }
    }
}

/// Whether `token_type` is `*` or `/`.
pub open spec fn is_factor_operator(token_type: TokenType) -> bool {
    token_type == TokenType::Star || token_type == TokenType::Slash
}

/// Whether `token_type` is `+` or `-`.
pub open spec fn is_term_operator(token_type: TokenType) -> bool {
    token_type == TokenType::Plus || token_type == TokenType::Minus
}

/// `(('*' | '/') primary)*` after the operand `lhs`: each operator takes what
/// was read so far as its left operand.
///
/// Every `*` and `/` that stands behind an operand is taken; where no
/// operand follows it, that is an error.
///
/// What an operand leaves is always shorter than what it was given
/// ([`lemma_primary_consumes`]). The test on the lengths shows that the rule
/// ends, and its other arm is never reached ([`lemma_chains_go_on`]).
pub open spec fn factor_tail(lhs: ExprView, rest: Seq<TokenView>) -> Parsed
    decreases rest.len(), 1int,
{
    if rest.len() > 0 && is_factor_operator(rest[0].token_type) {
        match primary(rest.drop_first()) {
            Ok((rhs, after)) => if after.len() < rest.len() {
                factor_tail(binary(lhs, rest[0], rhs), after)
            } else {
                Err(ParseErrorView::UnexpectedEndOfInput)
            },
            Err(error) => Err(error),
        }
    } else {
        Ok((lhs, rest))
    }
}

/// `factor := primary (('*' | '/') primary)*`
pub open spec fn factor(rest: Seq<TokenView>) -> Parsed
    decreases rest.len(), 2int,
{
    match primary(rest) {
        Ok((lhs, after)) => if after.len() <= rest.len() {
            factor_tail(lhs, after)
        } else {
            Err(ParseErrorView::UnexpectedEndOfInput)
        },
        Err(error) => Err(error),
    }
}

/// `(('+' | '-') factor)*` after the operand `lhs`: each operator takes what
/// was read so far as its left operand.
///
/// What an operand leaves is always shorter than what it was given
/// ([`lemma_factor_consumes`]). The test on the lengths shows that the rule
/// ends, and its other arm is never reached ([`lemma_chains_go_on`]).
pub open spec fn term_tail(lhs: ExprView, rest: Seq<TokenView>) -> Parsed
    decreases rest.len(), 3int,
{
    if rest.len() > 0 && is_term_operator(rest[0].token_type) {
        match factor(rest.drop_first()) {
            Ok((rhs, after)) => if after.len() < rest.len() {
                term_tail(binary(lhs, rest[0], rhs), after)
            } else {
                Err(ParseErrorView::UnexpectedEndOfInput)
            },
            Err(error) => Err(error),
        }
    } else {
        Ok((lhs, rest))
    }
}

/// `term := factor (('+' | '-') factor)*`
pub open spec fn term(rest: Seq<TokenView>) -> Parsed
    decreases rest.len(), 4int,
{
    match factor(rest) {
        Ok((lhs, after)) => if after.len() <= rest.len() {
            term_tail(lhs, after)
        } else {
            Err(ParseErrorView::UnexpectedEndOfInput)
        },
        Err(error) => Err(error),
    }
}

/// `assignment := IDENTIFIER '=' expr | term`
///
/// It is an assignment where the second token is `=`; the first then has to
/// be an identifier, and the value is a whole expression, so that a chain of
/// assignments groups from the right.
pub open spec fn assignment(rest: Seq<TokenView>) -> Parsed
    decreases rest.len(), 5int,
{
    if rest.len() > 1 && rest[1].token_type == TokenType::Equal {
        if rest[0].token_type != TokenType::Identifier {
            Err(ParseErrorView::UnexpectedToken { expected: TokenType::Identifier, found: rest[0] })
        } else {
            match expr(rest.skip(2)) {
                Ok((value, left)) => Ok(
                    (ExprView::Assignment { target: rest[0], value: Box::new(value) }, left),
                ),
                Err(error) => Err(error),
            }
        }
    } else {
        term(rest)
    }
}

/// `expr := assignment`
pub open spec fn expr(rest: Seq<TokenView>) -> Parsed
    decreases rest.len(), 6int,
{
    assignment(rest)
}

/// `program := (expr NEWLINE)*`
///
/// One expression for each line, in order. After each expression the line
/// has to end: with a line feed, or with the end of the tokens.
pub open spec fn program(rest: Seq<TokenView>) -> Result<Seq<ExprView>, ParseErrorView>
    decreases rest.len(),
{
    if rest.len() == 0 {
        Ok(Seq::empty())
    } else {
        match expr(rest) {
            Ok((first, after)) => match expect(TokenType::NewLine, after) {
                Ok(left) => {
                    proof {
                        lemma_expr_consumes(rest);
                    }
                    match program(left) {
                        Ok(others) => Ok(seq![first] + others),
                        Err(error) => Err(error),
                    }
                },
                Err(error) => Err(error),
            },
            Err(error) => Err(error),
        }
    }
}

/// Whether `left` is what remains of `rest` once some tokens are taken from
/// its front.
pub open spec fn is_suffix(left: Seq<TokenView>, rest: Seq<TokenView>) -> bool {
    left.len() <= rest.len() && left == rest.skip(rest.len() - left.len())
}

/// Whether `left` is what remains of `rest` once at least one token is taken
/// from its front.
pub open spec fn is_proper_suffix(left: Seq<TokenView>, rest: Seq<TokenView>) -> bool {
    left.len() < rest.len() && is_suffix(left, rest)
}

/// What remains of a remainder is a remainder.
pub proof fn lemma_suffix_transitive(a: Seq<TokenView>, b: Seq<TokenView>, c: Seq<TokenView>)
    requires
        is_suffix(a, b),
        is_suffix(b, c),
    ensures
        is_suffix(a, c),
{
    assert(a =~= c.skip(c.len() - a.len()));
}

/// Taking a token leaves the tokens after the first, or all of them.
pub proof fn lemma_expect_consumes(token_type: TokenType, rest: Seq<TokenView>)
    ensures
        expect(token_type, rest) matches Ok(left) ==> is_suffix(left, rest) && left.len() + 1
            >= rest.len(),
{
    if rest.len() > 0 {
        assert(rest.drop_first() =~= rest.skip(1));
    } else {
        assert(rest =~= rest.skip(0));
    }
}

/// An expression in parentheses takes what the expression takes, and more.
proof fn lemma_closed_consumes(inner: Parsed, rest: Seq<TokenView>)
    requires
        inner matches Ok((_, after)) ==> is_suffix(after, rest),
    ensures
        closed(inner) matches Ok((_, left)) ==> is_suffix(left, rest),
{
    if let Ok((_, after)) = inner {
        lemma_expect_consumes(TokenType::RightParen, after);
        if let Ok(left) = expect(TokenType::RightParen, after) {
            lemma_suffix_transitive(left, after, rest);
        }
    }
}

/// A primary expression takes at least one token from the front, and leaves
/// the rest as it was.
pub proof fn lemma_primary_consumes(rest: Seq<TokenView>)
    ensures
        primary(rest) matches Ok((_, left)) ==> is_proper_suffix(left, rest),
    decreases rest.len(), 0int,
{
    if rest.len() > 0 {
        assert(rest.drop_first() =~= rest.skip(1));
        match rest[0].token_type {
            TokenType::Identifier => {
                if rest.len() > 1 && rest[1].token_type == TokenType::LeftParen {
                    lemma_expr_consumes(rest.skip(2));
                    if let Ok((_, after)) = expr(rest.skip(2)) {
                        assert(is_suffix(rest.skip(2), rest));
                        lemma_suffix_transitive(after, rest.skip(2), rest);
                    }
                    lemma_closed_consumes(expr(rest.skip(2)), rest);
                }
            },
            TokenType::LeftParen => {
                lemma_expr_consumes(rest.drop_first());
                if let Ok((_, after)) = expr(rest.drop_first()) {
                    assert(is_suffix(rest.drop_first(), rest));
                    lemma_suffix_transitive(after, rest.drop_first(), rest);
                }
                lemma_closed_consumes(expr(rest.drop_first()), rest);
            },
            _ => {},
        }
    }
}

/// The operators and operands after a factor's first operand are taken from
/// the front, and the rest is left as it was.
pub proof fn lemma_factor_tail_consumes(lhs: ExprView, rest: Seq<TokenView>)
    ensures
        factor_tail(lhs, rest) matches Ok((_, left)) ==> is_suffix(left, rest),
    decreases rest.len(), 1int,
{
    if rest.len() > 0 && is_factor_operator(rest[0].token_type) {
        lemma_primary_consumes(rest.drop_first());
        if let Ok((rhs, after)) = primary(rest.drop_first()) {
            assert(rest.drop_first() =~= rest.skip(1));
            assert(is_suffix(rest.drop_first(), rest));
            lemma_suffix_transitive(after, rest.drop_first(), rest);
            lemma_factor_tail_consumes(binary(lhs, rest[0], rhs), after);
            if let Ok((_, left)) = factor_tail(binary(lhs, rest[0], rhs), after) {
                lemma_suffix_transitive(left, after, rest);
            }
        }
    } else {
        assert(rest =~= rest.skip(0));
    }
}

/// A factor takes at least one token from the front, and leaves the rest as
/// it was.
pub proof fn lemma_factor_consumes(rest: Seq<TokenView>)
    ensures
        factor(rest) matches Ok((_, left)) ==> is_proper_suffix(left, rest),
    decreases rest.len(), 2int,
{
    lemma_primary_consumes(rest);
    if let Ok((lhs, after)) = primary(rest) {
        lemma_factor_tail_consumes(lhs, after);
        if let Ok((_, left)) = factor_tail(lhs, after) {
            lemma_suffix_transitive(left, after, rest);
        }
    }
}

/// The operators and operands after a term's first operand are taken from
/// the front, and the rest is left as it was.
pub proof fn lemma_term_tail_consumes(lhs: ExprView, rest: Seq<TokenView>)
    ensures
        term_tail(lhs, rest) matches Ok((_, left)) ==> is_suffix(left, rest),
    decreases rest.len(), 3int,
{
    if rest.len() > 0 && is_term_operator(rest[0].token_type) {
        lemma_factor_consumes(rest.drop_first());
        if let Ok((rhs, after)) = factor(rest.drop_first()) {
            assert(rest.drop_first() =~= rest.skip(1));
            assert(is_suffix(rest.drop_first(), rest));
            lemma_suffix_transitive(after, rest.drop_first(), rest);
            lemma_term_tail_consumes(binary(lhs, rest[0], rhs), after);
            if let Ok((_, left)) = term_tail(binary(lhs, rest[0], rhs), after) {
                lemma_suffix_transitive(left, after, rest);
            }
        }
    } else {
        assert(rest =~= rest.skip(0));
    }
}

/// A term takes at least one token from the front, and leaves the rest as it
/// was.
pub proof fn lemma_term_consumes(rest: Seq<TokenView>)
    ensures
        term(rest) matches Ok((_, left)) ==> is_proper_suffix(left, rest),
    decreases rest.len(), 4int,
{
    lemma_factor_consumes(rest);
    if let Ok((lhs, after)) = factor(rest) {
        lemma_term_tail_consumes(lhs, after);
        if let Ok((_, left)) = term_tail(lhs, after) {
            lemma_suffix_transitive(left, after, rest);
        }
    }
}

/// An expression takes at least one token from the front, and leaves the
/// rest as it was: the parser reads one statement from a prefix of the
/// tokens and touches nothing behind it.
pub proof fn lemma_expr_consumes(rest: Seq<TokenView>)
    ensures
        expr(rest) matches Ok((_, left)) ==> is_proper_suffix(left, rest),
    decreases rest.len(), 5int,
{
    if rest.len() > 1 && rest[1].token_type == TokenType::Equal {
        if rest[0].token_type == TokenType::Identifier {
            lemma_expr_consumes(rest.skip(2));
            if let Ok((_, left)) = expr(rest.skip(2)) {
                assert(is_suffix(rest.skip(2), rest));
                lemma_suffix_transitive(left, rest.skip(2), rest);
            }
        }
    } else {
        lemma_term_consumes(rest);
    }
}

/// The tests on lengths in [`factor`], [`factor_tail`], [`term`] and
/// [`term_tail`] decide nothing: each rule is its first operand followed by
/// its chain of operators and operands, and each chain goes on behind every
/// operand that it reads.
pub proof fn lemma_chains_go_on(lhs: ExprView, rest: Seq<TokenView>)
    ensures
        factor(rest) == match primary(rest) {
            Ok((first, after)) => factor_tail(first, after),
            Err(error) => Err(error),
        },
        term(rest) == match factor(rest) {
            Ok((first, after)) => term_tail(first, after),
            Err(error) => Err(error),
        },
        rest.len() > 0 && is_factor_operator(rest[0].token_type) ==> factor_tail(lhs, rest)
            == match primary(rest.drop_first()) {
            Ok((rhs, after)) => factor_tail(binary(lhs, rest[0], rhs), after),
            Err(error) => Err(error),
        },
        rest.len() > 0 && is_term_operator(rest[0].token_type) ==> term_tail(lhs, rest)
            == match factor(rest.drop_first()) {
            Ok((rhs, after)) => term_tail(binary(lhs, rest[0], rhs), after),
            Err(error) => Err(error),
        },
{
    lemma_primary_consumes(rest);
    lemma_factor_consumes(rest);
    if rest.len() > 0 {
        lemma_primary_consumes(rest.drop_first());
        lemma_factor_consumes(rest.drop_first());
    }
}

/// A chain of `*` and `/` takes every operator that it meets: where it ends,
/// the next token, if there is one, is neither `*` nor `/`.
pub proof fn lemma_factor_tail_takes_every_operator(lhs: ExprView, rest: Seq<TokenView>)
    ensures
        factor_tail(lhs, rest) matches Ok((_, left)) ==> left.len() == 0 || !is_factor_operator(
            left[0].token_type,
        ),
    decreases rest.len(),
{
    if rest.len() > 0 && is_factor_operator(rest[0].token_type) {
        lemma_primary_consumes(rest.drop_first());
        if let Ok((rhs, after)) = primary(rest.drop_first()) {
            lemma_factor_tail_takes_every_operator(binary(lhs, rest[0], rhs), after);
        }
    }
}

/// A factor takes every `*` and `/` behind its operands: where it ends, the
/// next token, if there is one, is neither `*` nor `/`. An operator without
/// an operand behind it is an error, also at the end of the tokens.
pub proof fn lemma_factor_takes_every_operator(rest: Seq<TokenView>)
    ensures
        factor(rest) matches Ok((_, left)) ==> left.len() == 0 || !is_factor_operator(
            left[0].token_type,
        ),
{
    lemma_primary_consumes(rest);
    if let Ok((lhs, after)) = primary(rest) {
        lemma_factor_tail_takes_every_operator(lhs, after);
    }
}

/// A chain of `+` and `-` takes every operator that it meets: where it ends,
/// the next token, if there is one, is neither `+` nor `-`.
pub proof fn lemma_term_tail_takes_every_operator(lhs: ExprView, rest: Seq<TokenView>)
    ensures
        term_tail(lhs, rest) matches Ok((_, left)) ==> left.len() == 0 || !is_term_operator(
            left[0].token_type,
        ),
    decreases rest.len(),
{
    if rest.len() > 0 && is_term_operator(rest[0].token_type) {
        lemma_factor_consumes(rest.drop_first());
        if let Ok((rhs, after)) = factor(rest.drop_first()) {
            lemma_term_tail_takes_every_operator(binary(lhs, rest[0], rhs), after);
        }
    }
}

/// A term takes every `+` and `-` behind its operands: where it ends, the
/// next token, if there is one, is neither `+` nor `-`.
pub proof fn lemma_term_takes_every_operator(rest: Seq<TokenView>)
    ensures
        term(rest) matches Ok((_, left)) ==> left.len() == 0 || !is_term_operator(
            left[0].token_type,
        ),
{
    lemma_factor_consumes(rest);
    if let Ok((lhs, after)) = factor(rest) {
        lemma_term_tail_takes_every_operator(lhs, after);
    }
}

/// A program is read one statement at a time. The first statement is an
/// expression that takes at least one token from the front and nothing else.
/// Directly behind it the line has to end: where the tokens end there, the
/// program is that one expression; where a line feed stands there, the
/// program goes on behind it; any other token there is an error, also where
/// it could begin a statement of its own.
pub proof fn lemma_program_reads_statements(rest: Seq<TokenView>)
    requires
        rest.len() > 0,
    ensures
        match expr(rest) {
            Ok((first, after)) => {
                &&& is_proper_suffix(after, rest)
                &&& program(rest) == if after.len() == 0 {
                    Ok::<Seq<ExprView>, ParseErrorView>(seq![first])
                } else if after[0].token_type == TokenType::NewLine {
                    match program(after.drop_first()) {
                        Ok(others) => Ok(seq![first] + others),
                        Err(error) => Err(error),
                    }
                } else {
                    Err(
                        ParseErrorView::UnexpectedToken {
                            expected: TokenType::NewLine,
                            found: after[0],
                        },
                    )
                }
            },
            Err(error) => program(rest) == Err::<Seq<ExprView>, ParseErrorView>(error),
        },
{
    lemma_expr_consumes(rest);
    if let Ok((first, after)) = expr(rest) {
        if after.len() == 0 {
            assert(program(after) == Ok::<Seq<ExprView>, ParseErrorView>(Seq::empty()));
            assert(seq![first] + Seq::<ExprView>::empty() =~= seq![first]);
        }
    }
}

} // verus!
