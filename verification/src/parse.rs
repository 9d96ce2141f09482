//! The parser: from tokens to one expression tree for each line, by
//! recursive descent.
//!
//! The functions of this module read the tokens from a stack whose top is the
//! next token. Each one is specified by the rule of the grammar that it
//! implements, applied to the tokens in reading order.

use crate::grammar;
use crate::grammar::{ExprView, ParseErrorView, Parsed};
use crate::number::parse_number;
use crate::tokenize::{token_views, Token, TokenType, TokenView};
use vstd::prelude::*;

verus! {

/// `lhs operation rhs`
#[derive(Debug, PartialEq, Eq)]
pub struct BinaryOpImpl {
    pub lhs: Box<Expr>,
    pub operation: Token,
    pub rhs: Box<Expr>,
}

/// An integer literal, with the token that it was read from.
#[derive(Debug, PartialEq, Eq)]
pub struct NumberImpl {
    pub value: i32,
    pub token: Token,
}

/// A reference to a name.
#[derive(Debug, PartialEq, Eq)]
pub struct VariableImpl {
    pub name: Token,
}

/// `target = value`
#[derive(Debug, PartialEq, Eq)]
pub struct AssignmentImpl {
    pub target: VariableImpl,
    pub value: Box<Expr>,
}

/// `name(arg)`
#[derive(Debug, PartialEq, Eq)]
pub struct FunCallImpl {
    pub name: VariableImpl,
    pub arg: Box<Expr>,
}

/// An expression tree. Every node owns its children.
#[derive(Debug, PartialEq, Eq)]
pub enum Expr {
    Assignment(AssignmentImpl),
    BinaryOperation(BinaryOpImpl),
    FunCall(FunCallImpl),
    Number(NumberImpl),
    Variable(VariableImpl),
}

impl Expr {
    /// The mathematical value of this tree.
    pub open spec fn view(&self) -> ExprView
        decreases self,
    {
        match self {
            Expr::Assignment(node) => ExprView::Assignment {
                target: node.target.name@,
                value: Box::new(node.value@),
            },
            Expr::BinaryOperation(node) => ExprView::BinaryOperation {
                lhs: Box::new(node.lhs@),
                operation: node.operation@,
                rhs: Box::new(node.rhs@),
            },
            Expr::FunCall(node) => ExprView::FunCall {
                name: node.name.name@,
                arg: Box::new(node.arg@),
            },
            Expr::Number(node) => ExprView::Number { value: node.value, token: node.token@ },
            Expr::Variable(node) => ExprView::Variable { name: node.name@ },
        }
    }
}

/// The values of a sequence of expression trees, in the same order.
pub open spec fn expr_views(exprs: Seq<Expr>) -> Seq<ExprView> {
    Seq::new(exprs.len(), |i: int| exprs[i]@)
}

/// Why a sequence of tokens is not a program.
#[derive(Debug, PartialEq, Eq)]
pub enum ParseError {
    /// `found` stands where a token of kind `expected` has to.
    UnexpectedToken { expected: TokenType, found: Token },
    /// This token stands where an expression has to begin, and none begins
    /// with it.
    NotAnExpression(Token),
    /// The tokens end where one more is needed.
    UnexpectedEndOfInput,
    /// The text of this number denotes no 32-bit integer.
    InvalidNumber(Token),
}

impl View for ParseError {
    type V = ParseErrorView;

    open spec fn view(&self) -> ParseErrorView {
        match self {
            ParseError::UnexpectedToken { expected, found } => ParseErrorView::UnexpectedToken {
                expected: *expected,
                found: found@,
            },
            ParseError::NotAnExpression(token) => ParseErrorView::NotAnExpression(token@),
            ParseError::UnexpectedEndOfInput => ParseErrorView::UnexpectedEndOfInput,
            ParseError::InvalidNumber(token) => ParseErrorView::InvalidNumber(token@),
        }
    }
}

/// The tokens on `stack` in the order in which they will be read: the top of
/// the stack, which is its last item, first.
pub open spec fn pending(stack: Seq<Token>) -> Seq<TokenView> {
    Seq::new(stack.len(), |i: int| stack[stack.len() - 1 - i]@)
}

/// Whether `result`, with the stack `left` behind, is what `outcome` asks
/// for: the same expression with the same tokens still to be read, or the
/// same error.
pub open spec fn parsed_as(outcome: Parsed, result: Result<Expr, ParseError>, left: Seq<Token>) -> bool {
    match outcome {
        Ok((expr, rest)) => result matches Ok(tree) && tree@ == expr && pending(left) == rest,
        Err(error) => result matches Err(e) && e@ == error,
    }
}

/// Taking the top of the stack takes the first of the pending tokens.
proof fn lemma_pending_pop(stack: Seq<Token>)
    requires
        stack.len() > 0,
    ensures
        pending(stack)[0] == stack.last()@,
        pending(stack.drop_last()) == pending(stack).drop_first(),
        stack.len() > 1 ==> pending(stack)[1] == stack[stack.len() - 2]@,
{
    assert(pending(stack.drop_last()) =~= pending(stack).drop_first());
}

/// The items of `items`, last first.
fn reversed(items: Vec<Token>) -> (stack: Vec<Token>)
    ensures
        pending(stack@) == token_views(items@),
{
    let mut items = items;
    let mut stack: Vec<Token> = Vec::new();
    let ghost all = items@;
    while items.len() > 0
        invariant
            items@.len() + stack@.len() == all.len(),
            forall|i: int| 0 <= i < items@.len() ==> items@[i] == all[i],
            forall|i: int| 0 <= i < stack@.len() ==> stack@[i] == all[all.len() - 1 - i],
        decreases items@.len(),
    {
        let item = items.pop().unwrap();
        stack.push(item);
    }
    assert(pending(stack@) =~= token_views(all));
    stack
}

/// Takes the next token, which has to be of kind `token_type`.
///
/// Where no token is left, the end of a line is taken for granted and any
/// other token is missed.
pub fn expect(token_type: TokenType, tokens: &mut Vec<Token>) -> (result: Result<(), ParseError>)
    ensures
        match grammar::expect(token_type, pending(old(tokens)@)) {
            Ok(rest) => result is Ok && pending(final(tokens)@) == rest,
            Err(error) => result matches Err(e) && e@ == error,
        },
{
    proof {
        if tokens@.len() > 0 {
            lemma_pending_pop(tokens@);
        } else {
            assert(pending(tokens@) =~= Seq::empty());
        }
    }
    match tokens.pop() {
        None => {
            if token_type == TokenType::NewLine {
                Ok(())
            } else {
                Err(ParseError::UnexpectedEndOfInput)
            }
        },
        Some(token) => {
            if token.token_type != token_type {
                Err(ParseError::UnexpectedToken { expected: token_type, found: token })
            } else {
                Ok(())
            }
        },
    }
}

/// Takes the next token, which has to be an identifier, as a variable.
pub fn parse_variable(tokens: &mut Vec<Token>) -> (result: Result<VariableImpl, ParseError>)
    ensures
        match grammar::expect(TokenType::Identifier, pending(old(tokens)@)) {
            Ok(rest) => result matches Ok(variable) && variable.name@ == pending(old(tokens)@)[0]
                && pending(final(tokens)@) == rest,
            Err(error) => result matches Err(e) && e@ == error,
        },
{
    proof {
        if tokens@.len() > 0 {
            lemma_pending_pop(tokens@);
        }
    }
    match tokens.pop() {
        None => Err(ParseError::UnexpectedEndOfInput),
        Some(token) => {
            if token.token_type != TokenType::Identifier {
                Err(ParseError::UnexpectedToken { expected: TokenType::Identifier, found: token })
            } else {
                Ok(VariableImpl { name: token })
            }
        },
    }
}

/// `primary := NUMBER | IDENTIFIER '(' expr ')' | IDENTIFIER | '(' expr ')'`
pub fn parse_primary(tokens: &mut Vec<Token>) -> (result: Result<Expr, ParseError>)
    ensures
        parsed_as(grammar::primary(pending(old(tokens)@)), result, final(tokens)@),
    decreases old(tokens)@.len(), 0int,
{
    proof {
        if tokens@.len() > 0 {
            lemma_pending_pop(tokens@);
        }
    }
    let token = match tokens.pop() {
        Some(token) => token,
        None => {
            return Err(ParseError::UnexpectedEndOfInput);
        },
    };
    let ghost rest = pending(old(tokens)@);
    match token.token_type {
        TokenType::NumberLiteral => {
            match parse_number(token.lexeme.as_str()) {
                Some(value) => Ok(Expr::Number(NumberImpl { value, token })),
                None => Err(ParseError::InvalidNumber(token)),
            }
        },
        TokenType::Identifier => {
            if tokens.len() > 0 {
                // A left parenthesis directly behind the name makes it a call.
                proof {
                    lemma_pending_pop(tokens@);
                    lemma_pending_pop(old(tokens)@);
                    assert(rest.drop_first().drop_first() =~= rest.skip(2));
                }
                if tokens[tokens.len() - 1].token_type == TokenType::LeftParen {
                    let fun_name = VariableImpl { name: token };
                    tokens.pop();
                    let arg = match parse_expr(tokens) {
                        Ok(arg) => arg,
                        Err(error) => {
                            return Err(error);
                        },
                    };
                    match expect(TokenType::RightParen, tokens) {
                        Ok(()) => {},
                        Err(error) => {
                            return Err(error);
                        },
                    }
                    return Ok(Expr::FunCall(FunCallImpl { name: fun_name, arg: Box::new(arg) }));
                }
            }
            Ok(Expr::Variable(VariableImpl { name: token }))
        },
        TokenType::LeftParen => {
            let expr = match parse_expr(tokens) {
                Ok(expr) => expr,
                Err(error) => {
                    return Err(error);
                },
            };
            match expect(TokenType::RightParen, tokens) {
                Ok(()) => Ok(expr),
                Err(error) => Err(error),
            }
        },
        _ => Err(ParseError::NotAnExpression(token)),
    }
}

/// `factor := primary (('*' | '/') primary)*`, grouping from the left.
pub fn parse_factor(tokens: &mut Vec<Token>) -> (result: Result<Expr, ParseError>)
    ensures
        parsed_as(grammar::factor(pending(old(tokens)@)), result, final(tokens)@),
    decreases old(tokens)@.len(), 2int,
{
    let ghost rest = pending(tokens@);
    let mut lhs = match parse_primary(tokens) {
        Ok(lhs) => lhs,
        Err(error) => {
            return Err(error);
        },
    };
    proof {
        grammar::lemma_primary_consumes(rest);
    }

    while tokens.len() > 0
        invariant
            tokens@.len() <= old(tokens)@.len(),
            grammar::factor(pending(old(tokens)@)) == grammar::factor_tail(lhs@, pending(tokens@)),
        ensures
            grammar::factor(pending(old(tokens)@)) == Ok::<(ExprView, Seq<TokenView>), ParseErrorView>(
                (lhs@, pending(tokens@)),
            ),
        decreases tokens@.len(),
    {
        let ghost ahead = pending(tokens@);
        proof {
            lemma_pending_pop(tokens@);
        }
        match tokens[tokens.len() - 1].token_type {
            TokenType::Star | TokenType::Slash => {
                let op_token = tokens.pop().unwrap();
                let rhs = match parse_primary(tokens) {
                    Ok(rhs) => rhs,
                    Err(error) => {
                        return Err(error);
                    },
                };
                proof {
                    grammar::lemma_primary_consumes(ahead.drop_first());
                }
                lhs = Expr::BinaryOperation(
                    BinaryOpImpl { lhs: Box::new(lhs), operation: op_token, rhs: Box::new(rhs) },
                );
            },
            _ => {
                break ;
            },
        }
    }
    Ok(lhs)
}

/// `term := factor (('+' | '-') factor)*`, grouping from the left.
pub fn parse_term(tokens: &mut Vec<Token>) -> (result: Result<Expr, ParseError>)
    ensures
        parsed_as(grammar::term(pending(old(tokens)@)), result, final(tokens)@),
    decreases old(tokens)@.len(), 4int,
{
    let ghost rest = pending(tokens@);
    let mut lhs = match parse_factor(tokens) {
        Ok(lhs) => lhs,
        Err(error) => {
            return Err(error);
        },
    };
    proof {
        grammar::lemma_factor_consumes(rest);
    }

    while tokens.len() > 0
        invariant
            tokens@.len() <= old(tokens)@.len(),
            grammar::term(pending(old(tokens)@)) == grammar::term_tail(lhs@, pending(tokens@)),
        ensures
            grammar::term(pending(old(tokens)@)) == Ok::<(ExprView, Seq<TokenView>), ParseErrorView>(
                (lhs@, pending(tokens@)),
            ),
        decreases tokens@.len(),
    {
        let ghost ahead = pending(tokens@);
        proof {
            lemma_pending_pop(tokens@);
        }
        match tokens[tokens.len() - 1].token_type {
            TokenType::Plus | TokenType::Minus => {
                let op_token = tokens.pop().unwrap();
                let rhs = match parse_factor(tokens) {
                    Ok(rhs) => rhs,
                    Err(error) => {
                        return Err(error);
                    },
                };
                proof {
                    grammar::lemma_factor_consumes(ahead.drop_first());
                }
                lhs = Expr::BinaryOperation(
                    BinaryOpImpl { lhs: Box::new(lhs), operation: op_token, rhs: Box::new(rhs) },
                );
            },
            _ => {
                break ;
            },
        }
    }
    Ok(lhs)
}

/// `assignment := IDENTIFIER '=' expr | term`
///
/// Looks one token past the next one: where that is `=`, this is an
/// assignment, and its value is a whole expression.
pub fn parse_assignment(tokens: &mut Vec<Token>) -> (result: Result<Expr, ParseError>)
    ensures
        parsed_as(grammar::assignment(pending(old(tokens)@)), result, final(tokens)@),
    decreases old(tokens)@.len(), 5int,
{
    proof {
        if tokens@.len() > 0 {
            lemma_pending_pop(tokens@);
        }
    }
    if tokens.len() > 1 && tokens[tokens.len() - 2].token_type == TokenType::Equal {
        let ghost rest = pending(tokens@);
        let target = match parse_variable(tokens) {
            Ok(target) => target,
            Err(error) => {
                return Err(error);
            },
        };
        proof {
            lemma_pending_pop(tokens@);
            assert(rest.drop_first().drop_first() =~= rest.skip(2));
        }
        match expect(TokenType::Equal, tokens) {
            Ok(()) => {},
            Err(error) => {
                return Err(error);
            },
        }
        let value = match parse_expr(tokens) {
            Ok(value) => Box::new(value),
            Err(error) => {
                return Err(error);
            },
        };
        Ok(Expr::Assignment(AssignmentImpl { target, value }))
    } else {
        parse_term(tokens)
    }
}

/// `expr := assignment`
pub fn parse_expr(tokens: &mut Vec<Token>) -> (result: Result<Expr, ParseError>)
    ensures
        parsed_as(grammar::expr(pending(old(tokens)@)), result, final(tokens)@),
    decreases old(tokens)@.len(), 6int,
{
    parse_assignment(tokens)
}

/// The expressions `before`, followed by `after` where that is a sequence of
/// expressions; the error of `after` where it is one.
pub open spec fn followed_by(
    before: Seq<ExprView>,
    after: Result<Seq<ExprView>, ParseErrorView>,
) -> Result<Seq<ExprView>, ParseErrorView> {
    match after {
        Ok(exprs) => Ok(before + exprs),
        Err(error) => Err(error),
    }
}

/// Parses a program: one expression for each line.
///
/// Returns the expressions in the order of their lines, or the error of the
/// first line that is no expression or does not end where its expression
/// ends. The last line may end with the tokens.
pub fn parse(tokens: Vec<Token>) -> (result: Result<Vec<Expr>, ParseError>)
    ensures
        match grammar::program(token_views(tokens@)) {
            Ok(exprs) => result matches Ok(trees) && expr_views(trees@) == exprs,
            Err(error) => result matches Err(e) && e@ == error,
        },
{
    let ghost input = token_views(tokens@);
    let mut stack = reversed(tokens);

    let mut result: Vec<Expr> = Vec::new();
    assert(expr_views(result@) =~= Seq::empty());
    assert forall|after: Seq<ExprView>| Seq::<ExprView>::empty() + after =~= after by {}

    while stack.len() > 0
        invariant
            input == token_views(tokens@),
            grammar::program(input) == followed_by(
                expr_views(result@),
                grammar::program(pending(stack@)),
            ),
        decreases stack@.len(),
    {
        let ghost rest = pending(stack@);
        let ghost read = expr_views(result@);
        let expr = match parse_expr(&mut stack) {
            Ok(expr) => expr,
            Err(error) => {
                return Err(error);
            },
        };
        proof {
            grammar::lemma_expr_consumes(rest);
        }
        match expect(TokenType::NewLine, &mut stack) {
            Ok(()) => {},
            Err(error) => {
                return Err(error);
            },
        }
        result.push(expr);
        proof {
            grammar::lemma_expect_consumes(TokenType::NewLine, grammar::expr(rest)->Ok_0.1);
            assert(expr_views(result@) =~= read.push(expr@));
            if let Ok(others) = grammar::program(pending(stack@)) {
                assert(read + (seq![expr@] + others) =~= read.push(expr@) + others);
            }
        }
    }
    assert(pending(stack@) =~= Seq::empty());
    assert(expr_views(result@) + Seq::<ExprView>::empty() =~= expr_views(result@));
    Ok(result)
}

} // verus!
