//! The evaluator: walks expression trees in program order on one
//! environment, and collects what the program writes out.

use crate::parse::{expr_views, Expr};
use crate::semantics;
use crate::semantics::{EvalErrorView, Evaluated, Interpreted, State};
use crate::tokenize::{Token, TokenType};
use vstd::hash_map::StringHashMap;
use vstd::prelude::*;

verus! {

/// The environment of a run: one flat mapping from the names of variables to
/// their values.
pub struct Env {
    values: StringHashMap<i32>,
}

impl View for Env {
    type V = Map<Seq<char>, i32>;

    closed spec fn view(&self) -> Map<Seq<char>, i32> {
        self.values@
    }
}

impl Env {
    /// An environment without variables.
    pub fn new() -> (env: Env)
        ensures
            env@ == Map::<Seq<char>, i32>::empty(),
    {
        Env { values: StringHashMap::new() }
    }

    /// The value of the variable `name`, if it has one.
    pub fn get(&self, name: &str) -> (value: Option<i32>)
        ensures
            value == if self@.contains_key(name@) {
                Some(self@[name@])
            } else {
                None
            },
    {
        match self.values.get(name) {
            Some(value) => Some(*value),
            None => None,
        }
    }

    /// Binds `name` to `value`, in place of what it was bound to.
    pub fn insert(&mut self, name: String, value: i32)
        ensures
            final(self)@ == old(self)@.insert(name@, value),
    {
        self.values.insert(name, value);
    }

    /// The number of variables.
    pub fn len(&self) -> (n: usize)
        ensures
            n == self@.len(),
    {
        self.values.len()
    }
}

/// Why an expression has no value.
#[derive(Debug, PartialEq, Eq)]
pub enum EvalError {
    /// A variable of this name is read, and none was assigned.
    UndefinedVariable(String),
    /// A function of this name is called, and there is none.
    UndefinedFunction(String),
    /// The right operand of a division is zero.
    DivisionByZero,
    /// This token stands as the operator of a binary operation, and is
    /// none of `+ - * /`.
    InvalidOperator(Token),
    /// The exact result of an operation is no 32-bit integer.
    Overflow,
}

impl View for EvalError {
    type V = EvalErrorView;

    open spec fn view(&self) -> EvalErrorView {
        match self {
            EvalError::UndefinedVariable(name) => EvalErrorView::UndefinedVariable(name@),
            EvalError::UndefinedFunction(name) => EvalErrorView::UndefinedFunction(name@),
            EvalError::DivisionByZero => EvalErrorView::DivisionByZero,
            EvalError::InvalidOperator(token) => EvalErrorView::InvalidOperator(token@),
            EvalError::Overflow => EvalErrorView::Overflow,
        }
    }
}

/// Whether `result`, with `env` and `output` behind, is what `outcome` asks
/// for: the same value or the same error, on the same state.
pub open spec fn evaluated_as(
    outcome: Evaluated,
    result: Result<i32, EvalError>,
    env: Map<Seq<char>, i32>,
    output: Seq<i32>,
) -> bool {
    &&& env == outcome.state.env
    &&& output == outcome.state.output
    &&& match outcome.result {
        Ok(value) => result == Ok::<i32, EvalError>(value),
        Err(error) => result matches Err(e) && e@ == error,
    }
}

/// Whether `result`, with `env` and `output` behind, is what `outcome` asks
/// for: success or the same error, on the same state.
pub open spec fn interpreted_as(
    outcome: Interpreted,
    result: Result<(), EvalError>,
    env: Map<Seq<char>, i32>,
    output: Seq<i32>,
) -> bool {
    &&& env == outcome.state.env
    &&& output == outcome.state.output
    &&& match outcome.result {
        Ok(()) => result is Ok,
        Err(error) => result matches Err(e) && e@ == error,
    }
}

/// The value of `lhs operation rhs`. An exact result that is no 32-bit
/// integer is an error.
pub fn apply(operation: &Token, lhs: i32, rhs: i32) -> (result: Result<i32, EvalError>)
    ensures
        match semantics::apply(operation@, lhs, rhs) {
            Ok(value) => result == Ok::<i32, EvalError>(value),
            Err(error) => result matches Err(e) && e@ == error,
        },
{
    let exact = match operation.token_type {
        TokenType::Plus => lhs.checked_add(rhs),
        TokenType::Minus => lhs.checked_sub(rhs),
        TokenType::Star => lhs.checked_mul(rhs),
        TokenType::Slash => {
            if rhs == 0 {
                return Err(EvalError::DivisionByZero);
            }
            lhs.checked_div(rhs)
        },
        _ => {
            return Err(EvalError::InvalidOperator(operation.clone()));
        },
    };
    match exact {
        Some(value) => Ok(value),
        None => Err(EvalError::Overflow),
    }
}

/// Evaluates `expr` on `env`, and appends to `output` what it writes out.
///
/// Returns the value of `expr`, or the first error. After an error `env` and
/// `output` hold what was bound and written before it.
pub fn evaluate(expr: &Expr, env: &mut Env, output: &mut Vec<i32>) -> (result: Result<
    i32,
    EvalError,
>)
    ensures
        evaluated_as(
            semantics::evaluate(expr@, State { env: old(env)@, output: old(output)@ }),
            result,
            final(env)@,
            final(output)@,
        ),
    decreases expr,
{
    match expr {
        Expr::Assignment(node) => {
            let value = match evaluate(&node.value, env, output) {
                Ok(value) => value,
                Err(error) => {
                    return Err(error);
                },
            };
            env.insert(node.target.name.lexeme.clone(), value);
            Ok(value)
        },
        Expr::FunCall(node) => {
            let callee = "print".to_owned();
            if node.name.name.lexeme == callee {
                let arg = match evaluate(&node.arg, env, output) {
                    Ok(arg) => arg,
                    Err(error) => {
                        return Err(error);
                    },
                };
                output.push(arg);
                Ok(arg)
            } else {
                Err(EvalError::UndefinedFunction(node.name.name.lexeme.clone()))
            }
        },
        Expr::BinaryOperation(node) => {
            let lhs = match evaluate(&node.lhs, env, output) {
                Ok(lhs) => lhs,
                Err(error) => {
                    return Err(error);
                },
            };
            let rhs = match evaluate(&node.rhs, env, output) {
                Ok(rhs) => rhs,
                Err(error) => {
                    return Err(error);
                },
            };
            apply(&node.operation, lhs, rhs)
        },
        Expr::Number(node) => Ok(node.value),
        Expr::Variable(node) => {
            match env.get(node.name.lexeme.as_str()) {
                Some(value) => Ok(value),
                None => Err(EvalError::UndefinedVariable(node.name.lexeme.clone())),
            }
        },
    }
}

/// Runs a program: evaluates the expressions of `exprs` in order on `env`,
/// and appends to `output` what they write out.
///
/// Stops at the first error and returns it. `env` and `output` then hold
/// what was bound and written before it.
pub fn interprete(exprs: &Vec<Expr>, env: &mut Env, output: &mut Vec<i32>) -> (result: Result<
    (),
    EvalError,
>)
    ensures
        interpreted_as(
            semantics::interpret(
                expr_views(exprs@),
                State { env: old(env)@, output: old(output)@ },
            ),
            result,
            final(env)@,
            final(output)@,
        ),
{
    let ghost all = expr_views(exprs@);
    let ghost start = State { env: env@, output: output@ };
    let mut i: usize = 0;
    assert(all.skip(0) =~= all);
    while i < exprs.len()
        invariant
            i <= exprs.len(),
            all == expr_views(exprs@),
            start == (State { env: old(env)@, output: old(output)@ }),
            semantics::interpret(all, start) == semantics::interpret(
                all.skip(i as int),
                State { env: env@, output: output@ },
            ),
        decreases exprs.len() - i,
    {
        assert(all.skip(i as int).drop_first() =~= all.skip(i + 1));
        match evaluate(&exprs[i], env, output) {
            Ok(_) => {},
            Err(error) => {
                return Err(error);
            },
        }
        i += 1;
    }
    Ok(())
}

} // verus!
