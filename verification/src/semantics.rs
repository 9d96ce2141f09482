//! What expressions mean, as a mathematical model of the evaluator.
//!
//! A program runs on a state: one flat environment that maps names to
//! integers, and the integers that were written out so far. Every value is a
//! 32-bit signed integer. Arithmetic whose exact result does not fit that
//! type is an error, never a wrapped value.

use crate::grammar::ExprView;
use crate::tokenize::{TokenType, TokenView};
use vstd::prelude::*;

verus! {

/// The mathematical value of an evaluation error.
pub ghost enum EvalErrorView {
    /// A variable of this name is read, and none was assigned.
    UndefinedVariable(Seq<char>),
    /// A function of this name is called, and there is none.
    UndefinedFunction(Seq<char>),
    /// The right operand of a division is zero.
    DivisionByZero,
    /// This token stands as the operator of a binary operation, and is
    /// none of `+ - * /`.
    InvalidOperator(TokenView),
    /// The exact result of an operation is no 32-bit integer.
    Overflow,
}

/// What a run has done so far: the variables with their values, and the
/// integers written out, oldest first.
pub ghost struct State {
    pub env: Map<Seq<char>, i32>,
    pub output: Seq<i32>,
}

/// What evaluating an expression comes to: its value or the error that
/// stopped it, and the state that it leaves. After an error the state is the
/// one reached when the error occurred.
pub ghost struct Evaluated {
    pub result: Result<i32, EvalErrorView>,
    pub state: State,
}

/// The state before anything has run: no variable, no output.
pub open spec fn initial_state() -> State {
    State { env: Map::empty(), output: Seq::empty() }
}

/// The name of the one function that there is. It writes its argument out
/// and yields it.
pub open spec fn output_function() -> Seq<char> {
    "print"@
}

/// The quotient of `dividend` by a `divisor` other than zero, rounded
/// toward zero.
pub open spec fn truncated_quotient(dividend: int, divisor: int) -> int {
    if dividend >= 0 && divisor > 0 {
        dividend / divisor
    } else if dividend < 0 && divisor < 0 {
        (-dividend) / (-divisor)
    } else if dividend < 0 {
        -((-dividend) / divisor)
    } else {
        -(dividend / (-divisor))
    }
}

/// `exact` as a value, where it is a 32-bit integer.
pub open spec fn checked(exact: int) -> Result<i32, EvalErrorView> {
    if i32::MIN <= exact <= i32::MAX {
        Ok(exact as i32)
    } else {
        Err(EvalErrorView::Overflow)
    }
}

/// The value of `lhs operation rhs`.
pub open spec fn apply(operation: TokenView, lhs: i32, rhs: i32) -> Result<i32, EvalErrorView> {
    match operation.token_type {
        TokenType::Plus => checked(lhs + rhs),
        TokenType::Minus => checked(lhs - rhs),
        TokenType::Star => checked(lhs * rhs),
        TokenType::Slash => if rhs == 0 {
            Err(EvalErrorView::DivisionByZero)
        } else {
            checked(truncated_quotient(lhs as int, rhs as int))
        },
        _ => Err(EvalErrorView::InvalidOperator(operation)),
    }
}

/// Evaluates `expr` on `state`.
///
/// - A number is its value.
/// - A variable is the value that the environment has for its name.
/// - An assignment evaluates its value, binds the target's name to it, and
///   is that value.
/// - A binary operation evaluates its left operand, then its right operand,
///   then applies the operator.
/// - A call of the output function evaluates its argument, writes it out,
///   and is that argument. The name of the function is looked at before the
///   argument.
///
/// The first error stops the evaluation. What was bound and written before
/// it stays.
pub open spec fn evaluate(expr: ExprView, state: State) -> Evaluated
    decreases expr,
{
    match expr {
        ExprView::Number { value, token } => Evaluated { result: Ok(value), state },
        ExprView::Variable { name } => if state.env.contains_key(name.lexeme) {
            Evaluated { result: Ok(state.env[name.lexeme]), state }
        } else {
            Evaluated { result: Err(EvalErrorView::UndefinedVariable(name.lexeme)), state }
        },
        ExprView::Assignment { target, value } => {
            let inner = evaluate(*value, state);
            match inner.result {
                Ok(v) => Evaluated {
                    result: Ok(v),
                    state: State {
                        env: inner.state.env.insert(target.lexeme, v),
                        output: inner.state.output,
                    },
                },
                Err(_) => inner,
            }
        },
        ExprView::BinaryOperation { lhs, operation, rhs } => {
            let left = evaluate(*lhs, state);
            match left.result {
                Ok(l) => {
                    let right = evaluate(*rhs, left.state);
                    match right.result {
                        Ok(r) => Evaluated { result: apply(operation, l, r), state: right.state },
                        Err(_) => right,
                    }
                },
                Err(_) => left,
            }
        },
        ExprView::FunCall { name, arg } => if name.lexeme == output_function() {
            let inner = evaluate(*arg, state);
            match inner.result {
                Ok(v) => Evaluated {
                    result: Ok(v),
                    state: State { env: inner.state.env, output: inner.state.output.push(v) },
                },
                Err(_) => inner,
            }
        } else {
            Evaluated { result: Err(EvalErrorView::UndefinedFunction(name.lexeme)), state }
        },
    }
}

/// What running a program comes to: nothing or the error that stopped it, and
/// the state that it leaves.
pub ghost struct Interpreted {
    pub result: Result<(), EvalErrorView>,
    pub state: State,
}

/// Evaluates the expressions of `exprs` in order on `state`, each on the
/// state that the one before it left, and drops their values. The first
/// error stops the run.
pub open spec fn interpret(exprs: Seq<ExprView>, state: State) -> Interpreted
    decreases exprs.len(),
{
    if exprs.len() == 0 {
        Interpreted { result: Ok(()), state }
    } else {
        let first = evaluate(exprs[0], state);
        match first.result {
            Ok(_) => interpret(exprs.drop_first(), first.state),
            Err(error) => Interpreted { result: Err(error), state: first.state },
        }
    }
}

/// Output is only ever appended: evaluating an expression after `before`
/// was written gives the same value and the same environment as evaluating
/// it with nothing written, and writes out `before` followed by what it
/// writes then. What was written stays, also after an error, and has no
/// influence on what follows.
pub proof fn lemma_evaluate_appends(expr: ExprView, env: Map<Seq<char>, i32>, before: Seq<i32>)
    ensures
        evaluate(expr, State { env, output: before }).result == evaluate(
            expr,
            State { env, output: Seq::empty() },
        ).result,
        evaluate(expr, State { env, output: before }).state.env == evaluate(
            expr,
            State { env, output: Seq::empty() },
        ).state.env,
        evaluate(expr, State { env, output: before }).state.output == before + evaluate(
            expr,
            State { env, output: Seq::empty() },
        ).state.output,
    decreases expr,
{
    let nothing = Seq::<i32>::empty();
    assert(before + nothing =~= before);
    match expr {
        ExprView::Number { .. } => {},
        ExprView::Variable { .. } => {},
        ExprView::Assignment { target, value } => {
            lemma_evaluate_appends(*value, env, before);
        },
        ExprView::BinaryOperation { lhs, operation, rhs } => {
            lemma_evaluate_appends(*lhs, env, before);
            let left = evaluate(*lhs, State { env, output: nothing });
            let left_after = evaluate(*lhs, State { env, output: before });
            if left.result is Ok {
                lemma_evaluate_appends(*rhs, left.state.env, left.state.output);
                lemma_evaluate_appends(*rhs, left.state.env, left_after.state.output);
                let right = evaluate(*rhs, State { env: left.state.env, output: nothing });
                assert((before + left.state.output) + right.state.output =~= before + (
                left.state.output + right.state.output));
            }
        },
        ExprView::FunCall { name, arg } => {
            if name.lexeme == output_function() {
                lemma_evaluate_appends(*arg, env, before);
                let inner = evaluate(*arg, State { env, output: nothing });
                if let Ok(v) = inner.result {
                    assert((before + inner.state.output).push(v) =~= before
                        + inner.state.output.push(v));
                }
            }
        },
    }
}

/// Output is only ever appended: running a program after `before` was
/// written gives the same verdict and the same environment as running it
/// with nothing written, and writes out `before` followed by what it writes
/// then.
pub proof fn lemma_interpret_appends(
    exprs: Seq<ExprView>,
    env: Map<Seq<char>, i32>,
    before: Seq<i32>,
)
    ensures
        interpret(exprs, State { env, output: before }).result == interpret(
            exprs,
            State { env, output: Seq::empty() },
        ).result,
        interpret(exprs, State { env, output: before }).state.env == interpret(
            exprs,
            State { env, output: Seq::empty() },
        ).state.env,
        interpret(exprs, State { env, output: before }).state.output == before + interpret(
            exprs,
            State { env, output: Seq::empty() },
        ).state.output,
    decreases exprs.len(),
{
    let nothing = Seq::<i32>::empty();
    assert(before + nothing =~= before);
    if exprs.len() > 0 {
        lemma_evaluate_appends(exprs[0], env, before);
        let first = evaluate(exprs[0], State { env, output: nothing });
        let first_after = evaluate(exprs[0], State { env, output: before });
        if first.result is Ok {
            let others = exprs.drop_first();
            lemma_interpret_appends(others, first.state.env, first.state.output);
            lemma_interpret_appends(others, first.state.env, first_after.state.output);
            let rest = interpret(others, State { env: first.state.env, output: nothing });
            assert((before + first.state.output) + rest.state.output =~= before + (
            first.state.output + rest.state.output));
        }
    }
}

} // verus!
