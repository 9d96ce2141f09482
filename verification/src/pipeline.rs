//! The whole pipeline: from source text to what the program binds and
//! writes out.

use crate::grammar;
use crate::grammar::ParseErrorView;
use crate::interpret::{interprete, Env, EvalError};
use crate::parse::{parse, ParseError};
use crate::semantics;
use crate::semantics::{EvalErrorView, State};
use crate::tokenize::{lex, tokenize, LexError};
use vstd::prelude::*;

verus! {

/// Why a run stopped: the error of the stage that failed.
#[derive(Debug, PartialEq, Eq)]
pub enum Error {
    /// The text is no sequence of tokens.
    Lex(LexError),
    /// The tokens are no program.
    Parse(ParseError),
    /// An expression has no value.
    Eval(EvalError),
}

/// The mathematical value of an [`Error`].
pub ghost enum ErrorView {
    Lex(LexError),
    Parse(ParseErrorView),
    Eval(EvalErrorView),
}

impl View for Error {
    type V = ErrorView;

    open spec fn view(&self) -> ErrorView {
        match self {
            Error::Lex(error) => ErrorView::Lex(*error),
            Error::Parse(error) => ErrorView::Parse(error@),
            Error::Eval(error) => ErrorView::Eval(error@),
        }
    }
}

/// What a run leaves behind.
pub struct Outcome {
    /// Whether the program ran to its end, or the error that stopped it.
    pub result: Result<(), Error>,
    /// The variables that the program bound, up to its end or to the error.
    pub env: Env,
    /// The integers that the program wrote out, oldest first, up to its end
    /// or to the error. Each one is a line of output.
    pub output: Vec<i32>,
}

/// The mathematical value of an [`Outcome`].
pub ghost struct OutcomeView {
    pub result: Result<(), ErrorView>,
    pub state: State,
}

impl View for Outcome {
    type V = OutcomeView;

    open spec fn view(&self) -> OutcomeView {
        OutcomeView {
            result: match self.result {
                Ok(()) => Ok(()),
                Err(error) => Err(error@),
            },
            state: State { env: self.env@, output: self.output@ },
        }
    }
}

/// What running `source` comes to: its text is split into tokens, the tokens
/// are parsed into a program, and the program runs on the initial state. An
/// error of the lexer or of the parser stops the run before anything is
/// bound or written.
pub open spec fn outcome_of(source: Seq<char>) -> OutcomeView {
    match lex(source) {
        Err(error) => OutcomeView {
            result: Err(ErrorView::Lex(error)),
            state: semantics::initial_state(),
        },
        Ok(tokens) => match grammar::program(tokens) {
            Err(error) => OutcomeView {
                result: Err(ErrorView::Parse(error)),
                state: semantics::initial_state(),
            },
            Ok(exprs) => {
                let run = semantics::interpret(exprs, semantics::initial_state());
                OutcomeView {
                    result: match run.result {
                        Ok(()) => Ok(()),
                        Err(error) => Err(ErrorView::Eval(error)),
                    },
                    state: run.state,
                }
            },
        },
    }
}

/// Runs the program `source` on a fresh environment.
pub fn run(source: &str) -> (outcome: Outcome)
    ensures
        outcome@ == outcome_of(source@),
{
    let mut env = Env::new();
    let mut output: Vec<i32> = Vec::new();
    let tokens = match tokenize(source) {
        Ok(tokens) => tokens,
        Err(error) => {
            return Outcome { result: Err(Error::Lex(error)), env, output };
        },
    };
    let exprs = match parse(tokens) {
        Ok(exprs) => exprs,
        Err(error) => {
            return Outcome { result: Err(Error::Parse(error)), env, output };
        },
    };
    match interprete(&exprs, &mut env, &mut output) {
        Ok(()) => Outcome { result: Ok(()), env, output },
        Err(error) => Outcome { result: Err(Error::Eval(error)), env, output },
    }
}

/// Running a text again gives the same again: two runs of the same text,
/// each on a fresh environment, end with the same verdict, the same
/// environment and the same output. Nothing is carried from one run to the
/// next.
pub proof fn lemma_run_is_repeatable(source: Seq<char>, first: Outcome, second: Outcome)
    requires
        first@ == outcome_of(source),
        second@ == outcome_of(source),
    ensures
        first@.result == second@.result,
        first.env@ == second.env@,
        first.output@ == second.output@,
{
}

} // verus!
