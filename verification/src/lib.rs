//! A small line-oriented expression language: a lexer, a recursive-descent
//! parser and an evaluator over one flat environment of integers.
//!
//! Every stage has a mathematical model (`tokenize::lex`,
//! `grammar::program`, `semantics::interpret`), and the executable functions
//! are proved to compute exactly what the models say.

pub mod grammar;
pub mod interpret;
pub mod number;
pub mod parse;
pub mod pipeline;
pub mod semantics;
pub mod text;
pub mod tokenize;
