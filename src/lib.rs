//! An evaluator for a small language of scalar and matrix arithmetic with
//! variables: a lexer, a precedence-climbing parser that produces postfix
//! sequences, a dense matrix type with LU decomposition and inversion, and an
//! engine that runs statements against a variable environment.
pub mod scalar;
pub mod utils;
pub mod errors;
pub mod token;
pub mod lexer;
pub mod ast;
pub mod parser;
pub mod matrix;
pub mod runtime;
pub mod engine;
pub mod session;
