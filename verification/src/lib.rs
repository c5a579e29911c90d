//! Arithmetic over text.
//!
//! [`tokenize`] splits an expression into numbers and single-character
//! operators. [`evaluate`] takes the tokens in one pass with a stack of
//! operands and a stack of operators, so that `*` and `/` bind tighter than
//! `+` and `-`. [`calculate`] does one after the other.
//!
//! The library decides what is computed and in which order; the numbers
//! themselves are the caller's. An evaluation is given three functions: one
//! that reads the text of a number, one that tells whether a divisor is zero,
//! and one that computes `a op b`. What the evaluator does with them is
//! stated over a plan: the steps taken on the operand stack, which depend on
//! the tokens alone.

pub mod error;
pub mod token;
pub mod plan;
pub mod run;
pub mod eval;
pub mod infix;

pub use error::EvalError;
pub use eval::{apply_operator, calculate, denotes_number, evaluate, precedence};
pub use token::{tokenize, Token};
