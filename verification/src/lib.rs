//! A line-oriented Reverse Polish Notation evaluator.
//!
//! A line of text is split into whitespace-separated tokens; integer tokens
//! are pushed on a stack, operator tokens pop two operands and push the
//! result. A line evaluates to the single value left on the stack, or to a
//! structured error describing the first fault encountered.

pub mod arith;
pub mod eval;
pub mod laws;
pub mod token;

pub use eval::EvalError;
pub use eval::RpnCalculator;
pub use eval::TraceStep;
pub use token::Token;
