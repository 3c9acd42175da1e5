//! Evaluation of Reverse Polish Notation expressions over `i64`, and
//! rendering of such expressions in infix form with minimal parentheses.

pub mod calculator;
pub mod eval;
pub mod literal;

pub use calculator::RpnCalculator;
pub use eval::{EvalError, Operator};
pub mod infix;
pub use infix::RenderError;
