//! Small helpers for the editors: arithmetic on counts.

pub mod math_eval;

pub use math_eval::eval_expression;
