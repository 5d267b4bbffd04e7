//! A small symbolic-algebra engine: a lexer and a precedence-climbing parser
//! for formulas such as `3x^2+sin(x)`, and rewriting passes that simplify,
//! differentiate and solve the resulting expression trees.
pub mod preprocess;
pub mod math;
pub mod http;
