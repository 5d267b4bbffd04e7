pub mod number;
pub mod simplify;
pub mod derivative;
pub mod solve;
