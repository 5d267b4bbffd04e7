pub mod token;
pub mod types;
pub mod lexer;
pub mod parser;
pub mod translator;
pub mod display;
pub mod roundtrip;
