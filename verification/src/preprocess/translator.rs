use vstd::prelude::*;

use crate::math::simplify::opt_model;
use crate::preprocess::lexer;
use crate::preprocess::parser::{self, parsed, parse_tokens};
use crate::preprocess::types::{Expression, SExpr};

verus! {

/// Turns formulas written as text into expression trees.
pub struct Translator {}

/// A translator.
pub fn new() -> Translator {
    Translator {}
}

/// The tree that a translator builds from the text `input`: the parse of its tokens.
pub open spec fn translated(input: Seq<char>) -> Option<SExpr> {
    parsed(lexer::lex(input))
}

impl Translator {
    /// Lexes and parses `input`. Its tokens must parse (see `parser::run`).
    pub fn translate(&self, input: String) -> (r: Expression)
        requires
            translated(input@) is Some,
        ensures
            translated(input@) == Some(r@),
    {
        let tokens = lexer::run(input);
        parser::run(tokens)
    }

    /// Lexes and parses `input` within `fuel` nested parsing steps; `None`
    /// when its tokens do not parse within them.
    pub fn try_translate(&self, input: String, fuel: u64) -> (r: Option<Expression>)
        ensures
            opt_model(r) == parse_tokens(lexer::lex(input@), fuel as nat),
    {
        let tokens = lexer::run(input);
        parser::try_run(tokens, fuel)
    }
}

} // verus!
