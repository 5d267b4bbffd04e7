use vstd::prelude::*;

verus! {

/// The lexical category of a token.
#[allow(non_camel_case_types)]
#[derive(Debug, Clone, Copy, PartialEq, Eq, Hash, Structural)]
pub enum TokenType {
    NULL,
    Star,
    Slash,
    Plus,
    Minus,
    Equals,
    LeftPara,
    RightPara,
    Caret,
    Number,
    Variable,
    Function,
}

/// The mathematical model of a token: its category and its text.
pub struct SpecToken {
    pub token_type: TokenType,
    pub value: Seq<char>,
}

/// A token of a formula: its category and the text it was read from.
#[derive(Debug, PartialEq, Eq, Hash)]
pub struct Token {
    pub token_type: TokenType,
    pub token_value: String,
}

impl View for Token {
    type V = SpecToken;

    open spec fn view(&self) -> SpecToken {
        SpecToken { token_type: self.token_type, value: self.token_value@ }
    }
}

impl Clone for Token {
    fn clone(&self) -> (r: Self)
        ensures
            r@ == self@,
    {
        Token { token_type: self.token_type, token_value: self.token_value.clone() }
    }
}

impl Token {
    /// The text of the token, as it is printed.
    pub fn text(&self) -> (r: String)
        ensures
            r@ == self.token_value@,
    {
        self.token_value.clone()
    }
}

} // verus!
