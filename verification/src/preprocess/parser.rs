use vstd::prelude::*;

use crate::math::simplify::{max_fuel, opt_model};
use crate::preprocess::lexer::token_views;
use crate::preprocess::token::{SpecToken, Token, TokenType};
use crate::preprocess::types::{
    Expression, Precedence, SExpr, smul, sadd, spow, spec_negative_one, negative_one, product, sum,
    power,
};

verus! {

/// The binding strength of the operator that a token stands for.
pub open spec fn spec_token_precedence(t: SpecToken) -> Precedence {
    match t.token_type {
        TokenType::Star => Precedence::Mul,
        TokenType::Slash => Precedence::Mul,
        TokenType::Plus => Precedence::Add,
        TokenType::Minus => Precedence::Add,
        TokenType::LeftPara => Precedence::Par,
        TokenType::Caret => Precedence::Pow,
        _ => Precedence::Lowest,
    }
}

/// The position after moving one token on from `i`; `None` past the last token.
pub open spec fn shift(toks: Seq<SpecToken>, i: int) -> Option<int> {
    if i + 1 < toks.len() {
        Some(i + 1)
    } else {
        None
    }
}

// The parser's state is a position `i`: the current token is `toks[i - 1]` and
// the next one `toks[i]`. Each parsing function returns the position it stops
// at and the tree it built, or `None` when it runs past the last token or out
// of `fuel` nested steps.

/// An expression whose operators bind more strongly than `prec`.
pub open spec fn p_expr(toks: Seq<SpecToken>, i: int, prec: Precedence, fuel: nat) -> Option<
    (int, SExpr),
>
    decreases fuel,
{
    if fuel == 0 {
        None
    } else {
        match p_minus(toks, i, (fuel - 1) as nat) {
            Some((i1, left)) => p_loop(toks, i1, prec, left, (fuel - 1) as nat),
            None => None,
        }
    }
}

/// Extends `left` with infix operators that bind more strongly than `prec`.
pub open spec fn p_loop(
    toks: Seq<SpecToken>,
    i: int,
    prec: Precedence,
    left: SExpr,
    fuel: nat,
) -> Option<(int, SExpr)>
    decreases fuel,
{
    if fuel == 0 {
        None
    } else if prec.spec_rank() < spec_token_precedence(toks[i]).spec_rank() {
        match shift(toks, i) {
            Some(i2) => match p_infix(toks, i2, left, (fuel - 1) as nat) {
                Some((i3, l2)) => p_loop(toks, i3, prec, l2, (fuel - 1) as nat),
                None => None,
            },
            None => None,
        }
    } else {
        Some((i, left))
    }
}

/// A function application `name(expr)`, the name being the current token.
pub open spec fn p_function(toks: Seq<SpecToken>, i: int, fuel: nat) -> Option<(int, SExpr)>
    decreases fuel,
{
    if fuel == 0 {
        None
    } else {
        let func = toks[i - 1];
        match shift(toks, i) {
            Some(i1) => match shift(toks, i1) {
                Some(i2) => match p_expr(toks, i2, Precedence::Lowest, (fuel - 1) as nat) {
                    Some((i3, input)) => match shift(toks, i3) {
                        Some(i4) => Some(
                            (i4, SExpr::Function { token: func, input: Box::new(input) }),
                        ),
                        None => None,
                    },
                    None => None,
                },
                None => None,
            },
            None => None,
        }
    }
}

/// An operand: a number, a variable, a function application, a parenthesised
/// expression, or a negated number, variable or application.
pub open spec fn p_minus(toks: Seq<SpecToken>, i: int, fuel: nat) -> Option<(int, SExpr)>
    decreases fuel,
{
    if fuel == 0 {
        None
    } else {
        let cur = toks[i - 1];
        let next = toks[i];
        match cur.token_type {
            TokenType::Number => Some((i, SExpr::Number(cur))),
            TokenType::Variable => Some((i, SExpr::Variable(cur))),
            TokenType::Function => p_function(toks, i, (fuel - 1) as nat),
            TokenType::LeftPara => match shift(toks, i) {
                Some(i1) => match p_expr(toks, i1, Precedence::Lowest, (fuel - 1) as nat) {
                    Some((i2, val)) => match shift(toks, i2) {
                        Some(i3) => Some((i3, val)),
                        None => None,
                    },
                    None => None,
                },
                None => None,
            },
            _ => match next.token_type {
                TokenType::Number => Some((i, smul(spec_negative_one(), SExpr::Number(next)))),
                TokenType::Variable => Some((i, smul(spec_negative_one(), SExpr::Number(next)))),
                TokenType::Function => match p_expr(toks, i, Precedence::Call, (fuel - 1) as nat) {
                    Some((i2, e)) => Some(
                        (
                            i2,
                            smul(
                                spec_negative_one(),
                                SExpr::Function { token: next, input: Box::new(e) },
                            ),
                        ),
                    ),
                    None => None,
                },
                _ => Some((i, SExpr::NONE)),
            },
        }
    }
}

/// Applies the infix operator that is the current token to `left` and the
/// operand that follows it.
pub open spec fn p_infix(toks: Seq<SpecToken>, i: int, left: SExpr, fuel: nat) -> Option<
    (int, SExpr),
>
    decreases fuel,
{
    if fuel == 0 {
        None
    } else {
        let t = toks[i - 1].token_type;
        if t == TokenType::Star || t == TokenType::Minus || t == TokenType::Plus || t
            == TokenType::Slash || t == TokenType::Caret {
            let prec = if t == TokenType::Star || t == TokenType::Slash {
                Precedence::Mul
            } else if t == TokenType::Caret {
                Precedence::Pow
            } else {
                Precedence::Add
            };
            match shift(toks, i) {
                Some(i1) => match p_expr(toks, i1, prec, (fuel - 1) as nat) {
                    Some((i2, r)) => Some(
                        (
                            i2,
                            if t == TokenType::Star {
                                smul(left, r)
                            } else if t == TokenType::Minus {
                                sadd(left, smul(spec_negative_one(), r))
                            } else if t == TokenType::Plus {
                                sadd(left, r)
                            } else if t == TokenType::Slash {
                                smul(left, spow(r, spec_negative_one()))
                            } else {
                                spow(left, r)
                            },
                        ),
                    ),
                    None => None,
                },
                None => None,
            }
        } else {
            Some((i, left))
        }
    }
}

/// The tree parsed from a token list, within `fuel` nested steps; `None` when
/// the list has fewer than two tokens, when parsing runs past its end, or when
/// the steps do not suffice.
pub open spec fn parse_tokens(toks: Seq<SpecToken>, fuel: nat) -> Option<SExpr> {
    if toks.len() < 2 {
        None
    } else {
        match p_expr(toks, 1, Precedence::Lowest, fuel) {
            Some((_, e)) => Some(e),
            None => None,
        }
    }
}

/// The tree that `run` builds from a token list.
pub open spec fn parsed(toks: Seq<SpecToken>) -> Option<SExpr> {
    parse_tokens(toks, max_fuel())
}

} // verus!

verus! {

/// The binding strength of the operator that a token stands for.
fn token_to_precedence(token: &Token) -> (r: Precedence)
    ensures
        r == spec_token_precedence(token@),
{
    match token.token_type {
        TokenType::Star => Precedence::Mul,
        TokenType::Slash => Precedence::Mul,
        TokenType::Plus => Precedence::Add,
        TokenType::Minus => Precedence::Add,
        TokenType::LeftPara => Precedence::Par,
        TokenType::Caret => Precedence::Pow,
        _ => Precedence::Lowest,
    }
}

/// A precedence-climbing parser over a token list.
pub struct Parser {
    tokens: Vec<Token>,
    cur_token: Token,
    next_token: Token,
    idx: usize,
}

impl Parser {
    /// The parser stands at a position inside its token list, with the
    /// current and next tokens read from it.
    pub closed spec fn wf(&self) -> bool {
        &&& 0 < self.idx < self.tokens@.len()
        &&& self.cur_token@ == self.tokens@[self.idx - 1]@
        &&& self.next_token@ == self.tokens@[self.idx as int]@
    }

    /// The models of the tokens being parsed.
    pub closed spec fn toks(&self) -> Seq<SpecToken> {
        token_views(self.tokens@)
    }

    /// The position: the index of the next token.
    pub closed spec fn position(&self) -> int {
        self.idx as int
    }

    /// Moves one token on: the next token becomes the current one and the
    /// token after it the next one. The step is total: at the last token
    /// there is nothing to move to, and it leaves the parser as it is and
    /// answers `false`, which the parsing functions pass up as a failed parse
    /// (`None`) rather than indexing past the end of the list.
    fn shift_token(&mut self) -> (ok: bool)
        requires
            old(self).wf(),
        ensures
            final(self).wf(),
            final(self).toks() == old(self).toks(),
            ok == shift(old(self).toks(), old(self).position()) is Some,
            ok ==> final(self).position() == old(self).position() + 1,
            ok ==> final(self).cur_token@ == old(self).next_token@,
            ok ==> final(self).next_token@ == final(self).toks()[final(self).position()],
            !ok ==> *final(self) == *old(self),
    {
        if self.idx >= self.tokens.len() - 1 {
            return false;
        }
        self.cur_token = self.next_token.clone();
        self.idx = self.idx + 1;
        self.next_token = self.tokens[self.idx].clone();
        true
    }

    /// Parses the whole token list.
    pub fn parse(self) -> (r: Expression)
        requires
            self.wf(),
            p_expr(self.toks(), self.position(), Precedence::Lowest, max_fuel()) is Some,
        ensures
            p_expr(self.toks(), self.position(), Precedence::Lowest, max_fuel()).unwrap().1 == r@,
    {
        let mut p = self;
        match p.parse_expression(Precedence::Lowest, u64::MAX) {
            Some(e) => e,
            None => {
                proof {
                    assert(false);
                }
                Expression::NONE
            },
        }
    }

    fn parse_expression(&mut self, precedence: Precedence, fuel: u64) -> (r: Option<Expression>)
        requires
            old(self).wf(),
        ensures
            final(self).wf(),
            final(self).toks() == old(self).toks(),
            match r {
                Some(e) => p_expr(old(self).toks(), old(self).position(), precedence, fuel as nat)
                    == Some((final(self).position(), e@)),
                None => p_expr(
                    old(self).toks(),
                    old(self).position(),
                    precedence,
                    fuel as nat,
                ) is None,
            },
        decreases fuel,
    {
        if fuel == 0 {
            return None;
        }
        let ghost toks = self.toks();
        let ghost start = self.position();
        let mut left = self.parse_minus(fuel - 1)?;
        let mut f: u64 = fuel - 1;
        loop
            invariant
                self.wf(),
                self.toks() == toks,
                toks == old(self).toks(),
                start == old(self).position(),
                f <= fuel - 1,
                p_expr(toks, start, precedence, fuel as nat) == p_loop(
                    toks,
                    self.position(),
                    precedence,
                    left@,
                    f as nat,
                ),
            decreases f,
        {
            if f == 0 {
                return None;
            }
            if precedence.weaker_than(&token_to_precedence(&self.next_token)) {
                if !self.shift_token() {
                    return None;
                }
                left = self.parse_infix(left, f - 1)?;
                f = f - 1;
            } else {
                return Some(left);
            }
        }
    }

    fn parse_function(&mut self, fuel: u64) -> (r: Option<Expression>)
        requires
            old(self).wf(),
        ensures
            final(self).wf(),
            final(self).toks() == old(self).toks(),
            match r {
                Some(e) => p_function(old(self).toks(), old(self).position(), fuel as nat) == Some(
                    (final(self).position(), e@),
                ),
                None => p_function(old(self).toks(), old(self).position(), fuel as nat) is None,
            },
        decreases fuel,
    {
        if fuel == 0 {
            return None;
        }
        let func_token = self.cur_token.clone();
        if !self.shift_token() {
            return None;
        }
        if !self.shift_token() {
            return None;
        }
        let input = self.parse_expression(Precedence::Lowest, fuel - 1)?;
        if !self.shift_token() {
            return None;
        }
        Some(Expression::Function { token: func_token, input: Box::new(input) })
    }

    fn parse_minus(&mut self, fuel: u64) -> (r: Option<Expression>)
        requires
            old(self).wf(),
        ensures
            final(self).wf(),
            final(self).toks() == old(self).toks(),
            match r {
                Some(e) => p_minus(old(self).toks(), old(self).position(), fuel as nat) == Some(
                    (final(self).position(), e@),
                ),
                None => p_minus(old(self).toks(), old(self).position(), fuel as nat) is None,
            },
        decreases fuel,
    {
        if fuel == 0 {
            return None;
        }
        match self.cur_token.token_type {
            TokenType::Number => {
                return Some(Expression::Number(self.cur_token.clone()));
            },
            TokenType::Variable => {
                return Some(Expression::Variable(self.cur_token.clone()));
            },
            TokenType::Function => {
                return self.parse_function(fuel - 1);
            },
            TokenType::LeftPara => {
                if !self.shift_token() {
                    return None;
                }
                let val = self.parse_expression(Precedence::Lowest, fuel - 1)?;
                if !self.shift_token() {
                    return None;
                }
                return Some(val);
            },
            _ => {},
        }
        match self.next_token.token_type {
            TokenType::Number => Some(
                product(negative_one(), Expression::Number(self.next_token.clone())),
            ),
            TokenType::Variable => Some(
                product(negative_one(), Expression::Number(self.next_token.clone())),
            ),
            TokenType::Function => {
                let token = self.next_token.clone();
                let input = self.parse_expression(Precedence::Call, fuel - 1)?;
                Some(
                    product(
                        negative_one(),
                        Expression::Function { token, input: Box::new(input) },
                    ),
                )
            },
            _ => Some(Expression::NONE),
        }
    }

    fn parse_infix(&mut self, left: Expression, fuel: u64) -> (r: Option<Expression>)
        requires
            old(self).wf(),
        ensures
            final(self).wf(),
            final(self).toks() == old(self).toks(),
            match r {
                Some(e) => p_infix(old(self).toks(), old(self).position(), left@, fuel as nat)
                    == Some((final(self).position(), e@)),
                None => p_infix(old(self).toks(), old(self).position(), left@, fuel as nat) is None,
            },
        decreases fuel,
    {
        if fuel == 0 {
            return None;
        }
        match self.cur_token.token_type {
            TokenType::Star => {
                if !self.shift_token() {
                    return None;
                }
                let r = self.parse_expression(Precedence::Mul, fuel - 1)?;
                Some(product(left, r))
            },
            TokenType::Minus => {
                if !self.shift_token() {
                    return None;
                }
                let r = self.parse_expression(Precedence::Add, fuel - 1)?;
                Some(sum(left, product(negative_one(), r)))
            },
            TokenType::Plus => {
                if !self.shift_token() {
                    return None;
                }
                let r = self.parse_expression(Precedence::Add, fuel - 1)?;
                Some(sum(left, r))
            },
            TokenType::Slash => {
                if !self.shift_token() {
                    return None;
                }
                let r = self.parse_expression(Precedence::Mul, fuel - 1)?;
                Some(product(left, power(r, negative_one())))
            },
            TokenType::Caret => {
                if !self.shift_token() {
                    return None;
                }
                let r = self.parse_expression(Precedence::Pow, fuel - 1)?;
                Some(power(left, r))
            },
            _ => Some(left),
        }
    }
}

fn start(tokens: Vec<Token>) -> (p: Parser)
    requires
        tokens@.len() >= 2,
    ensures
        p.wf(),
        p.toks() == token_views(tokens@),
        p.position() == 1,
{
    Parser { cur_token: tokens[0].clone(), next_token: tokens[1].clone(), tokens, idx: 1 }
}

/// Parses a token list, as produced by the lexer, into an expression tree.
///
/// The list must have at least two tokens, and parsing must neither run past
/// its end nor loop (a minus sign before a function name, as in `-sin(x)`,
/// makes it loop).
pub fn run(tokens: Vec<Token>) -> (r: Expression)
    requires
        parsed(token_views(tokens@)) is Some,
    ensures
        parsed(token_views(tokens@)) == Some(r@),
{
    match try_run(tokens, u64::MAX) {
        Some(e) => e,
        None => {
            proof {
                assert(false);
            }
            Expression::NONE
        },
    }
}

/// Parses a token list as `run` does, within `fuel` nested steps; `None` when
/// the list has fewer than two tokens, when parsing runs past its end, or when
/// the steps do not suffice.
pub fn try_run(tokens: Vec<Token>, fuel: u64) -> (r: Option<Expression>)
    ensures
        opt_model(r) == parse_tokens(token_views(tokens@), fuel as nat),
{
    if tokens.len() < 2 {
        return None;
    }
    let mut p = start(tokens);
    p.parse_expression(Precedence::Lowest, fuel)
}

} // verus!

verus! {

/// More steps never change a parse that succeeds: when `p_expr` succeeds with
/// `n` steps it gives the same position and tree with any `m >= n` steps.
pub proof fn lemma_p_expr_fuel(toks: Seq<SpecToken>, i: int, prec: Precedence, n: nat, m: nat)
    requires
        n <= m,
        p_expr(toks, i, prec, n) is Some,
    ensures
        p_expr(toks, i, prec, m) == p_expr(toks, i, prec, n),
    decreases n,
{
    let f = (n - 1) as nat;
    let g = (m - 1) as nat;
    lemma_p_minus_fuel(toks, i, f, g);
    let (i1, left) = p_minus(toks, i, f).unwrap();
    lemma_p_loop_fuel(toks, i1, prec, left, f, g);
}

proof fn lemma_p_loop_fuel(
    toks: Seq<SpecToken>,
    i: int,
    prec: Precedence,
    left: SExpr,
    n: nat,
    m: nat,
)
    requires
        n <= m,
        p_loop(toks, i, prec, left, n) is Some,
    ensures
        p_loop(toks, i, prec, left, m) == p_loop(toks, i, prec, left, n),
    decreases n,
{
    let f = (n - 1) as nat;
    let g = (m - 1) as nat;
    if prec.spec_rank() < spec_token_precedence(toks[i]).spec_rank() {
        let i2 = shift(toks, i).unwrap();
        lemma_p_infix_fuel(toks, i2, left, f, g);
        let (i3, l2) = p_infix(toks, i2, left, f).unwrap();
        lemma_p_loop_fuel(toks, i3, prec, l2, f, g);
    }
}

proof fn lemma_p_function_fuel(toks: Seq<SpecToken>, i: int, n: nat, m: nat)
    requires
        n <= m,
        p_function(toks, i, n) is Some,
    ensures
        p_function(toks, i, m) == p_function(toks, i, n),
    decreases n,
{
    let f = (n - 1) as nat;
    let g = (m - 1) as nat;
    lemma_p_expr_fuel(toks, i + 2, Precedence::Lowest, f, g);
}

proof fn lemma_p_minus_fuel(toks: Seq<SpecToken>, i: int, n: nat, m: nat)
    requires
        n <= m,
        p_minus(toks, i, n) is Some,
    ensures
        p_minus(toks, i, m) == p_minus(toks, i, n),
    decreases n,
{
    let f = (n - 1) as nat;
    let g = (m - 1) as nat;
    match toks[i - 1].token_type {
        TokenType::Number => {},
        TokenType::Variable => {},
        TokenType::Function => {
            lemma_p_function_fuel(toks, i, f, g);
        },
        TokenType::LeftPara => {
            lemma_p_expr_fuel(toks, i + 1, Precedence::Lowest, f, g);
        },
        _ => {
            if toks[i].token_type == TokenType::Function {
                lemma_p_expr_fuel(toks, i, Precedence::Call, f, g);
            }
        },
    }
}

proof fn lemma_p_infix_fuel(toks: Seq<SpecToken>, i: int, left: SExpr, n: nat, m: nat)
    requires
        n <= m,
        p_infix(toks, i, left, n) is Some,
    ensures
        p_infix(toks, i, left, m) == p_infix(toks, i, left, n),
    decreases n,
{
    let f = (n - 1) as nat;
    let g = (m - 1) as nat;
    let t = toks[i - 1].token_type;
    if t == TokenType::Star || t == TokenType::Minus || t == TokenType::Plus || t == TokenType::Slash
        || t == TokenType::Caret {
        let prec = if t == TokenType::Star || t == TokenType::Slash {
            Precedence::Mul
        } else if t == TokenType::Caret {
            Precedence::Pow
        } else {
            Precedence::Add
        };
        lemma_p_expr_fuel(toks, i + 1, prec, f, g);
    }
}

/// More steps never change a parse that succeeds: when `try_run` succeeds
/// with some fuel, `run` gives the same tree.
pub proof fn lemma_parse_tokens_fuel(toks: Seq<SpecToken>, n: nat, m: nat)
    requires
        n <= m,
        parse_tokens(toks, n) is Some,
    ensures
        parse_tokens(toks, m) == parse_tokens(toks, n),
{
    lemma_p_expr_fuel(toks, 1, Precedence::Lowest, n, m);
}

} // verus!
