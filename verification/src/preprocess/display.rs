use vstd::prelude::*;

use crate::preprocess::types::{Equation, Expression, SExpr, models, lemma_flat_models};
use crate::preprocess::token::SpecToken;

verus! {

/// How an expression is written: binary nodes fully parenthesised, flat sums
/// and products as their terms joined by `+` and `*`, a `VarSimple` as its
/// coefficient followed by its variable, and `NONE` as `(NONE)`.
pub open spec fn text(e: SExpr) -> Seq<char>
    decreases e, 0int,
{
    match e {
        SExpr::Mul { left, right } => "("@ + text(*left) + "*"@ + text(*right) + ")"@,
        SExpr::Add { left, right } => "("@ + text(*left) + "+"@ + text(*right) + ")"@,
        SExpr::Pow { base, exponent } => "("@ + text(*base) + "^"@ + text(*exponent) + ")"@,
        SExpr::Number(t) => t.value,
        SExpr::Variable(t) => t.value,
        SExpr::Function { token, input } => token.value + "("@ + text(*input) + ")"@,
        SExpr::VarSimple { token, mult } => text(*mult) + token.value,
        SExpr::AddFlat { args } => join_text(args, args.len() as int, "+"@),
        SExpr::MulFlat { args } => join_text(args, args.len() as int, "*"@),
        SExpr::NONE => "(NONE)"@,
    }
}

/// The texts of the first `n` expressions, separated by `sep`.
pub open spec fn join_text(args: Seq<SExpr>, n: int, sep: Seq<char>) -> Seq<char>
    decreases args, n,
{
    if n <= 0 || n > args.len() {
        Seq::empty()
    } else if n == 1 {
        proof {
            assert(decreases_to!(args => args[0]));
        }
        text(args[0])
    } else {
        proof {
            assert(decreases_to!(args => args[n - 1]));
        }
        join_text(args, n - 1, sep) + sep + text(args[n - 1])
    }
}

impl Expression {
    /// The expression written out (see `text`).
    pub fn to_text(&self) -> (r: String)
        ensures
            r@ == text(self@),
        decreases self, 1int,
    {
        let mut s = String::new();
        self.write_to(&mut s);
        assert(s@ =~= Seq::<char>::empty() + text(self@));
        s
    }

    /// Appends the expression written out to `s`.
    pub fn write_to(&self, s: &mut String)
        ensures
            final(s)@ == old(s)@ + text(self@),
        decreases self, 0int,
    {
        let ghost s0 = s@;
        match self {
            Expression::Mul { left, right } => {
                s.append("(");
                left.write_to(s);
                s.append("*");
                right.write_to(s);
                s.append(")");
            },
            Expression::Add { left, right } => {
                s.append("(");
                left.write_to(s);
                s.append("+");
                right.write_to(s);
                s.append(")");
            },
            Expression::Pow { base, exponent } => {
                s.append("(");
                base.write_to(s);
                s.append("^");
                exponent.write_to(s);
                s.append(")");
            },
            Expression::Number(t) => {
                s.append(t.token_value.as_str());
            },
            Expression::Variable(t) => {
                s.append(t.token_value.as_str());
            },
            Expression::Function { token, input } => {
                s.append(token.token_value.as_str());
                s.append("(");
                input.write_to(s);
                s.append(")");
            },
            Expression::VarSimple { token, mult } => {
                mult.write_to(s);
                s.append(token.token_value.as_str());
            },
            Expression::AddFlat { args } => {
                proof {
                    lemma_flat_models(*args);
                }
                write_joined(args, "+", s);
            },
            Expression::MulFlat { args } => {
                proof {
                    lemma_flat_models(*args);
                }
                write_joined(args, "*", s);
            },
            Expression::NONE => {
                s.append("(NONE)");
            },
        }
        assert(s@ =~= s0 + text(self@));
    }
}

/// Appends the texts of `args`, separated by `sep`, to `s`.
fn write_joined(args: &Vec<Box<Expression>>, sep: &str, s: &mut String)
    ensures
        final(s)@ == old(s)@ + join_text(models(args@), args@.len() as int, sep@),
    decreases args, 0int,
{
    let ghost s0 = s@;
    let ghost ms = models(args@);
    let mut i: usize = 0;
    assert(s@ =~= s0 + join_text(ms, 0, sep@));
    while i < args.len()
        invariant
            ms == models(args@),
            i <= args@.len(),
            s@ == s0 + join_text(ms, i as int, sep@),
        decreases args@.len() - i,
    {
        proof {
            assert(decreases_to!(args => args@));
            assert(decreases_to!(args@ => args@[i as int]));
        }
        let ghost before = s@;
        if i > 0 {
            s.append(sep);
        }
        args[i].write_to(s);
        assert(ms[i as int] == (*args@[i as int])@);
        assert(s@ =~= s0 + join_text(ms, i + 1, sep@));
        i = i + 1;
    }
}

impl Equation {
    /// The equation written out as `left=right` and a line break.
    pub fn to_text(&self) -> (r: String)
        ensures
            r@ == text(self.left@) + "="@ + text(self.right@) + "\n"@,
    {
        let mut s = String::new();
        self.left.write_to(&mut s);
        s.append("=");
        self.right.write_to(&mut s);
        s.append("\n");
        assert(s@ =~= text(self.left@) + "="@ + text(self.right@) + "\n"@);
        s
    }
}

/// Flat sums and products are written as their terms joined by `+` and `*`,
/// a variable with a coefficient as the coefficient followed by the name,
/// and `NONE` as `(NONE)`.
pub proof fn lemma_text_forms(a: SExpr, b: SExpr, t: SpecToken, m: SExpr)
    ensures
        text(SExpr::AddFlat { args: seq![a, b] }) == text(a) + seq!['+'] + text(b),
        text(SExpr::MulFlat { args: seq![a, b] }) == text(a) + seq!['*'] + text(b),
        text(SExpr::AddFlat { args: seq![a] }) == text(a),
        text(SExpr::VarSimple { token: t, mult: Box::new(m) }) == text(m) + t.value,
        text(SExpr::NONE) == seq!['(', 'N', 'O', 'N', 'E', ')'],
{
    reveal_strlit("+");
    reveal_strlit("*");
    reveal_strlit("(NONE)");
    assert("+"@ =~= seq!['+']);
    assert("*"@ =~= seq!['*']);
    assert("(NONE)"@ =~= seq!['(', 'N', 'O', 'N', 'E', ')']);
    let args = seq![a, b];
    assert(args[0] == a && args[1] == b);
    assert(join_text(args, 1, "+"@) == text(a));
    assert(join_text(args, 1, "*"@) == text(a));
    assert(join_text(seq![a], 1, "+"@) == text(a));
    assert(join_text(args, 2, "+"@) == join_text(args, 1, "+"@) + "+"@ + text(args[1]));
    assert(join_text(args, 2, "*"@) == join_text(args, 1, "*"@) + "*"@ + text(args[1]));
}

} // verus!
