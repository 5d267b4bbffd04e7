use vstd::prelude::*;

use crate::preprocess::token::{SpecToken, Token, TokenType};

verus! {

/// An expression tree.
///
/// `Add` and `Mul` are binary nodes as the parser builds them; `AddFlat` and
/// `MulFlat` are the n-ary sums and products that simplification collects;
/// `VarSimple` is a variable with a coefficient (`mult * token`).
#[allow(non_camel_case_types)]
#[derive(Debug, PartialEq, Eq)]
pub enum Expression {
    Mul { left: Box<Expression>, right: Box<Expression> },
    Add { left: Box<Expression>, right: Box<Expression> },
    AddFlat { args: Vec<Box<Expression>> },
    MulFlat { args: Vec<Box<Expression>> },
    Function { token: Token, input: Box<Expression> },
    Variable(Token),
    VarSimple { token: Token, mult: Box<Expression> },
    Pow { base: Box<Expression>, exponent: Box<Expression> },
    Number(Token),
    NONE,
}

/// The mathematical model of an expression tree.
#[allow(non_camel_case_types)]
pub enum SExpr {
    Mul { left: Box<SExpr>, right: Box<SExpr> },
    Add { left: Box<SExpr>, right: Box<SExpr> },
    AddFlat { args: Seq<SExpr> },
    MulFlat { args: Seq<SExpr> },
    Function { token: SpecToken, input: Box<SExpr> },
    Variable(SpecToken),
    VarSimple { token: SpecToken, mult: Box<SExpr> },
    Pow { base: Box<SExpr>, exponent: Box<SExpr> },
    Number(SpecToken),
    NONE,
}

impl Expression {
    /// The model of the tree.
    pub open spec fn model(&self) -> SExpr
        decreases self,
    {
        match self {
            Expression::Mul { left, right } => SExpr::Mul {
                left: Box::new(left.model()),
                right: Box::new(right.model()),
            },
            Expression::Add { left, right } => SExpr::Add {
                left: Box::new(left.model()),
                right: Box::new(right.model()),
            },
            Expression::AddFlat { args } => SExpr::AddFlat {
                args: Seq::new(
                    args@.len(),
                    |i: int|
                        {
                            if 0 <= i < args@.len() {
                                proof {
                                    assert(decreases_to!(args => args@));
                                    assert(decreases_to!(args@ => args@[i]));
                                }
                                args@[i].model()
                            } else {
                                SExpr::NONE
                            }
                        },
                ),
            },
            Expression::MulFlat { args } => SExpr::MulFlat {
                args: Seq::new(
                    args@.len(),
                    |i: int|
                        {
                            if 0 <= i < args@.len() {
                                proof {
                                    assert(decreases_to!(args => args@));
                                    assert(decreases_to!(args@ => args@[i]));
                                }
                                args@[i].model()
                            } else {
                                SExpr::NONE
                            }
                        },
                ),
            },
            Expression::Function { token, input } => SExpr::Function {
                token: token@,
                input: Box::new(input.model()),
            },
            Expression::Variable(t) => SExpr::Variable(t@),
            Expression::VarSimple { token, mult } => SExpr::VarSimple {
                token: token@,
                mult: Box::new(mult.model()),
            },
            Expression::Pow { base, exponent } => SExpr::Pow {
                base: Box::new(base.model()),
                exponent: Box::new(exponent.model()),
            },
            Expression::Number(t) => SExpr::Number(t@),
            Expression::NONE => SExpr::NONE,
        }
    }
}

impl View for Expression {
    type V = SExpr;

    open spec fn view(&self) -> SExpr {
        self.model()
    }
}

/// The models of a list of boxed trees.
pub open spec fn models(args: Seq<Box<Expression>>) -> Seq<SExpr> {
    Seq::new(args.len(), |i: int| args[i].model())
}

pub proof fn lemma_flat_models(args: Vec<Box<Expression>>)
    ensures
        (Expression::AddFlat { args })@ == (SExpr::AddFlat { args: models(args@) }),
        (Expression::MulFlat { args })@ == (SExpr::MulFlat { args: models(args@) }),
{
    assert((Expression::AddFlat { args })@->AddFlat_args =~= models(args@));
    assert((Expression::MulFlat { args })@->MulFlat_args =~= models(args@));
}

/// An equation `left = right`.
pub struct Equation {
    pub left: Expression,
    pub right: Expression,
}

impl View for Equation {
    type V = (SExpr, SExpr);

    open spec fn view(&self) -> (SExpr, SExpr) {
        (self.left@, self.right@)
    }
}

/// Binding strength of an operator, weakest first.
#[derive(Debug, Clone, Copy, PartialEq, Eq, PartialOrd, Ord, Structural)]
pub enum Precedence {
    Lowest,
    Add,
    Mul,
    Pow,
    Par,
    Call,
}

impl Precedence {
    /// The position of the precedence level in the order `Lowest < Add < Mul < Pow < Par < Call`.
    pub open spec fn spec_rank(self) -> int {
        match self {
            Precedence::Lowest => 0,
            Precedence::Add => 1,
            Precedence::Mul => 2,
            Precedence::Pow => 3,
            Precedence::Par => 4,
            Precedence::Call => 5,
        }
    }

    /// `self` binds more weakly than `other`.
    pub fn weaker_than(&self, other: &Precedence) -> (r: bool)
        ensures
            r == (self.spec_rank() < other.spec_rank()),
    {
        self.rank() < other.rank()
    }

    fn rank(&self) -> (r: u8)
        ensures
            r == self.spec_rank(),
    {
        match self {
            Precedence::Lowest => 0,
            Precedence::Add => 1,
            Precedence::Mul => 2,
            Precedence::Pow => 3,
            Precedence::Par => 4,
            Precedence::Call => 5,
        }
    }
}

// Spec builders for expression models.
pub open spec fn stok(token_type: TokenType, value: Seq<char>) -> SpecToken {
    SpecToken { token_type, value }
}

pub open spec fn snum(value: Seq<char>) -> SExpr {
    SExpr::Number(stok(TokenType::Number, value))
}

pub open spec fn smul(l: SExpr, r: SExpr) -> SExpr {
    SExpr::Mul { left: Box::new(l), right: Box::new(r) }
}

pub open spec fn sadd(l: SExpr, r: SExpr) -> SExpr {
    SExpr::Add { left: Box::new(l), right: Box::new(r) }
}

pub open spec fn spow(b: SExpr, e: SExpr) -> SExpr {
    SExpr::Pow { base: Box::new(b), exponent: Box::new(e) }
}

pub open spec fn sfun(name: Seq<char>, input: SExpr) -> SExpr {
    SExpr::Function { token: stok(TokenType::Function, name), input: Box::new(input) }
}

/// The number one.
pub open spec fn spec_one() -> SExpr {
    snum(seq!['1'])
}

/// The number minus one.
pub open spec fn spec_negative_one() -> SExpr {
    snum(seq!['-', '1'])
}

/// The number zero.
pub open spec fn spec_zero() -> SExpr {
    snum(seq!['0'])
}

/// A number token with the given text.
pub fn number(value: String) -> (r: Expression)
    ensures
        r@ == snum(value@),
{
    Expression::Number(Token { token_type: TokenType::Number, token_value: value })
}

/// The expression `1`.
pub fn one() -> (r: Expression)
    ensures
        r@ == spec_one(),
{
    let s = String::from_str("1");
    proof {
        reveal_strlit("1");
        assert(s@ =~= seq!['1']);
    }
    number(s)
}

/// The expression `-1`.
pub fn negative_one() -> (r: Expression)
    ensures
        r@ == spec_negative_one(),
{
    let s = String::from_str("-1");
    proof {
        reveal_strlit("-1");
        assert(s@ =~= seq!['-', '1']);
    }
    number(s)
}

/// The expression `0`.
pub fn zero() -> (r: Expression)
    ensures
        r@ == spec_zero(),
{
    let s = String::from_str("0");
    proof {
        reveal_strlit("0");
        assert(s@ =~= seq!['0']);
    }
    number(s)
}

/// The application `name(input)` of a function.
pub fn create_function(name: &str, input: Expression) -> (r: Expression)
    ensures
        r@ == sfun(name@, input@),
{
    Expression::Function {
        token: Token { token_type: TokenType::Function, token_value: String::from_str(name) },
        input: Box::new(input),
    }
}

/// Token equality, as `==` on tokens decides it.
pub fn tokens_equal(a: &Token, b: &Token) -> (r: bool)
    ensures
        r == (a@ == b@),
{
    a.token_type == b.token_type && a.token_value == b.token_value
}

/// Structural equality of trees, as `==` on expressions decides it.
pub fn expr_equal(a: &Expression, b: &Expression) -> (r: bool)
    ensures
        r == (a@ == b@),
    decreases a, 1int,
{
    match (a, b) {
        (Expression::Mul { left: l1, right: r1 }, Expression::Mul { left: l2, right: r2 }) => {
            expr_equal(l1, l2) && expr_equal(r1, r2)
        },
        (Expression::Add { left: l1, right: r1 }, Expression::Add { left: l2, right: r2 }) => {
            expr_equal(l1, l2) && expr_equal(r1, r2)
        },
        (Expression::AddFlat { args: a1 }, Expression::AddFlat { args: a2 }) => {
            proof {
                lemma_flat_models(*a1);
                lemma_flat_models(*a2);
            }
            args_equal(a1, a2)
        },
        (Expression::MulFlat { args: a1 }, Expression::MulFlat { args: a2 }) => {
            proof {
                lemma_flat_models(*a1);
                lemma_flat_models(*a2);
            }
            args_equal(a1, a2)
        },
        (
            Expression::Function { token: t1, input: i1 },
            Expression::Function { token: t2, input: i2 },
        ) => tokens_equal(t1, t2) && expr_equal(i1, i2),
        (Expression::Variable(t1), Expression::Variable(t2)) => tokens_equal(t1, t2),
        (
            Expression::VarSimple { token: t1, mult: m1 },
            Expression::VarSimple { token: t2, mult: m2 },
        ) => tokens_equal(t1, t2) && expr_equal(m1, m2),
        (
            Expression::Pow { base: b1, exponent: e1 },
            Expression::Pow { base: b2, exponent: e2 },
        ) => expr_equal(b1, b2) && expr_equal(e1, e2),
        (Expression::Number(t1), Expression::Number(t2)) => tokens_equal(t1, t2),
        (Expression::NONE, Expression::NONE) => true,
        _ => false,
    }
}

/// Element-wise equality of two lists of boxed trees.
pub fn args_equal(a: &Vec<Box<Expression>>, b: &Vec<Box<Expression>>) -> (r: bool)
    ensures
        r == (models(a@) == models(b@)),
    decreases a, 0int,
{
    if a.len() != b.len() {
        assert(models(a@).len() != models(b@).len());
        return false;
    }
    let mut i: usize = 0;
    while i < a.len()
        invariant
            i <= a@.len(),
            a@.len() == b@.len(),
            forall|j: int| 0 <= j < i ==> a@[j].model() == b@[j].model(),
        decreases a@.len() - i,
    {
        proof {
            assert(decreases_to!(a => a@));
            assert(decreases_to!(a@ => a@[i as int]));
        }
        if !expr_equal(&a[i], &b[i]) {
            assert(models(a@)[i as int] != models(b@)[i as int]);
            return false;
        }
        i = i + 1;
    }
    assert(models(a@) =~= models(b@));
    true
}

/// The flat sum of the given terms.
pub fn flat_sum(args: Vec<Box<Expression>>) -> (r: Expression)
    ensures
        r@ == (SExpr::AddFlat { args: models(args@) }),
{
    proof {
        lemma_flat_models(args);
    }
    Expression::AddFlat { args }
}

/// The flat product of the given factors.
pub fn flat_prod(args: Vec<Box<Expression>>) -> (r: Expression)
    ensures
        r@ == (SExpr::MulFlat { args: models(args@) }),
{
    proof {
        lemma_flat_models(args);
    }
    Expression::MulFlat { args }
}

/// The variable `token` with coefficient `mult`.
pub fn var_simple(token: Token, mult: Expression) -> (e: Expression)
    ensures
        e@ == (SExpr::VarSimple { token: token@, mult: Box::new(mult@) }),
{
    Expression::VarSimple { token, mult: Box::new(mult) }
}

/// The product `l * r`.
pub fn product(l: Expression, r: Expression) -> (e: Expression)
    ensures
        e@ == smul(l@, r@),
{
    Expression::Mul { left: Box::new(l), right: Box::new(r) }
}

/// The sum `l + r`.
pub fn sum(l: Expression, r: Expression) -> (e: Expression)
    ensures
        e@ == sadd(l@, r@),
{
    Expression::Add { left: Box::new(l), right: Box::new(r) }
}

/// The power `b ^ x`.
pub fn power(b: Expression, x: Expression) -> (e: Expression)
    ensures
        e@ == spow(b@, x@),
{
    Expression::Pow { base: Box::new(b), exponent: Box::new(x) }
}

/// The text `s` is the literal `lit`.
pub fn text_is(s: &String, lit: &str) -> (r: bool)
    ensures
        r == (s@ == lit@),
{
    let t = String::from_str(lit);
    *s == t
}

/// Deep copy of a list of boxed trees.
pub fn clone_args(args: &Vec<Box<Expression>>) -> (r: Vec<Box<Expression>>)
    ensures
        models(r@) == models(args@),
    decreases args, 0int,
{
    let mut out: Vec<Box<Expression>> = Vec::new();
    let mut i: usize = 0;
    while i < args.len()
        invariant
            i <= args@.len(),
            out@.len() == i,
            forall|j: int| 0 <= j < i ==> out@[j].model() == args@[j].model(),
        decreases args@.len() - i,
    {
        proof {
            assert(decreases_to!(args => args@));
            assert(decreases_to!(args@ => args@[i as int]));
        }
        let c = (*args[i]).clone();
        out.push(Box::new(c));
        i = i + 1;
    }
    assert(models(out@) =~= models(args@));
    out
}

impl Clone for Expression {
    fn clone(&self) -> (r: Self)
        ensures
            r@ == self@,
        decreases self, 1int,
    {
        match self {
            Expression::Mul { left, right } => Expression::Mul {
                left: Box::new((**left).clone()),
                right: Box::new((**right).clone()),
            },
            Expression::Add { left, right } => Expression::Add {
                left: Box::new((**left).clone()),
                right: Box::new((**right).clone()),
            },
            Expression::AddFlat { args } => {
                let c = clone_args(args);
                proof {
                    lemma_flat_models(c);
                    lemma_flat_models(*args);
                }
                Expression::AddFlat { args: c }
            },
            Expression::MulFlat { args } => {
                let c = clone_args(args);
                proof {
                    lemma_flat_models(c);
                    lemma_flat_models(*args);
                }
                Expression::MulFlat { args: c }
            },
            Expression::Function { token, input } => Expression::Function {
                token: token.clone(),
                input: Box::new((**input).clone()),
            },
            Expression::Variable(t) => Expression::Variable(t.clone()),
            Expression::VarSimple { token, mult } => Expression::VarSimple {
                token: token.clone(),
                mult: Box::new((**mult).clone()),
            },
            Expression::Pow { base, exponent } => Expression::Pow {
                base: Box::new((**base).clone()),
                exponent: Box::new((**exponent).clone()),
            },
            Expression::Number(t) => Expression::Number(t.clone()),
            Expression::NONE => Expression::NONE,
        }
    }
}

} // verus!
