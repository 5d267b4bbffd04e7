use vstd::prelude::*;

use crate::math::number::{apply_op, arith_spec, well_behaved, NumOp};
use crate::preprocess::token::{SpecToken, Token, TokenType};
use crate::preprocess::types::{
    Expression, SExpr, models, snum, smul, sadd, spow, sfun, stok, spec_one, expr_equal, lemma_flat_models,
    one, number, create_function, clone_args, text_is, flat_sum, flat_prod, var_simple,
    product, sum, power,
};

verus! {

/// A function on number texts: the arithmetic of a numeric back end.
pub type Arith = spec_fn(NumOp, Seq<char>, Seq<char>) -> Seq<char>;

/// The number text reads zero.
pub open spec fn is_zero_text(s: Seq<char>) -> bool {
    s == seq!['0'] || s == seq!['-', '0']
}

/// `ln(exp(x))` and `exp(ln(x))` give `x`; any other application gives `NONE`.
pub open spec fn spec_reduce_inverse(token: SpecToken, input: SExpr) -> SExpr {
    if token.value == seq!['l', 'n'] {
        if input is Function && input->Function_token.value == seq!['e', 'x', 'p'] {
            *input->Function_input
        } else {
            SExpr::NONE
        }
    } else if token.value == seq!['e', 'x', 'p'] {
        if input is Function && input->Function_token.value == seq!['l', 'n'] {
            *input->Function_input
        } else {
            SExpr::NONE
        }
    } else {
        SExpr::NONE
    }
}

/// What a collecting pass over the terms of a flat sum or product has gathered:
/// the folded constant, the terms kept as they are, and per variable name the
/// combined term, in the order in which the names first occur.
pub struct Collect {
    pub nums: Seq<char>,
    pub other: Seq<SExpr>,
    pub vars: Seq<(Seq<char>, SExpr)>,
}

/// The position of `key` in `vars`, or -1.
pub open spec fn find_key(vars: Seq<(Seq<char>, SExpr)>, key: Seq<char>) -> int {
    find_from(vars, key, 0)
}

/// The first position of `key` in `vars` at or after `i`, or -1.
pub open spec fn find_from(vars: Seq<(Seq<char>, SExpr)>, key: Seq<char>, i: int) -> int
    decreases vars.len() - i,
{
    if i < 0 || i >= vars.len() {
        -1
    } else if vars[i].0 == key {
        i
    } else {
        find_from(vars, key, i + 1)
    }
}

pub open spec fn wrap_some(r: Option<SExpr>, f: spec_fn(SExpr) -> SExpr) -> Option<SExpr> {
    match r {
        Some(x) => Some(f(x)),
        None => None,
    }
}

/// The simplification of `e`, computed with the number arithmetic `ar` and at
/// most `fuel` nested steps; `None` when the steps do not suffice.
pub open spec fn simp(e: SExpr, ar: Arith, fuel: nat) -> Option<SExpr>
    decreases fuel, 0int,
{
    if fuel == 0 {
        None
    } else {
        let f = (fuel - 1) as nat;
        match e {
            SExpr::Pow { base, exponent } => match simp(*base, ar, f) {
                Some(b) => match simp(*exponent, ar, f) {
                    Some(x) => simp_pow(b, x, ar, f),
                    None => None,
                },
                None => None,
            },
            SExpr::Mul { left, right } => match simp(*left, ar, f) {
                Some(l) => match simp(*right, ar, f) {
                    Some(r) => simp_mul(l, r, ar, f),
                    None => None,
                },
                None => None,
            },
            SExpr::Add { left, right } => match simp(*left, ar, f) {
                Some(l) => match simp(*right, ar, f) {
                    Some(r) => simp_add(l, r, ar, f),
                    None => None,
                },
                None => None,
            },
            SExpr::AddFlat { args } => if args.len() == 1 {
                Some(args[0])
            } else {
                match sum_collect(args, args.len() as int, ar, f) {
                    Some(c) => Some(SExpr::AddFlat { args: finish_sum(c) }),
                    None => None,
                }
            },
            SExpr::MulFlat { args } => if args.len() == 1 {
                Some(args[0])
            } else {
                match prod_collect(args, args.len() as int, ar, f) {
                    Some(c) => Some(SExpr::MulFlat { args: finish_prod(c) }),
                    None => None,
                }
            },
            SExpr::Function { token, input } => {
                let t = spec_reduce_inverse(token, *input);
                if t is NONE {
                    Some(e)
                } else {
                    Some(t)
                }
            },
            _ => Some(e),
        }
    }
}

/// The terms of a simplified flat sum: kept terms, then the constant unless it
/// reads zero, then one `VarSimple` per variable name.
pub open spec fn finish_sum(c: Collect) -> Seq<SExpr> {
    let with_num = if !is_zero_text(c.nums) {
        c.other.push(snum(c.nums))
    } else {
        c.other
    };
    with_num + c.vars.map_values(
        |kv: (Seq<char>, SExpr)|
            SExpr::VarSimple { token: stok(TokenType::Variable, kv.0), mult: Box::new(kv.1) },
    )
}

/// The factors of a simplified flat product: kept factors, then the constant
/// unless it reads one, then the combined factor of each variable name.
pub open spec fn finish_prod(c: Collect) -> Seq<SExpr> {
    let with_num = if c.nums != seq!['1'] {
        c.other.push(snum(c.nums))
    } else {
        c.other
    };
    with_num + c.vars.map_values(|kv: (Seq<char>, SExpr)| kv.1)
}

/// Collects the first `n` terms of a flat sum.
pub open spec fn sum_collect(args: Seq<SExpr>, n: int, ar: Arith, f: nat) -> Option<Collect>
    decreases f, 1 + n,
{
    if n <= 0 || n > args.len() {
        Some(Collect { nums: seq!['0'], other: Seq::empty(), vars: Seq::empty() })
    } else {
        match sum_collect(args, n - 1, ar, f) {
            None => None,
            Some(c) => {
                let a = args[n - 1];
                match a {
                    SExpr::Number(t) => Some(Collect { nums: ar(NumOp::Add, c.nums, t.value), ..c }),
                    SExpr::VarSimple { token, mult } => {
                        let k = find_key(c.vars, token.value);
                        if k < 0 {
                            Some(Collect { vars: c.vars.push((token.value, *mult)), ..c })
                        } else {
                            match simp(sadd(c.vars[k].1, *mult), ar, f) {
                                Some(m) => Some(Collect { vars: c.vars.update(k, (token.value, m)), ..c }),
                                None => None,
                            }
                        }
                    },
                    _ => match simp(a, ar, f) {
                        Some(s) => Some(Collect { other: c.other.push(s), ..c }),
                        None => None,
                    },
                }
            },
        }
    }
}

/// The name under which a flat product groups a factor: a variable, a power of
/// a variable, or a power of a `VarSimple`.
pub open spec fn prod_key(a: SExpr) -> Option<Seq<char>> {
    match a {
        SExpr::Variable(t) => Some(t.value),
        SExpr::VarSimple { token, .. } => Some(token.value),
        SExpr::Pow { base, .. } => match *base {
            SExpr::Variable(t) => Some(t.value),
            SExpr::VarSimple { token, .. } => Some(token.value),
            _ => None,
        },
        _ => None,
    }
}

/// Collects the first `n` factors of a flat product.
pub open spec fn prod_collect(args: Seq<SExpr>, n: int, ar: Arith, f: nat) -> Option<Collect>
    decreases f, 1 + n,
{
    if n <= 0 || n > args.len() {
        Some(Collect { nums: seq!['1'], other: Seq::empty(), vars: Seq::empty() })
    } else {
        match prod_collect(args, n - 1, ar, f) {
            None => None,
            Some(c) => {
                let a = args[n - 1];
                match a {
                    SExpr::Mul { left, right } => Some(
                        Collect { other: c.other.push(*left).push(*right), ..c },
                    ),
                    SExpr::Number(t) => Some(Collect { nums: ar(NumOp::Mul, c.nums, t.value), ..c }),
                    _ => match prod_key(a) {
                        None => Some(Collect { other: c.other.push(a), ..c }),
                        Some(key) => {
                            let k = find_key(c.vars, key);
                            if k < 0 {
                                Some(Collect { vars: c.vars.push((key, a)), ..c })
                            } else {
                                match simp(smul(c.vars[k].1, a), ar, f) {
                                    None => None,
                                    Some(m) => Some(
                                        Collect { vars: c.vars.update(k, (key, m)), ..c },
                                    ),
                                }
                            }
                        },
                    },
                }
            },
        }
    }
}

/// Simplification of `b ^ x`, both already simplified.
pub open spec fn simp_pow(b: SExpr, x: SExpr, ar: Arith, f: nat) -> Option<SExpr>
    decreases f, 1int,
{
    if b is Pow {
        match simp(smul(x, *b->Pow_exponent), ar, f) {
            Some(e) => simp(spow(*b->Pow_base, e), ar, f),
            None => None,
        }
    } else if b is Number && x is Number {
        Some(snum(ar(NumOp::Pow, b->Number_0.value, x->Number_0.value)))
    } else if b is Function {
        if b->Function_token.value == seq!['e', 'x', 'p'] {
            match simp(smul(*b->Function_input, x), ar, f) {
                Some(e) => Some(sfun(b->Function_token.value, e)),
                None => None,
            }
        } else {
            Some(spow(b, x))
        }
    } else if x is Number {
        if x->Number_0.value == seq!['0'] {
            Some(spec_one())
        } else if x->Number_0.value == seq!['1'] {
            Some(b)
        } else {
            Some(spow(b, x))
        }
    } else {
        Some(spow(b, x))
    }
}

/// Simplification of `e * base^exponent` (in either order) where the power
/// stands beside another factor `e`; `l * r` is the product as it stood.
pub open spec fn simp_mul_pow(
    l: SExpr,
    r: SExpr,
    base: SExpr,
    exponent: SExpr,
    e: SExpr,
    ar: Arith,
    f: nat,
) -> Option<SExpr>
    decreases f, 1int,
{
    if base == e {
        match simp(sadd(exponent, spec_one()), ar, f) {
            Some(x) => simp(spow(base, x), ar, f),
            None => None,
        }
    } else if e is VarSimple && base is Variable {
        if e->VarSimple_token.value != base->Variable_0.value {
            Some(smul(l, r))
        } else {
            match simp(sadd(exponent, spec_one()), ar, f) {
                Some(x) => wrap_some(
                    simp(spow(base, x), ar, f),
                    |p: SExpr| smul(*e->VarSimple_mult, p),
                ),
                None => None,
            }
        }
    } else {
        Some(smul(e, spow(base, exponent)))
    }
}

/// Simplification of `l * r`, both already simplified.
pub open spec fn simp_mul(l: SExpr, r: SExpr, ar: Arith, f: nat) -> Option<SExpr>
    decreases f, 2int,
{
    if l is Number && r is Number {
        Some(snum(ar(NumOp::Mul, l->Number_0.value, r->Number_0.value)))
    } else if l is Number && r is Variable {
        Some(SExpr::VarSimple { token: r->Variable_0, mult: Box::new(l) })
    } else if l is Variable && r is Number {
        Some(SExpr::VarSimple { token: l->Variable_0, mult: Box::new(r) })
    } else if l is Number && r is VarSimple {
        wrap_some(
            simp(smul(l, *r->VarSimple_mult), ar, f),
            |m: SExpr| SExpr::VarSimple { token: r->VarSimple_token, mult: Box::new(m) },
        )
    } else if l is VarSimple && r is Number {
        wrap_some(
            simp(smul(r, *l->VarSimple_mult), ar, f),
            |m: SExpr| SExpr::VarSimple { token: l->VarSimple_token, mult: Box::new(m) },
        )
    } else if l is Mul {
        simp(SExpr::MulFlat { args: seq![*l->Mul_left, *l->Mul_right, r] }, ar, f)
    } else if r is Mul {
        simp(SExpr::MulFlat { args: seq![*r->Mul_left, *r->Mul_right, l] }, ar, f)
    } else if l is MulFlat {
        simp(SExpr::MulFlat { args: l->MulFlat_args.push(r) }, ar, f)
    } else if r is MulFlat {
        simp(SExpr::MulFlat { args: r->MulFlat_args.push(l) }, ar, f)
    } else if l is Pow {
        simp_mul_pow(l, r, *l->Pow_base, *l->Pow_exponent, r, ar, f)
    } else if r is Pow {
        simp_mul_pow(l, r, *r->Pow_base, *r->Pow_exponent, l, ar, f)
    } else {
        Some(smul(l, r))
    }
}

/// Simplification of a sum `l + r` of a power and a product, in either order:
/// `p + k * p` (or `p + p * k`) becomes `(1 + k) * p`.
pub open spec fn simp_add_pow_mul(
    l: SExpr,
    r: SExpr,
    base: SExpr,
    exponent: SExpr,
    left2: SExpr,
    right2: SExpr,
    ar: Arith,
    f: nat,
) -> Option<SExpr>
    decreases f, 1int,
{
    if left2 is Pow {
        if !(base == *left2->Pow_base && exponent == *left2->Pow_exponent) {
            Some(sadd(l, r))
        } else {
            wrap_some(simp(sadd(spec_one(), right2), ar, f), |k: SExpr| smul(k, left2))
        }
    } else if right2 is Pow {
        if !(base == *right2->Pow_base && exponent == *right2->Pow_exponent) {
            Some(sadd(l, r))
        } else {
            wrap_some(simp(sadd(spec_one(), left2), ar, f), |k: SExpr| smul(k, right2))
        }
    } else {
        Some(sadd(l, r))
    }
}

/// Simplification of `l + r`, both already simplified.
pub open spec fn simp_add(l: SExpr, r: SExpr, ar: Arith, f: nat) -> Option<SExpr>
    decreases f, 2int,
{
    if l is Pow && r is Pow {
        if !(l->Pow_base == r->Pow_base && l->Pow_exponent == r->Pow_exponent) {
            Some(sadd(l, r))
        } else {
            Some(smul(snum(seq!['2']), r))
        }
    } else if l is Mul && r is Mul {
        if l->Mul_right == r->Mul_right && (*l->Mul_right) is Pow {
            simp(smul(sadd(*l->Mul_left, *r->Mul_left), *l->Mul_right), ar, f)
        } else {
            Some(sadd(l, r))
        }
    } else if l is Mul && r is Pow {
        simp_add_pow_mul(l, r, *r->Pow_base, *r->Pow_exponent, *l->Mul_left, *l->Mul_right, ar, f)
    } else if l is Pow && r is Mul {
        simp_add_pow_mul(l, r, *l->Pow_base, *l->Pow_exponent, *r->Mul_left, *r->Mul_right, ar, f)
    } else if l is Number && r is Number {
        Some(snum(ar(NumOp::Add, l->Number_0.value, r->Number_0.value)))
    } else if l is Add {
        simp(SExpr::AddFlat { args: seq![*l->Add_left, *l->Add_right, r] }, ar, f)
    } else if r is Add {
        simp(SExpr::AddFlat { args: seq![*r->Add_left, *r->Add_right, l] }, ar, f)
    } else if l is AddFlat {
        simp(SExpr::AddFlat { args: l->AddFlat_args.push(r) }, ar, f)
    } else if r is AddFlat {
        simp(SExpr::AddFlat { args: r->AddFlat_args.push(l) }, ar, f)
    } else {
        Some(sadd(l, r))
    }
}

} // verus!

verus! {

/// The optional model of an optional tree.
pub open spec fn opt_model(r: Option<Expression>) -> Option<SExpr> {
    match r {
        Some(x) => Some(x@),
        None => None,
    }
}

/// The depth bound under which the unbounded entry points run: recursion
/// deeper than this cannot complete on any machine.
pub open spec fn max_fuel() -> nat {
    u64::MAX as nat
}

/// What a collecting pass has gathered, as executable values.
pub open spec fn collect_view(
    nums: String,
    other: Seq<Box<Expression>>,
    vars: Seq<(String, Expression)>,
) -> Collect {
    Collect { nums: nums@, other: models(other), vars: vars_view(vars) }
}

pub open spec fn vars_view(vars: Seq<(String, Expression)>) -> Seq<(Seq<char>, SExpr)> {
    vars.map_values(|kv: (String, Expression)| (kv.0@, kv.1@))
}

/// The position of `key` among the names in `vars`.
fn find_var(vars: &Vec<(String, Expression)>, key: &String) -> (r: Option<usize>)
    ensures
        match r {
            Some(k) => find_key(vars_view(vars@), key@) == k as int && k < vars@.len(),
            None => find_key(vars_view(vars@), key@) == -1,
        },
{
    let ghost v = vars_view(vars@);
    let mut i: usize = 0;
    while i < vars.len()
        invariant
            i <= vars@.len(),
            v == vars_view(vars@),
            find_from(v, key@, 0) == find_from(v, key@, i as int),
        decreases vars@.len() - i,
    {
        if vars[i].0 == *key {
            return Some(i);
        }
        i = i + 1;
    }
    None
}

fn reads_zero(s: &String) -> (r: bool)
    ensures
        r == is_zero_text(s@),
{
    proof {
        reveal_strlit("0");
        reveal_strlit("-0");
        assert("0"@ =~= seq!['0']);
        assert("-0"@ =~= seq!['-', '0']);
    }
    text_is(s, "0") || text_is(s, "-0")
}

fn reads_one(s: &String) -> (r: bool)
    ensures
        r == (s@ == seq!['1']),
{
    proof {
        reveal_strlit("1");
        assert("1"@ =~= seq!['1']);
    }
    text_is(s, "1")
}

fn reads_exp(s: &String) -> (r: bool)
    ensures
        r == (s@ == seq!['e', 'x', 'p']),
{
    proof {
        reveal_strlit("exp");
        assert("exp"@ =~= seq!['e', 'x', 'p']);
    }
    text_is(s, "exp")
}

fn reads_ln(s: &String) -> (r: bool)
    ensures
        r == (s@ == seq!['l', 'n']),
{
    proof {
        reveal_strlit("ln");
        assert("ln"@ =~= seq!['l', 'n']);
    }
    text_is(s, "ln")
}

/// `ln(exp(x))` and `exp(ln(x))` give `x`; any other application gives `NONE`.
fn reduce_inverse(token: &Token, input: &Expression) -> (r: Expression)
    ensures
        r@ == spec_reduce_inverse(token@, input@),
{
    if reads_ln(&token.token_value) {
        if let Expression::Function { token: token2, input: input2 } = input {
            if reads_exp(&token2.token_value) {
                return (**input2).clone();
            }
        }
    } else if reads_exp(&token.token_value) {
        if let Expression::Function { token: token2, input: input2 } = input {
            if reads_ln(&token2.token_value) {
                return (**input2).clone();
            }
        }
    }
    Expression::NONE
}

fn boxed3(a: Expression, b: Expression, c: Expression) -> (r: Vec<Box<Expression>>)
    ensures
        models(r@) == seq![a@, b@, c@],
{
    let mut v: Vec<Box<Expression>> = Vec::new();
    v.push(Box::new(a));
    v.push(Box::new(b));
    v.push(Box::new(c));
    assert(models(v@) =~= seq![a@, b@, c@]);
    v
}

fn push_arg(args: &Vec<Box<Expression>>, e: Expression) -> (r: Vec<Box<Expression>>)
    ensures
        models(r@) == models(args@).push(e@),
{
    let mut v = clone_args(args);
    v.push(Box::new(e));
    assert(models(v@) =~= models(args@).push(e@));
    v
}







fn simplify_fuel<F: Fn(NumOp, &String, &String) -> String>(
    exp: Expression,
    arith: &F,
    fuel: u64,
) -> (r: Option<Expression>)
    requires
        well_behaved(*arith),
    ensures
        opt_model(r) == simp(exp@, arith_spec(*arith), fuel as nat),
    decreases fuel, 0int,
{
    if fuel == 0 {
        return None;
    }
    let f = fuel - 1;
    match exp {
        Expression::Pow { base, exponent } => {
            let b = simplify_fuel(*base, arith, f)?;
            let x = simplify_fuel(*exponent, arith, f)?;
            simplify_pow(b, x, arith, f)
        },
        Expression::Mul { left, right } => {
            let l = simplify_fuel(*left, arith, f)?;
            let r = simplify_fuel(*right, arith, f)?;
            simplify_mul(l, r, arith, f)
        },
        Expression::Add { left, right } => {
            let l = simplify_fuel(*left, arith, f)?;
            let r = simplify_fuel(*right, arith, f)?;
            simplify_add(l, r, arith, f)
        },
        Expression::AddFlat { args } => {
            proof {
                lemma_flat_models(args);
            }
            if args.len() == 1 {
                return Some((*args[0]).clone());
            }
            let (nums, other, vars) = sum_collect_exec(&args, arith, f)?;
            Some(finish_sum_exec(nums, other, vars))
        },
        Expression::MulFlat { args } => {
            proof {
                lemma_flat_models(args);
            }
            if args.len() == 1 {
                return Some((*args[0]).clone());
            }
            let (nums, other, vars) = prod_collect_exec(&args, arith, f)?;
            Some(finish_prod_exec(nums, other, vars))
        },
        Expression::Function { token, input } => {
            let t = reduce_inverse(&token, &input);
            if matches!(t, Expression::NONE) {
                Some(Expression::Function { token, input })
            } else {
                Some(t)
            }
        },
        e => Some(e),
    }
}

fn simplify_pow<F: Fn(NumOp, &String, &String) -> String>(
    b: Expression,
    x: Expression,
    arith: &F,
    f: u64,
) -> (r: Option<Expression>)
    requires
        well_behaved(*arith),
    ensures
        opt_model(r) == simp_pow(b@, x@, arith_spec(*arith), f as nat),
    decreases f, 1int,
{
    if let Expression::Pow { base: b2, exponent: x2 } = &b {
        let e = simplify_fuel(product(x, (**x2).clone()), arith, f)?;
        return simplify_fuel(power((**b2).clone(), e), arith, f);
    }
    if let (Expression::Number(t), Expression::Number(t2)) = (&b, &x) {
        return Some(number(apply_op(arith, NumOp::Pow, &t.token_value, &t2.token_value)));
    }
    if let Expression::Function { token, input } = &b {
        if reads_exp(&token.token_value) {
            let e = simplify_fuel(product((**input).clone(), x), arith, f)?;
            return Some(create_function(token.token_value.as_str(), e));
        }
        return Some(power(b, x));
    }
    if let Expression::Number(t) = &x {
        if reads_zero_digit(&t.token_value) {
            return Some(one());
        }
        if reads_one(&t.token_value) {
            return Some(b);
        }
    }
    Some(power(b, x))
}

fn reads_zero_digit(s: &String) -> (r: bool)
    ensures
        r == (s@ == seq!['0']),
{
    proof {
        reveal_strlit("0");
        assert("0"@ =~= seq!['0']);
    }
    text_is(s, "0")
}

fn simplify_mul_pow<F: Fn(NumOp, &String, &String) -> String>(
    l: Expression,
    r: Expression,
    base: Expression,
    exponent: Expression,
    e: Expression,
    arith: &F,
    f: u64,
) -> (res: Option<Expression>)
    requires
        well_behaved(*arith),
    ensures
        opt_model(res) == simp_mul_pow(l@, r@, base@, exponent@, e@, arith_spec(*arith), f as nat),
    decreases f, 1int,
{
    if expr_equal(&base, &e) {
        let x = simplify_fuel(sum(exponent, one()), arith, f)?;
        return simplify_fuel(power(base, x), arith, f);
    }
    if let (Expression::VarSimple { token, mult }, Expression::Variable(token2)) = (&e, &base) {
        if !(token.token_value == token2.token_value) {
            return Some(product(l, r));
        }
        let m = (**mult).clone();
        let x = simplify_fuel(sum(exponent, one()), arith, f)?;
        let p = simplify_fuel(power(base, x), arith, f)?;
        return Some(product(m, p));
    }
    Some(product(e, power(base, exponent)))
}

fn simplify_mul<F: Fn(NumOp, &String, &String) -> String>(
    l: Expression,
    r: Expression,
    arith: &F,
    f: u64,
) -> (res: Option<Expression>)
    requires
        well_behaved(*arith),
    ensures
        opt_model(res) == simp_mul(l@, r@, arith_spec(*arith), f as nat),
    decreases f, 2int,
{
    if let (Expression::Number(t), Expression::Number(t2)) = (&l, &r) {
        return Some(number(apply_op(arith, NumOp::Mul, &t.token_value, &t2.token_value)));
    }
    if let (Expression::Number(num), Expression::Variable(var)) = (&l, &r) {
        return Some(
            var_simple(var.clone(), Expression::Number(num.clone())),
        );
    }
    if let (Expression::Variable(var), Expression::Number(num)) = (&l, &r) {
        return Some(
            var_simple(var.clone(), Expression::Number(num.clone())),
        );
    }
    if let (Expression::Number(num), Expression::VarSimple { token, mult }) = (&l, &r) {
        let m = simplify_fuel(
            product(Expression::Number(num.clone()), (**mult).clone()),
            arith,
            f,
        )?;
        return Some(var_simple(token.clone(), m));
    }
    if let (Expression::VarSimple { token, mult }, Expression::Number(num)) = (&l, &r) {
        let m = simplify_fuel(
            product(Expression::Number(num.clone()), (**mult).clone()),
            arith,
            f,
        )?;
        return Some(var_simple(token.clone(), m));
    }
    if let Expression::Mul { left: a, right: c } = &l {
        let args = boxed3((**a).clone(), (**c).clone(), r);
        return simplify_fuel(flat_prod(args), arith, f);
    }
    if let Expression::Mul { left: a, right: c } = &r {
        let args = boxed3((**a).clone(), (**c).clone(), l);
        return simplify_fuel(flat_prod(args), arith, f);
    }
    if let Expression::MulFlat { args } = &l {
        proof {
            lemma_flat_models(*args);
        }
        let args2 = push_arg(args, r);
        return simplify_fuel(flat_prod(args2), arith, f);
    }
    if let Expression::MulFlat { args } = &r {
        proof {
            lemma_flat_models(*args);
        }
        let args2 = push_arg(args, l);
        return simplify_fuel(flat_prod(args2), arith, f);
    }
    if let Expression::Pow { base, exponent } = &l {
        let b = (**base).clone();
        let x = (**exponent).clone();
        let e = r.clone();
        return simplify_mul_pow(l, r, b, x, e, arith, f);
    }
    if let Expression::Pow { base, exponent } = &r {
        let b = (**base).clone();
        let x = (**exponent).clone();
        let e = l.clone();
        return simplify_mul_pow(l, r, b, x, e, arith, f);
    }
    Some(product(l, r))
}

fn simplify_add_pow_mul<F: Fn(NumOp, &String, &String) -> String>(
    l: Expression,
    r: Expression,
    base: Expression,
    exponent: Expression,
    left2: Expression,
    right2: Expression,
    arith: &F,
    f: u64,
) -> (res: Option<Expression>)
    requires
        well_behaved(*arith),
    ensures
        opt_model(res) == simp_add_pow_mul(
            l@,
            r@,
            base@,
            exponent@,
            left2@,
            right2@,
            arith_spec(*arith),
            f as nat,
        ),
    decreases f, 1int,
{
    if let Expression::Pow { base: base2, exponent: exponent2 } = &left2 {
        if !(expr_equal(&base, base2) && expr_equal(&exponent, exponent2)) {
            return Some(sum(l, r));
        }
        let k = simplify_fuel(sum(one(), right2), arith, f)?;
        return Some(product(k, left2));
    }
    if let Expression::Pow { base: base2, exponent: exponent2 } = &right2 {
        if !(expr_equal(&base, base2) && expr_equal(&exponent, exponent2)) {
            return Some(sum(l, r));
        }
        let k = simplify_fuel(sum(one(), left2), arith, f)?;
        return Some(product(k, right2));
    }
    Some(sum(l, r))
}

fn two() -> (r: Expression)
    ensures
        r@ == snum(seq!['2']),
{
    let s = String::from_str("2");
    proof {
        reveal_strlit("2");
        assert(s@ =~= seq!['2']);
    }
    number(s)
}

fn simplify_add<F: Fn(NumOp, &String, &String) -> String>(
    l: Expression,
    r: Expression,
    arith: &F,
    f: u64,
) -> (res: Option<Expression>)
    requires
        well_behaved(*arith),
    ensures
        opt_model(res) == simp_add(l@, r@, arith_spec(*arith), f as nat),
    decreases f, 2int,
{
    if let (Expression::Pow { base: b1, exponent: e1 }, Expression::Pow { base: b2, exponent: e2 }) = (
        &l,
        &r,
    ) {
        if !(expr_equal(b1, b2) && expr_equal(e1, e2)) {
            return Some(sum(l, r));
        }
        return Some(product(two(), r));
    }
    if let (Expression::Mul { left: a, right: c }, Expression::Mul { left: a2, right: c2 }) = (
        &l,
        &r,
    ) {
        if expr_equal(c, c2) && matches!(**c, Expression::Pow { .. }) {
            let s = sum((**a).clone(), (**a2).clone());
            return simplify_fuel(product(s, (**c).clone()), arith, f);
        }
        return Some(sum(l, r));
    }
    if let (Expression::Mul { left: left2, right: right2 }, Expression::Pow { base, exponent }) = (
        &l,
        &r,
    ) {
        let (b, x, l2, r2) = (
            (**base).clone(),
            (**exponent).clone(),
            (**left2).clone(),
            (**right2).clone(),
        );
        return simplify_add_pow_mul(l, r, b, x, l2, r2, arith, f);
    }
    if let (Expression::Pow { base, exponent }, Expression::Mul { left: left2, right: right2 }) = (
        &l,
        &r,
    ) {
        let (b, x, l2, r2) = (
            (**base).clone(),
            (**exponent).clone(),
            (**left2).clone(),
            (**right2).clone(),
        );
        return simplify_add_pow_mul(l, r, b, x, l2, r2, arith, f);
    }
    if let (Expression::Number(t), Expression::Number(t2)) = (&l, &r) {
        return Some(number(apply_op(arith, NumOp::Add, &t.token_value, &t2.token_value)));
    }
    if let Expression::Add { left: a, right: c } = &l {
        let args = boxed3((**a).clone(), (**c).clone(), r);
        return simplify_fuel(flat_sum(args), arith, f);
    }
    if let Expression::Add { left: a, right: c } = &r {
        let args = boxed3((**a).clone(), (**c).clone(), l);
        return simplify_fuel(flat_sum(args), arith, f);
    }
    if let Expression::AddFlat { args } = &l {
        proof {
            lemma_flat_models(*args);
        }
        let args2 = push_arg(args, r);
        return simplify_fuel(flat_sum(args2), arith, f);
    }
    if let Expression::AddFlat { args } = &r {
        proof {
            lemma_flat_models(*args);
        }
        let args2 = push_arg(args, l);
        return simplify_fuel(flat_sum(args2), arith, f);
    }
    Some(sum(l, r))
}


proof fn lemma_sum_none(args: Seq<SExpr>, n: int, m: int, ar: Arith, f: nat)
    requires
        0 <= n <= m <= args.len(),
        sum_collect(args, n, ar, f) is None,
    ensures
        sum_collect(args, m, ar, f) is None,
    decreases m - n,
{
    if n < m {
        lemma_sum_none(args, n, m - 1, ar, f);
    }
}

proof fn lemma_prod_none(args: Seq<SExpr>, n: int, m: int, ar: Arith, f: nat)
    requires
        0 <= n <= m <= args.len(),
        prod_collect(args, n, ar, f) is None,
    ensures
        prod_collect(args, m, ar, f) is None,
    decreases m - n,
{
    if n < m {
        lemma_prod_none(args, n, m - 1, ar, f);
    }
}

fn sum_collect_exec<F: Fn(NumOp, &String, &String) -> String>(
    args: &Vec<Box<Expression>>,
    arith: &F,
    f: u64,
) -> (r: Option<(String, Vec<Box<Expression>>, Vec<(String, Expression)>)>)
    requires
        well_behaved(*arith),
    ensures
        match r {
            Some(t) => sum_collect(models(args@), args@.len() as int, arith_spec(*arith), f as nat)
                == Some(collect_view(t.0, t.1@, t.2@)),
            None => sum_collect(
                models(args@),
                args@.len() as int,
                arith_spec(*arith),
                f as nat,
            ) is None,
        },
    decreases f, 1int,
{
    let ghost ar = arith_spec(*arith);
    let ghost ms = models(args@);
    let mut nums = String::from_str("0");
    proof {
        reveal_strlit("0");
        assert(nums@ =~= seq!['0']);
    }
    let mut other: Vec<Box<Expression>> = Vec::new();
    let mut vars: Vec<(String, Expression)> = Vec::new();
    proof {
        assert(models(other@) =~= Seq::<SExpr>::empty());
        assert(vars_view(vars@) =~= Seq::<(Seq<char>, SExpr)>::empty());
    }
    let mut i: usize = 0;
    while i < args.len()
        invariant
            well_behaved(*arith),
            ar == arith_spec(*arith),
            ms == models(args@),
            i <= args@.len(),
            sum_collect(ms, i as int, ar, f as nat) == Some(collect_view(nums, other@, vars@)),
        decreases args@.len() - i,
    {
        let a: &Expression = &*args[i];
        assert(ms[i as int] == a@);
        match a {
            Expression::Number(t) => {
                nums = apply_op(arith, NumOp::Add, &nums, &t.token_value);
            },
            Expression::VarSimple { token, mult } => {
                match find_var(&vars, &token.token_value) {
                    None => {
                        let ghost old_vars = vars@;
                        vars.push((token.token_value.clone(), (**mult).clone()));
                        assert(vars_view(vars@) =~= vars_view(old_vars).push(
                            (token.token_value@, mult@),
                        ));
                    },
                    Some(k) => {
                        let cur = vars[k].1.clone();
                        let m = match simplify_fuel(sum(cur, (**mult).clone()), arith, f) {
                            Some(m) => m,
                            None => {
                                proof {
                                    lemma_sum_none(ms, i + 1, args@.len() as int, ar, f as nat);
                                }
                                return None;
                            },
                        };
                        let ghost old_vars = vars@;
                        vars.set(k, (token.token_value.clone(), m));
                        assert(vars_view(vars@) =~= vars_view(old_vars).update(
                            k as int,
                            (token.token_value@, m@),
                        ));
                    },
                }
            },
            _ => {
                let s = match simplify_fuel(a.clone(), arith, f) {
                    Some(s) => s,
                    None => {
                        proof {
                            lemma_sum_none(ms, i + 1, args@.len() as int, ar, f as nat);
                        }
                        return None;
                    },
                };
                let ghost old_other = other@;
                other.push(Box::new(s));
                assert(models(other@) =~= models(old_other).push(s@));
            },
        }
        i = i + 1;
    }
    Some((nums, other, vars))
}

/// The name under which a flat product groups a factor.
fn prod_key_exec(a: &Expression) -> (r: Option<String>)
    ensures
        match r {
            Some(k) => prod_key(a@) == Some(k@),
            None => prod_key(a@) is None,
        },
{
    match a {
        Expression::Variable(t) => {
            let k = t.token_value.clone();
            assert(prod_key(a@) == Some(k@));
            Some(k)
        },
        Expression::VarSimple { token, .. } => {
            let k = token.token_value.clone();
            assert(prod_key(a@) == Some(k@));
            Some(k)
        },
        Expression::Pow { base, .. } => match &**base {
            Expression::Variable(t) => {
                let k = t.token_value.clone();
                assert((**base)@ == SExpr::Variable(t@));
                assert(prod_key(a@) == Some(k@));
                Some(k)
            },
            Expression::VarSimple { token, .. } => {
                let k = token.token_value.clone();
                assert((**base)@ is VarSimple);
                assert(prod_key(a@) == Some(k@));
                Some(k)
            },
            _ => {
                assert(!((**base)@ is VarSimple) && !((**base)@ is Variable));
                None
            },
        },
        _ => None,
    }
}

fn prod_collect_exec<F: Fn(NumOp, &String, &String) -> String>(
    args: &Vec<Box<Expression>>,
    arith: &F,
    f: u64,
) -> (r: Option<(String, Vec<Box<Expression>>, Vec<(String, Expression)>)>)
    requires
        well_behaved(*arith),
    ensures
        match r {
            Some(t) => prod_collect(models(args@), args@.len() as int, arith_spec(*arith), f as nat)
                == Some(collect_view(t.0, t.1@, t.2@)),
            None => prod_collect(
                models(args@),
                args@.len() as int,
                arith_spec(*arith),
                f as nat,
            ) is None,
        },
    decreases f, 1int,
{
    let ghost ar = arith_spec(*arith);
    let ghost ms = models(args@);
    let mut nums = String::from_str("1");
    proof {
        reveal_strlit("1");
        assert(nums@ =~= seq!['1']);
    }
    let mut other: Vec<Box<Expression>> = Vec::new();
    let mut vars: Vec<(String, Expression)> = Vec::new();
    proof {
        assert(models(other@) =~= Seq::<SExpr>::empty());
        assert(vars_view(vars@) =~= Seq::<(Seq<char>, SExpr)>::empty());
    }
    let mut i: usize = 0;
    while i < args.len()
        invariant
            well_behaved(*arith),
            ar == arith_spec(*arith),
            ms == models(args@),
            i <= args@.len(),
            prod_collect(ms, i as int, ar, f as nat) == Some(collect_view(nums, other@, vars@)),
        decreases args@.len() - i,
    {
        let a: &Expression = &*args[i];
        assert(ms[i as int] == a@);
        if let Expression::Mul { left, right } = a {
            let ghost old_other = other@;
            other.push(Box::new((**left).clone()));
            other.push(Box::new((**right).clone()));
            assert(models(other@) =~= models(old_other).push(left@).push(right@));
        } else if let Expression::Number(t) = a {
            nums = apply_op(arith, NumOp::Mul, &nums, &t.token_value);
        } else {
            match prod_key_exec(a) {
                None => {
                    let ghost old_other = other@;
                    other.push(Box::new(a.clone()));
                    assert(models(other@) =~= models(old_other).push(a@));
                },
                Some(key) => {
                    match find_var(&vars, &key) {
                        None => {
                            let ghost old_vars = vars@;
                            vars.push((key, a.clone()));
                            assert(vars_view(vars@) =~= vars_view(old_vars).push((key@, a@)));
                        },
                        Some(k) => {
                            let cur = vars[k].1.clone();
                            let m = match simplify_fuel(product(cur, a.clone()), arith, f) {
                                Some(m) => m,
                                None => {
                                    proof {
                                        lemma_prod_none(
                                            ms,
                                            i + 1,
                                            args@.len() as int,
                                            ar,
                                            f as nat,
                                        );
                                    }
                                    return None;
                                },
                            };
                            let ghost old_vars = vars@;
                            vars.set(k, (key, m));
                            assert(vars_view(vars@) =~= vars_view(old_vars).update(
                                k as int,
                                (key@, m@),
                            ));
                        },
                    }
                },
            }
        }
        i = i + 1;
    }
    Some((nums, other, vars))
}

fn finish_sum_exec(
    nums: String,
    other: Vec<Box<Expression>>,
    vars: Vec<(String, Expression)>,
) -> (r: Expression)
    ensures
        r@ == (SExpr::AddFlat { args: finish_sum(collect_view(nums, other@, vars@)) }),
{
    let ghost c = collect_view(nums, other@, vars@);
    let mut out = other;
    if !reads_zero(&nums) {
        let ghost old_out = out@;
        out.push(Box::new(number(nums)));
        assert(models(out@) =~= models(old_out).push(snum(c.nums)));
    }
    let ghost base = models(out@);
    let ghost vk = c.vars.map_values(
        |kv: (Seq<char>, SExpr)|
            SExpr::VarSimple { token: stok(TokenType::Variable, kv.0), mult: Box::new(kv.1) },
    );
    let mut i: usize = 0;
    while i < vars.len()
        invariant
            i <= vars@.len(),
            c.vars == vars_view(vars@),
            vk == c.vars.map_values(
                |kv: (Seq<char>, SExpr)|
                    SExpr::VarSimple { token: stok(TokenType::Variable, kv.0), mult: Box::new(kv.1) },
            ),
            models(out@) == base + vk.take(i as int),
        decreases vars@.len() - i,
    {
        let key = vars[i].0.clone();
        let val = vars[i].1.clone();
        let ghost old_out = out@;
        out.push(
            Box::new(
                Expression::VarSimple {
                    token: Token { token_type: TokenType::Variable, token_value: key },
                    mult: Box::new(val),
                },
            ),
        );
        assert(models(out@) =~= models(old_out).push(vk[i as int]));
        assert(vk.take(i + 1) =~= vk.take(i as int).push(vk[i as int]));
        i = i + 1;
    }
    assert(vk.take(vars@.len() as int) =~= vk);
    flat_sum(out)
}

fn finish_prod_exec(
    nums: String,
    other: Vec<Box<Expression>>,
    vars: Vec<(String, Expression)>,
) -> (r: Expression)
    ensures
        r@ == (SExpr::MulFlat { args: finish_prod(collect_view(nums, other@, vars@)) }),
{
    let ghost c = collect_view(nums, other@, vars@);
    let mut out = other;
    if !reads_one(&nums) {
        let ghost old_out = out@;
        out.push(Box::new(number(nums)));
        assert(models(out@) =~= models(old_out).push(snum(c.nums)));
    }
    let ghost base = models(out@);
    let ghost vk = c.vars.map_values(|kv: (Seq<char>, SExpr)| kv.1);
    let mut i: usize = 0;
    while i < vars.len()
        invariant
            i <= vars@.len(),
            c.vars == vars_view(vars@),
            vk == c.vars.map_values(|kv: (Seq<char>, SExpr)| kv.1),
            models(out@) == base + vk.take(i as int),
        decreases vars@.len() - i,
    {
        let val = vars[i].1.clone();
        let ghost old_out = out@;
        out.push(Box::new(val));
        assert(models(out@) =~= models(old_out).push(vk[i as int]));
        assert(vk.take(i + 1) =~= vk.take(i as int).push(vk[i as int]));
        i = i + 1;
    }
    assert(vk.take(vars@.len() as int) =~= vk);
    flat_prod(out)
}


/// The simplification of `exp` that `simplify` returns: `simp` at the
/// greatest depth an executable call can reach.
pub open spec fn simplified(e: SExpr, ar: Arith) -> Option<SExpr> {
    simp(e, ar, max_fuel())
}

/// Simplifies `exp`: folds constants with the numeric back end `arith`,
/// collects like terms of sums and products into flat sums and products,
/// merges powers of a common base, and cancels `ln(exp(x))` and `exp(ln(x))`.
/// Each rule is an equation (`3*x + ... + 4*x` becomes `7*x + ...`): where
/// no rule applies, a sum or product is kept as it stands.
///
/// The rewriting does not terminate on every tree (for instance `x*x*x`
/// loops between a flat and a binary product); `exp` must be one on which it
/// does.
pub fn simplify<F: Fn(NumOp, &String, &String) -> String>(exp: Expression, arith: &F) -> (r:
    Expression)
    requires
        well_behaved(*arith),
        simplified(exp@, arith_spec(*arith)) is Some,
    ensures
        simplified(exp@, arith_spec(*arith)) == Some(r@),
{
    match simplify_fuel(exp, arith, u64::MAX) {
        Some(r) => r,
        None => {
            proof {
                assert(false);
            }
            Expression::NONE
        },
    }
}

/// Simplifies `exp` as `simplify` does, within `fuel` nested rewriting steps;
/// `None` when these do not suffice.
pub fn try_simplify<F: Fn(NumOp, &String, &String) -> String>(
    exp: Expression,
    arith: &F,
    fuel: u64,
) -> (r: Option<Expression>)
    requires
        well_behaved(*arith),
    ensures
        opt_model(r) == simp(exp@, arith_spec(*arith), fuel as nat),
{
    simplify_fuel(exp, arith, fuel)
}

} // verus!

verus! {

/// More steps never change a simplification that succeeds: when `simp`
/// succeeds with `n` steps it gives the same tree with any `m >= n` steps.
pub proof fn lemma_simp_fuel(e: SExpr, ar: Arith, n: nat, m: nat)
    requires
        n <= m,
        simp(e, ar, n) is Some,
    ensures
        simp(e, ar, m) == simp(e, ar, n),
    decreases n, 0int,
{
    let f = (n - 1) as nat;
    let g = (m - 1) as nat;
    match e {
        SExpr::Pow { base, exponent } => {
            lemma_simp_fuel(*base, ar, f, g);
            lemma_simp_fuel(*exponent, ar, f, g);
            lemma_pow_fuel(
                simp(*base, ar, f).unwrap(),
                simp(*exponent, ar, f).unwrap(),
                ar,
                f,
                g,
            );
        },
        SExpr::Mul { left, right } => {
            lemma_simp_fuel(*left, ar, f, g);
            lemma_simp_fuel(*right, ar, f, g);
            lemma_mul_fuel(simp(*left, ar, f).unwrap(), simp(*right, ar, f).unwrap(), ar, f, g);
        },
        SExpr::Add { left, right } => {
            lemma_simp_fuel(*left, ar, f, g);
            lemma_simp_fuel(*right, ar, f, g);
            lemma_add_fuel(simp(*left, ar, f).unwrap(), simp(*right, ar, f).unwrap(), ar, f, g);
        },
        SExpr::AddFlat { args } => {
            if args.len() != 1 {
                lemma_sum_fuel(args, args.len() as int, ar, f, g);
            }
        },
        SExpr::MulFlat { args } => {
            if args.len() != 1 {
                lemma_prod_fuel(args, args.len() as int, ar, f, g);
            }
        },
        _ => {},
    }
}

proof fn lemma_pow_fuel(b: SExpr, x: SExpr, ar: Arith, f: nat, g: nat)
    requires
        f <= g,
        simp_pow(b, x, ar, f) is Some,
    ensures
        simp_pow(b, x, ar, g) == simp_pow(b, x, ar, f),
    decreases f, 1int,
{
    if b is Pow {
        lemma_simp_fuel(smul(x, *b->Pow_exponent), ar, f, g);
        let e = simp(smul(x, *b->Pow_exponent), ar, f).unwrap();
        lemma_simp_fuel(spow(*b->Pow_base, e), ar, f, g);
    } else if b is Number && x is Number {
    } else if b is Function {
        if b->Function_token.value == seq!['e', 'x', 'p'] {
            lemma_simp_fuel(smul(*b->Function_input, x), ar, f, g);
        }
    }
}

proof fn lemma_mul_pow_fuel(
    l: SExpr,
    r: SExpr,
    base: SExpr,
    exponent: SExpr,
    e: SExpr,
    ar: Arith,
    f: nat,
    g: nat,
)
    requires
        f <= g,
        simp_mul_pow(l, r, base, exponent, e, ar, f) is Some,
    ensures
        simp_mul_pow(l, r, base, exponent, e, ar, g) == simp_mul_pow(l, r, base, exponent, e, ar, f),
    decreases f, 1int,
{
    if base == e || (e is VarSimple && base is Variable && e->VarSimple_token.value
        == base->Variable_0.value) {
        lemma_simp_fuel(sadd(exponent, spec_one()), ar, f, g);
        let x = simp(sadd(exponent, spec_one()), ar, f).unwrap();
        lemma_simp_fuel(spow(base, x), ar, f, g);
    }
}

proof fn lemma_mul_fuel(l: SExpr, r: SExpr, ar: Arith, f: nat, g: nat)
    requires
        f <= g,
        simp_mul(l, r, ar, f) is Some,
    ensures
        simp_mul(l, r, ar, g) == simp_mul(l, r, ar, f),
    decreases f, 2int,
{
    if l is Number && r is Number {
    } else if l is Number && r is Variable {
    } else if l is Variable && r is Number {
    } else if l is Number && r is VarSimple {
        lemma_simp_fuel(smul(l, *r->VarSimple_mult), ar, f, g);
    } else if l is VarSimple && r is Number {
        lemma_simp_fuel(smul(r, *l->VarSimple_mult), ar, f, g);
    } else if l is Mul {
        lemma_simp_fuel(SExpr::MulFlat { args: seq![*l->Mul_left, *l->Mul_right, r] }, ar, f, g);
    } else if r is Mul {
        lemma_simp_fuel(SExpr::MulFlat { args: seq![*r->Mul_left, *r->Mul_right, l] }, ar, f, g);
    } else if l is MulFlat {
        lemma_simp_fuel(SExpr::MulFlat { args: l->MulFlat_args.push(r) }, ar, f, g);
    } else if r is MulFlat {
        lemma_simp_fuel(SExpr::MulFlat { args: r->MulFlat_args.push(l) }, ar, f, g);
    } else if l is Pow {
        lemma_mul_pow_fuel(l, r, *l->Pow_base, *l->Pow_exponent, r, ar, f, g);
    } else if r is Pow {
        lemma_mul_pow_fuel(l, r, *r->Pow_base, *r->Pow_exponent, l, ar, f, g);
    }
}

proof fn lemma_add_pow_mul_fuel(
    l: SExpr,
    r: SExpr,
    base: SExpr,
    exponent: SExpr,
    left2: SExpr,
    right2: SExpr,
    ar: Arith,
    f: nat,
    g: nat,
)
    requires
        f <= g,
        simp_add_pow_mul(l, r, base, exponent, left2, right2, ar, f) is Some,
    ensures
        simp_add_pow_mul(l, r, base, exponent, left2, right2, ar, g) == simp_add_pow_mul(
            l,
            r,
            base,
            exponent,
            left2,
            right2,
            ar,
            f,
        ),
    decreases f, 1int,
{
    if left2 is Pow {
        if base == *left2->Pow_base && exponent == *left2->Pow_exponent {
            lemma_simp_fuel(sadd(spec_one(), right2), ar, f, g);
        }
    } else if right2 is Pow {
        if base == *right2->Pow_base && exponent == *right2->Pow_exponent {
            lemma_simp_fuel(sadd(spec_one(), left2), ar, f, g);
        }
    }
}

proof fn lemma_add_fuel(l: SExpr, r: SExpr, ar: Arith, f: nat, g: nat)
    requires
        f <= g,
        simp_add(l, r, ar, f) is Some,
    ensures
        simp_add(l, r, ar, g) == simp_add(l, r, ar, f),
    decreases f, 2int,
{
    if l is Pow && r is Pow {
    } else if l is Mul && r is Mul {
        if l->Mul_right == r->Mul_right && (*l->Mul_right) is Pow {
            lemma_simp_fuel(smul(sadd(*l->Mul_left, *r->Mul_left), *l->Mul_right), ar, f, g);
        }
    } else if l is Mul && r is Pow {
        lemma_add_pow_mul_fuel(
            l,
            r,
            *r->Pow_base,
            *r->Pow_exponent,
            *l->Mul_left,
            *l->Mul_right,
            ar,
            f,
            g,
        );
    } else if l is Pow && r is Mul {
        lemma_add_pow_mul_fuel(
            l,
            r,
            *l->Pow_base,
            *l->Pow_exponent,
            *r->Mul_left,
            *r->Mul_right,
            ar,
            f,
            g,
        );
    } else if l is Number && r is Number {
    } else if l is Add {
        lemma_simp_fuel(SExpr::AddFlat { args: seq![*l->Add_left, *l->Add_right, r] }, ar, f, g);
    } else if r is Add {
        lemma_simp_fuel(SExpr::AddFlat { args: seq![*r->Add_left, *r->Add_right, l] }, ar, f, g);
    } else if l is AddFlat {
        lemma_simp_fuel(SExpr::AddFlat { args: l->AddFlat_args.push(r) }, ar, f, g);
    } else if r is AddFlat {
        lemma_simp_fuel(SExpr::AddFlat { args: r->AddFlat_args.push(l) }, ar, f, g);
    }
}

proof fn lemma_sum_fuel(args: Seq<SExpr>, k: int, ar: Arith, f: nat, g: nat)
    requires
        f <= g,
        sum_collect(args, k, ar, f) is Some,
    ensures
        sum_collect(args, k, ar, g) == sum_collect(args, k, ar, f),
    decreases f, 1 + k,
{
    if 0 < k <= args.len() {
        lemma_sum_fuel(args, k - 1, ar, f, g);
        let c = sum_collect(args, k - 1, ar, f).unwrap();
        let a = args[k - 1];
        match a {
            SExpr::Number(_) => {},
            SExpr::VarSimple { token, mult } => {
                let i = find_key(c.vars, token.value);
                if i >= 0 {
                    lemma_simp_fuel(sadd(c.vars[i].1, *mult), ar, f, g);
                }
            },
            _ => {
                lemma_simp_fuel(a, ar, f, g);
            },
        }
    }
}

proof fn lemma_prod_fuel(args: Seq<SExpr>, k: int, ar: Arith, f: nat, g: nat)
    requires
        f <= g,
        prod_collect(args, k, ar, f) is Some,
    ensures
        prod_collect(args, k, ar, g) == prod_collect(args, k, ar, f),
    decreases f, 1 + k,
{
    if 0 < k <= args.len() {
        lemma_prod_fuel(args, k - 1, ar, f, g);
        let c = prod_collect(args, k - 1, ar, f).unwrap();
        let a = args[k - 1];
        if !(a is Mul) && !(a is Number) && prod_key(a) is Some {
            let key = prod_key(a).unwrap();
            let i = find_key(c.vars, key);
            if i >= 0 {
                lemma_simp_fuel(smul(c.vars[i].1, a), ar, f, g);
            }
        }
    }
}

} // verus!

verus! {

/// Numbers, variables, variables with a coefficient, and `NONE` simplify to
/// themselves.
pub proof fn lemma_simp_atoms(e: SExpr, ar: Arith, n: nat)
    requires
        n >= 1,
        e is Number || e is Variable || e is VarSimple || e is NONE,
    ensures
        simp(e, ar, n) == Some(e),
{
}

/// Two numbers are folded into one by the numeric back end: their sum, their
/// product, and the first raised to the second.
pub proof fn lemma_simp_folds_numbers(a: SpecToken, b: SpecToken, ar: Arith, n: nat)
    requires
        n >= 2,
    ensures
        simp(sadd(SExpr::Number(a), SExpr::Number(b)), ar, n) == Some(
            snum(ar(NumOp::Add, a.value, b.value)),
        ),
        simp(smul(SExpr::Number(a), SExpr::Number(b)), ar, n) == Some(
            snum(ar(NumOp::Mul, a.value, b.value)),
        ),
        simp(spow(SExpr::Number(a), SExpr::Number(b)), ar, n) == Some(
            snum(ar(NumOp::Pow, a.value, b.value)),
        ),
{
    let f = (n - 1) as nat;
    lemma_simp_atoms(SExpr::Number(a), ar, f);
    lemma_simp_atoms(SExpr::Number(b), ar, f);
    assert(simp_add(SExpr::Number(a), SExpr::Number(b), ar, f) == Some(
        snum(ar(NumOp::Add, a.value, b.value)),
    ));
    assert(simp_mul(SExpr::Number(a), SExpr::Number(b), ar, f) == Some(
        snum(ar(NumOp::Mul, a.value, b.value)),
    ));
    assert(simp_pow(SExpr::Number(a), SExpr::Number(b), ar, f) == Some(
        snum(ar(NumOp::Pow, a.value, b.value)),
    ));
}

/// `ln(exp(x))` and `exp(ln(x))` simplify to `x`.
pub proof fn lemma_simp_cancels_inverse(x: SExpr, ar: Arith, n: nat)
    requires
        n >= 1,
        x != SExpr::NONE,
    ensures
        simp(sfun("ln"@, sfun("exp"@, x)), ar, n) == Some(x),
        simp(sfun("exp"@, sfun("ln"@, x)), ar, n) == Some(x),
{
    reveal_strlit("ln");
    reveal_strlit("exp");
    assert("ln"@ =~= seq!['l', 'n']);
    assert("exp"@ =~= seq!['e', 'x', 'p']);
}

/// Exponents `0` and `1` are dropped: for any base whose simplification is not
/// a power, a number or a function application, `b^0` simplifies to `1` and
/// `b^1` to the simplified base.
pub proof fn lemma_simp_trivial_powers(b: SExpr, ar: Arith, n: nat)
    requires
        simp(b, ar, n) is Some,
        !(simp(b, ar, n).unwrap() is Pow),
        !(simp(b, ar, n).unwrap() is Number),
        !(simp(b, ar, n).unwrap() is Function),
    ensures
        simp(spow(b, snum(seq!['0'])), ar, n + 1) == Some(spec_one()),
        simp(spow(b, snum(seq!['1'])), ar, n + 1) == simp(b, ar, n),
{
    let sb = simp(b, ar, n).unwrap();
    lemma_simp_atoms(snum(seq!['0']), ar, n);
    lemma_simp_atoms(snum(seq!['1']), ar, n);
    assert(simp_pow(sb, snum(seq!['0']), ar, n) == Some(spec_one()));
    assert(seq!['1'] != seq!['0']) by {
        assert(seq!['1'][0] != seq!['0'][0]);
    }
    assert(simp_pow(sb, snum(seq!['1']), ar, n) == Some(sb));
}

/// Like terms of a flat sum are collected: `a*x + b*x` becomes the single term
/// `(a+b)*x`, the coefficients added by the numeric back end.
pub proof fn lemma_simp_collects_like_terms(
    x: SpecToken,
    y: SpecToken,
    a: SpecToken,
    b: SpecToken,
    ar: Arith,
    n: nat,
)
    requires
        n >= 3,
        x.value == y.value,
    ensures
        simp(
            SExpr::AddFlat {
                args: seq![
                    SExpr::VarSimple { token: x, mult: Box::new(SExpr::Number(a)) },
                    SExpr::VarSimple { token: y, mult: Box::new(SExpr::Number(b)) },
                ],
            },
            ar,
            n,
        ) == Some(
            SExpr::AddFlat {
                args: seq![
                    SExpr::VarSimple {
                        token: stok(TokenType::Variable, x.value),
                        mult: Box::new(snum(ar(NumOp::Add, a.value, b.value))),
                    },
                ],
            },
        ),
{
    let args = seq![
        SExpr::VarSimple { token: x, mult: Box::new(SExpr::Number(a)) },
        SExpr::VarSimple { token: y, mult: Box::new(SExpr::Number(b)) },
    ];
    let f = (n - 1) as nat;
    lemma_simp_folds_numbers(a, b, ar, f);
    let c0 = sum_collect(args, 0, ar, f).unwrap();
    assert(c0.vars == Seq::<(Seq<char>, SExpr)>::empty());
    assert(find_key(c0.vars, x.value) == -1);
    let c1 = sum_collect(args, 1, ar, f).unwrap();
    assert(c1.vars == seq![(x.value, SExpr::Number(a))]);
    assert(find_key(c1.vars, y.value) == 0);
    let c2 = sum_collect(args, 2, ar, f).unwrap();
    assert(c2.vars == seq![(x.value, snum(ar(NumOp::Add, a.value, b.value)))]);
    assert(c2.nums == seq!['0']);
    assert(c2.other == Seq::<SExpr>::empty());
    assert(finish_sum(c2) =~= seq![
        SExpr::VarSimple {
            token: stok(TokenType::Variable, x.value),
            mult: Box::new(snum(ar(NumOp::Add, a.value, b.value))),
        },
    ]);
}

/// No name occurs twice among the collected variables.
pub open spec fn distinct_keys(vars: Seq<(Seq<char>, SExpr)>) -> bool {
    forall|i: int, j: int| 0 <= i < j < vars.len() ==> vars[i].0 != vars[j].0
}

proof fn lemma_find_from(vars: Seq<(Seq<char>, SExpr)>, key: Seq<char>, i: int)
    requires
        0 <= i,
    ensures
        find_from(vars, key, i) < 0 ==> forall|j: int| i <= j < vars.len() ==> vars[j].0 != key,
        find_from(vars, key, i) >= 0 ==> i <= find_from(vars, key, i) < vars.len() && vars[find_from(
            vars,
            key,
            i,
        )].0 == key,
    decreases vars.len() - i,
{
    if i < vars.len() && vars[i].0 != key {
        lemma_find_from(vars, key, i + 1);
    }
}

proof fn lemma_add_key(vars: Seq<(Seq<char>, SExpr)>, key: Seq<char>, v: SExpr)
    requires
        distinct_keys(vars),
    ensures
        find_key(vars, key) < 0 ==> distinct_keys(vars.push((key, v))),
        find_key(vars, key) >= 0 ==> distinct_keys(vars.update(find_key(vars, key), (key, v))),
{
    lemma_find_from(vars, key, 0);
}

/// Collecting the terms of a flat sum keeps one entry per variable name: no
/// name occurs twice among the collected variables.
pub proof fn lemma_sum_collect_distinct(args: Seq<SExpr>, n: int, ar: Arith, f: nat)
    requires
        sum_collect(args, n, ar, f) is Some,
    ensures
        distinct_keys(sum_collect(args, n, ar, f).unwrap().vars),
    decreases n,
{
    if 0 < n <= args.len() {
        lemma_sum_collect_distinct(args, n - 1, ar, f);
        let c = sum_collect(args, n - 1, ar, f).unwrap();
        if let SExpr::VarSimple { token, mult } = args[n - 1] {
            lemma_add_key(c.vars, token.value, *mult);
            let k = find_key(c.vars, token.value);
            if k >= 0 {
                lemma_add_key(c.vars, token.value, simp(sadd(c.vars[k].1, *mult), ar, f).unwrap());
            }
        }
    }
}

/// Collecting the factors of a flat product keeps one entry per variable
/// name: no name occurs twice among the collected variables.
pub proof fn lemma_prod_collect_distinct(args: Seq<SExpr>, n: int, ar: Arith, f: nat)
    requires
        prod_collect(args, n, ar, f) is Some,
    ensures
        distinct_keys(prod_collect(args, n, ar, f).unwrap().vars),
    decreases n,
{
    if 0 < n <= args.len() {
        lemma_prod_collect_distinct(args, n - 1, ar, f);
        let c = prod_collect(args, n - 1, ar, f).unwrap();
        let a = args[n - 1];
        if !(a is Mul) && !(a is Number) && prod_key(a) is Some {
            let key = prod_key(a).unwrap();
            lemma_add_key(c.vars, key, a);
            let k = find_key(c.vars, key);
            if k >= 0 {
                lemma_add_key(c.vars, key, simp(smul(c.vars[k].1, a), ar, f).unwrap());
            }
        }
    }
}

/// The sum of two equal powers is twice the power: whenever `p` simplifies to
/// a power `q`, the sum `p + p` simplifies to the product `2 * q`.
pub proof fn lemma_simp_doubles_power(p: SExpr, ar: Arith, n: nat)
    requires
        simp(p, ar, n) is Some,
        simp(p, ar, n).unwrap() is Pow,
    ensures
        simp(sadd(p, p), ar, n + 1) == Some(smul(snum(seq!['2']), simp(p, ar, n).unwrap())),
{
    let q = simp(p, ar, n).unwrap();
    assert(simp_add(q, q, ar, n) == Some(smul(snum(seq!['2']), q)));
}

/// A number times a variable, in either order, becomes a variable with that
/// number as its coefficient.
pub proof fn lemma_simp_coefficient(t: SpecToken, v: SpecToken, ar: Arith, n: nat)
    requires
        n >= 1,
    ensures
        simp(smul(SExpr::Number(t), SExpr::Variable(v)), ar, n + 1) == Some(
            SExpr::VarSimple { token: v, mult: Box::new(SExpr::Number(t)) },
        ),
        simp(smul(SExpr::Variable(v), SExpr::Number(t)), ar, n + 1) == Some(
            SExpr::VarSimple { token: v, mult: Box::new(SExpr::Number(t)) },
        ),
{
    lemma_simp_atoms(SExpr::Number(t), ar, n);
    lemma_simp_atoms(SExpr::Variable(v), ar, n);
    let vs = SExpr::VarSimple { token: v, mult: Box::new(SExpr::Number(t)) };
    assert(simp_mul(SExpr::Number(t), SExpr::Variable(v), ar, n) == Some(vs));
    assert(simp_mul(SExpr::Variable(v), SExpr::Number(t), ar, n) == Some(vs));
}

/// A power of a power multiplies the exponents: when `b` simplifies to
/// `c^e` and `x` to `y`, then `b^x` simplifies to `c^(y*e)`, the product of
/// the exponents simplified first.
pub proof fn lemma_simp_power_of_power(b: SExpr, x: SExpr, ar: Arith, n: nat)
    requires
        simp(b, ar, n) is Some,
        simp(b, ar, n).unwrap() is Pow,
        simp(x, ar, n) is Some,
    ensures
        simp(spow(b, x), ar, n + 1) == match simp(
            smul(simp(x, ar, n).unwrap(), *simp(b, ar, n).unwrap()->Pow_exponent),
            ar,
            n,
        ) {
            Some(k) => simp(spow(*simp(b, ar, n).unwrap()->Pow_base, k), ar, n),
            None => None,
        },
{
    let bq = simp(b, ar, n).unwrap();
    let xq = simp(x, ar, n).unwrap();
    assert(simp(spow(b, x), ar, n + 1) == simp_pow(bq, xq, ar, n));
}

/// A power of `exp(u)` moves into the exponential: when `b` simplifies to
/// `exp(u)` and `x` to `y`, then `b^x` simplifies to `exp(u*y)`, the product
/// simplified.
pub proof fn lemma_simp_exp_power(b: SExpr, x: SExpr, ar: Arith, n: nat)
    requires
        simp(b, ar, n) is Some,
        simp(b, ar, n).unwrap() is Function,
        simp(b, ar, n).unwrap()->Function_token.value == seq!['e', 'x', 'p'],
        simp(x, ar, n) is Some,
    ensures
        simp(spow(b, x), ar, n + 1) == match simp(
            smul(*simp(b, ar, n).unwrap()->Function_input, simp(x, ar, n).unwrap()),
            ar,
            n,
        ) {
            Some(k) => Some(sfun(seq!['e', 'x', 'p'], k)),
            None => None,
        },
{
    let bq = simp(b, ar, n).unwrap();
    let xq = simp(x, ar, n).unwrap();
    assert(simp(spow(b, x), ar, n + 1) == simp_pow(bq, xq, ar, n));
}

/// Like products of one power are collected: when `l` simplifies to `a*p` and
/// `r` to `c*p` for one power `p`, then `l + r` simplifies as `(a+c)*p` does.
pub proof fn lemma_simp_common_power(l: SExpr, r: SExpr, ar: Arith, n: nat)
    requires
        simp(l, ar, n) is Some,
        simp(r, ar, n) is Some,
        simp(l, ar, n).unwrap() is Mul,
        simp(r, ar, n).unwrap() is Mul,
        simp(l, ar, n).unwrap()->Mul_right == simp(r, ar, n).unwrap()->Mul_right,
        (*simp(l, ar, n).unwrap()->Mul_right) is Pow,
    ensures
        simp(sadd(l, r), ar, n + 1) == simp(
            smul(
                sadd(*simp(l, ar, n).unwrap()->Mul_left, *simp(r, ar, n).unwrap()->Mul_left),
                *simp(l, ar, n).unwrap()->Mul_right,
            ),
            ar,
            n,
        ),
{
    let a = simp(l, ar, n).unwrap();
    let c = simp(r, ar, n).unwrap();
    assert(simp(sadd(l, r), ar, n + 1) == simp_add(a, c, ar, n));
}

/// A sum of two products is kept as it stands unless they share a power as
/// their right factor; a sum of two powers is kept unless they are equal.
pub proof fn lemma_simp_keeps_unlike_sums(l: SExpr, r: SExpr, ar: Arith, n: nat)
    requires
        simp(l, ar, n) is Some,
        simp(r, ar, n) is Some,
    ensures
        ({
            let a = simp(l, ar, n).unwrap();
            let c = simp(r, ar, n).unwrap();
            (a is Mul && c is Mul && !(a->Mul_right == c->Mul_right && (*a->Mul_right) is Pow))
                || (a is Pow && c is Pow && a != c) ==> simp(sadd(l, r), ar, n + 1) == Some(sadd(a, c))
        }),
{
    let a = simp(l, ar, n).unwrap();
    let c = simp(r, ar, n).unwrap();
    assert(simp(sadd(l, r), ar, n + 1) == simp_add(a, c, ar, n));
    if a is Pow && c is Pow && a != c {
        assert(!(a->Pow_base == c->Pow_base && a->Pow_exponent == c->Pow_exponent));
    }
}

/// A flat sum or product of one term is that term, as it stands.
pub proof fn lemma_simp_single_term(a: SExpr, ar: Arith, n: nat)
    ensures
        simp(SExpr::AddFlat { args: seq![a] }, ar, n + 1) == Some(a),
        simp(SExpr::MulFlat { args: seq![a] }, ar, n + 1) == Some(a),
{
}

/// The numbers of a flat sum are added up, starting from `0`, and the total
/// is dropped when it reads zero; the numbers of a flat product are
/// multiplied, starting from `1`, and the total is dropped when it reads one.
pub proof fn lemma_simp_flat_numbers(a: SpecToken, b: SpecToken, ar: Arith, n: nat)
    ensures
        ({
            let s = ar(NumOp::Add, ar(NumOp::Add, seq!['0'], a.value), b.value);
            simp(SExpr::AddFlat { args: seq![SExpr::Number(a), SExpr::Number(b)] }, ar, n + 1)
                == Some(
                SExpr::AddFlat {
                    args: if is_zero_text(s) {
                        Seq::empty()
                    } else {
                        seq![snum(s)]
                    },
                },
            )
        }),
        ({
            let p = ar(NumOp::Mul, ar(NumOp::Mul, seq!['1'], a.value), b.value);
            simp(SExpr::MulFlat { args: seq![SExpr::Number(a), SExpr::Number(b)] }, ar, n + 1)
                == Some(
                SExpr::MulFlat {
                    args: if p == seq!['1'] {
                        Seq::empty()
                    } else {
                        seq![snum(p)]
                    },
                },
            )
        }),
{
    let args = seq![SExpr::Number(a), SExpr::Number(b)];
    let s = ar(NumOp::Add, ar(NumOp::Add, seq!['0'], a.value), b.value);
    let p = ar(NumOp::Mul, ar(NumOp::Mul, seq!['1'], a.value), b.value);
    let empty_vars = Seq::<(Seq<char>, SExpr)>::empty();
    assert(args[0] == SExpr::Number(a) && args[1] == SExpr::Number(b));
    assert(sum_collect(args, 0, ar, n) == Some(
        Collect { nums: seq!['0'], other: Seq::empty(), vars: empty_vars },
    ));
    assert(prod_collect(args, 0, ar, n) == Some(
        Collect { nums: seq!['1'], other: Seq::empty(), vars: empty_vars },
    ));
    assert(sum_collect(args, 1, ar, n) == Some(
        Collect { nums: ar(NumOp::Add, seq!['0'], a.value), other: Seq::empty(), vars: empty_vars },
    ));
    assert(sum_collect(args, 2, ar, n) == Some(
        Collect { nums: s, other: Seq::empty(), vars: empty_vars },
    ));
    let cs = Collect { nums: s, other: Seq::<SExpr>::empty(), vars: empty_vars };
    if is_zero_text(s) {
        assert(finish_sum(cs) =~= Seq::<SExpr>::empty());
    } else {
        assert(finish_sum(cs) =~= seq![snum(s)]);
    }
    assert(prod_collect(args, 1, ar, n) == Some(
        Collect { nums: ar(NumOp::Mul, seq!['1'], a.value), other: Seq::empty(), vars: empty_vars },
    ));
    assert(prod_collect(args, 2, ar, n) == Some(
        Collect { nums: p, other: Seq::empty(), vars: empty_vars },
    ));
    let cp = Collect { nums: p, other: Seq::<SExpr>::empty(), vars: empty_vars };
    if p == seq!['1'] {
        assert(finish_prod(cp) =~= Seq::<SExpr>::empty());
    } else {
        assert(finish_prod(cp) =~= seq![snum(p)]);
    }
}

} // verus!
