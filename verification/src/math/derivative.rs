use vstd::prelude::*;

use crate::math::number::{apply_op, arith_spec, well_behaved, NumOp};
use crate::math::simplify::{
    Arith, max_fuel, opt_model, simp, try_simplify, lemma_simp_fuel, lemma_simp_folds_numbers,
};
use crate::preprocess::token::{SpecToken, Token, TokenType};
use crate::preprocess::types::{
    Expression, SExpr, models, snum, stok, smul, sadd, spow, sfun, spec_one, spec_zero, spec_negative_one,
    lemma_flat_models, one, zero, negative_one, number, create_function, text_is, flat_sum, product,
    sum, power,
};

verus! {

/// A term whose derivative is taken by rule rather than treated as a constant
/// factor: a power, a function application or a variable.
pub open spec fn spec_is_der(e: SExpr) -> bool {
    e is Pow || e is Function || e is Variable || e is VarSimple
}

/// A variable, bare or with a coefficient.
pub open spec fn spec_is_variable(e: SExpr) -> bool {
    e is Variable || e is VarSimple
}

/// The constant factors (numbers) among the first `n` factors of a product,
/// and the other factors, each in their order.
pub open spec fn split_numbers(args: Seq<SExpr>, n: int) -> (Seq<SExpr>, Seq<SExpr>)
    decreases n,
{
    if n <= 0 || n > args.len() {
        (Seq::empty(), Seq::empty())
    } else {
        let (nums, others) = split_numbers(args, n - 1);
        if args[n - 1] is Number {
            (nums.push(args[n - 1]), others)
        } else {
            (nums, others.push(args[n - 1]))
        }
    }
}

/// The text of the product of the first `n` numbers in `nums`, starting from 1.
pub open spec fn number_product(nums: Seq<SExpr>, n: int, ar: Arith) -> Seq<char>
    decreases n,
{
    if n <= 0 || n > nums.len() {
        seq!['1']
    } else {
        ar(NumOp::Mul, number_product(nums, n - 1, ar), nums[n - 1]->Number_0.value)
    }
}

/// The derivative of `e` with respect to its variables, computed with number
/// arithmetic `ar` and at most `fuel` nested steps; `None` when these do not
/// suffice.
pub open spec fn deriv(e: SExpr, ar: Arith, fuel: nat) -> Option<SExpr>
    decreases fuel, 0int,
{
    if fuel == 0 {
        None
    } else {
        let f = (fuel - 1) as nat;
        match e {
            SExpr::Function { token, input } => deriv_function(token.value, *input, e, ar, f),
            SExpr::Number(_) => Some(spec_zero()),
            SExpr::Variable(_) => Some(spec_one()),
            SExpr::VarSimple { mult, .. } => Some(*mult),
            SExpr::Mul { left, right } => {
                let l = *left;
                let r = *right;
                if !(spec_is_der(l) && spec_is_der(r)) && spec_is_der(l) {
                    match deriv(l, ar, f) {
                        Some(dl) => simp(smul(dl, r), ar, f),
                        None => None,
                    }
                } else if !(spec_is_der(l) && spec_is_der(r)) && spec_is_der(r) {
                    match deriv(r, ar, f) {
                        Some(dr) => simp(smul(l, dr), ar, f),
                        None => None,
                    }
                } else {
                    match deriv(r, ar, f) {
                        Some(dr) => match deriv(l, ar, f) {
                            Some(dl) => Some(sadd(smul(l, dr), smul(dl, r))),
                            None => None,
                        },
                        None => None,
                    }
                }
            },
            SExpr::Pow { base, exponent } => {
                if (*base) is Variable {
                    if !spec_is_variable(*exponent) {
                        match simp(sadd(*exponent, spec_negative_one()), ar, f) {
                            Some(x) => simp(smul(*exponent, spow(*base, x)), ar, f),
                            None => None,
                        }
                    } else {
                        deriv(sfun("exp"@, smul(*exponent, sfun("ln"@, *base))), ar, f)
                    }
                } else {
                    Some(SExpr::NONE)
                }
            },
            SExpr::AddFlat { args } => match deriv_all(args, args.len() as int, ar, f) {
                Some(ds) => Some(SExpr::AddFlat { args: ds }),
                None => None,
            },
            SExpr::Add { left, right } => match deriv(*left, ar, f) {
                Some(dl) => match deriv(*right, ar, f) {
                    Some(dr) => Some(sadd(dl, dr)),
                    None => None,
                },
                None => None,
            },
            SExpr::MulFlat { args } => {
                let (nums, exprs) = split_numbers(args, args.len() as int);
                match deriv_terms(exprs, exprs.len() as int, ar, f) {
                    None => None,
                    Some(sum) => if nums.len() > 0 {
                        simp(
                            smul(
                                snum(number_product(nums, nums.len() as int, ar)),
                                SExpr::AddFlat { args: sum },
                            ),
                            ar,
                            f,
                        )
                    } else {
                        Some(SExpr::AddFlat { args: sum })
                    },
                }
            },
            SExpr::NONE => Some(SExpr::NONE),
        }
    }
}

/// The derivative of an application `e` of the function `name` to `input`
/// (chain rule), or `NONE` for a function without a rule.
pub open spec fn deriv_function(name: Seq<char>, input: SExpr, e: SExpr, ar: Arith, f: nat) -> Option<
    SExpr,
>
    decreases f, 1int,
{
    if name == "exp"@ || name == "ln"@ || name == "cos"@ || name == "sin"@ || name == "tan"@ {
        match deriv(input, ar, f) {
            None => None,
            Some(d) => Some(
                smul(
                    d,
                    if name == "exp"@ {
                        e
                    } else if name == "ln"@ {
                        spow(input, spec_negative_one())
                    } else if name == "cos"@ {
                        smul(spec_negative_one(), sfun("sin"@, input))
                    } else if name == "sin"@ {
                        sfun("cos"@, input)
                    } else {
                        spow(sfun("sec"@, input), snum("2"@))
                    },
                ),
            ),
        }
    } else {
        Some(SExpr::NONE)
    }
}

/// The derivatives of the first `n` terms of a sum.
pub open spec fn deriv_all(args: Seq<SExpr>, n: int, ar: Arith, f: nat) -> Option<Seq<SExpr>>
    decreases f, 1 + n,
{
    if n <= 0 || n > args.len() {
        Some(Seq::empty())
    } else {
        match deriv_all(args, n - 1, ar, f) {
            None => None,
            Some(ds) => match deriv(args[n - 1], ar, f) {
                Some(d) => Some(ds.push(d)),
                None => None,
            },
        }
    }
}

/// The product-rule terms for the first `n` non-constant factors of a product:
/// term `i` is the other factors times the derivative of factor `i`, simplified.
pub open spec fn deriv_terms(exprs: Seq<SExpr>, n: int, ar: Arith, f: nat) -> Option<Seq<SExpr>>
    decreases f, 1 + n,
{
    if n <= 0 || n > exprs.len() {
        Some(Seq::empty())
    } else {
        match deriv_terms(exprs, n - 1, ar, f) {
            None => None,
            Some(ts) => match deriv(exprs[n - 1], ar, f) {
                None => None,
                Some(d) => match simp(
                    SExpr::MulFlat { args: exprs.remove(n - 1).push(d) },
                    ar,
                    f,
                ) {
                    Some(t) => Some(ts.push(t)),
                    None => None,
                },
            },
        }
    }
}

} // verus!

verus! {

fn is_der(e: &Expression) -> (r: bool)
    ensures
        r == spec_is_der(e@),
{
    match e {
        Expression::Pow { .. } | Expression::Function { .. } | Expression::Variable(_)
        | Expression::VarSimple { .. } => true,
        _ => false,
    }
}

fn is_variable(e: &Expression) -> (r: bool)
    ensures
        r == spec_is_variable(e@),
{
    match e {
        Expression::Variable(_) | Expression::VarSimple { .. } => true,
        _ => false,
    }
}

fn derivative_function<F: Fn(NumOp, &String, &String) -> String>(
    name: &String,
    input: &Expression,
    e: &Expression,
    arith: &F,
    f: u64,
) -> (r: Option<Expression>)
    requires
        well_behaved(*arith),
    ensures
        opt_model(r) == deriv_function(name@, input@, e@, arith_spec(*arith), f as nat),
    decreases f, 1int,
{
    if text_is(name, "exp") {
        let d = derivative_fuel(input, arith, f)?;
        Some(product(d, e.clone()))
    } else if text_is(name, "ln") {
        let d = derivative_fuel(input, arith, f)?;
        Some(product(d, power(input.clone(), negative_one())))
    } else if text_is(name, "cos") {
        let d = derivative_fuel(input, arith, f)?;
        Some(product(d, product(negative_one(), create_function("sin", input.clone()))))
    } else if text_is(name, "sin") {
        let d = derivative_fuel(input, arith, f)?;
        Some(product(d, create_function("cos", input.clone())))
    } else if text_is(name, "tan") {
        let d = derivative_fuel(input, arith, f)?;
        let two = number(String::from_str("2"));
        Some(product(d, power(create_function("sec", input.clone()), two)))
    } else {
        Some(Expression::NONE)
    }
}

fn derivative_all<F: Fn(NumOp, &String, &String) -> String>(
    args: &Vec<Box<Expression>>,
    arith: &F,
    f: u64,
) -> (r: Option<Vec<Box<Expression>>>)
    requires
        well_behaved(*arith),
    ensures
        match r {
            Some(v) => deriv_all(models(args@), args@.len() as int, arith_spec(*arith), f as nat)
                == Some(models(v@)),
            None => deriv_all(
                models(args@),
                args@.len() as int,
                arith_spec(*arith),
                f as nat,
            ) is None,
        },
    decreases f, 1int,
{
    let ghost ar = arith_spec(*arith);
    let ghost ms = models(args@);
    let mut out: Vec<Box<Expression>> = Vec::new();
    proof {
        assert(models(out@) =~= Seq::<SExpr>::empty());
    }
    let mut i: usize = 0;
    while i < args.len()
        invariant
            well_behaved(*arith),
            ar == arith_spec(*arith),
            ms == models(args@),
            i <= args@.len(),
            deriv_all(ms, i as int, ar, f as nat) == Some(models(out@)),
        decreases args@.len() - i,
    {
        assert(ms[i as int] == (*args[i as int])@);
        let d = match derivative_fuel(&args[i], arith, f) {
            Some(d) => d,
            None => {
                proof {
                    lemma_all_none(ms, i + 1, args@.len() as int, ar, f as nat);
                }
                return None;
            },
        };
        let ghost old_out = out@;
        out.push(Box::new(d));
        assert(models(out@) =~= models(old_out).push(d@));
        i = i + 1;
    }
    Some(out)
}

proof fn lemma_all_none(args: Seq<SExpr>, n: int, m: int, ar: Arith, f: nat)
    requires
        0 <= n <= m <= args.len(),
        deriv_all(args, n, ar, f) is None,
    ensures
        deriv_all(args, m, ar, f) is None,
    decreases m - n,
{
    if n < m {
        lemma_all_none(args, n, m - 1, ar, f);
    }
}

proof fn lemma_terms_none(exprs: Seq<SExpr>, n: int, m: int, ar: Arith, f: nat)
    requires
        0 <= n <= m <= exprs.len(),
        deriv_terms(exprs, n, ar, f) is None,
    ensures
        deriv_terms(exprs, m, ar, f) is None,
    decreases m - n,
{
    if n < m {
        lemma_terms_none(exprs, n, m - 1, ar, f);
    }
}

/// Splits the factors of a product into its numbers and its other factors.
fn split_factors(args: &Vec<Box<Expression>>) -> (r: (Vec<Box<Expression>>, Vec<Box<Expression>>))
    ensures
        split_numbers(models(args@), args@.len() as int) == (models(r.0@), models(r.1@)),
{
    let ghost ms = models(args@);
    let mut nums: Vec<Box<Expression>> = Vec::new();
    let mut others: Vec<Box<Expression>> = Vec::new();
    proof {
        assert(models(nums@) =~= Seq::<SExpr>::empty());
        assert(models(others@) =~= Seq::<SExpr>::empty());
    }
    let mut i: usize = 0;
    while i < args.len()
        invariant
            ms == models(args@),
            i <= args@.len(),
            split_numbers(ms, i as int) == (models(nums@), models(others@)),
        decreases args@.len() - i,
    {
        let a: &Expression = &*args[i];
        assert(ms[i as int] == a@);
        if let Expression::Number(_) = a {
            let ghost old = nums@;
            nums.push(Box::new(a.clone()));
            assert(models(nums@) =~= models(old).push(a@));
        } else {
            let ghost old = others@;
            others.push(Box::new(a.clone()));
            assert(models(others@) =~= models(old).push(a@));
        }
        i = i + 1;
    }
    (nums, others)
}

/// The text of the product of the given numbers, starting from 1.
fn multiply_numbers<F: Fn(NumOp, &String, &String) -> String>(
    nums: &Vec<Box<Expression>>,
    arith: &F,
) -> (r: String)
    requires
        well_behaved(*arith),
        forall|j: int| 0 <= j < nums@.len() ==> (#[trigger] models(nums@)[j]) is Number,
    ensures
        r@ == number_product(models(nums@), nums@.len() as int, arith_spec(*arith)),
{
    let ghost ms = models(nums@);
    let mut acc = String::from_str("1");
    proof {
        reveal_strlit("1");
        assert(acc@ =~= seq!['1']);
    }
    let mut i: usize = 0;
    while i < nums.len()
        invariant
            well_behaved(*arith),
            ms == models(nums@),
            i <= nums@.len(),
            forall|j: int| 0 <= j < nums@.len() ==> (#[trigger] ms[j]) is Number,
            acc@ == number_product(ms, i as int, arith_spec(*arith)),
        decreases nums@.len() - i,
    {
        assert(ms[i as int] is Number);
        if let Expression::Number(t) = &*nums[i] {
            acc = apply_op(arith, NumOp::Mul, &acc, &t.token_value);
        }
        i = i + 1;
    }
    acc
}

proof fn lemma_split_numbers(args: Seq<SExpr>, n: int)
    requires
        0 <= n <= args.len(),
    ensures
        forall|j: int|
            0 <= j < split_numbers(args, n).0.len() ==> (#[trigger] split_numbers(args, n).0[j]) is Number,
    decreases n,
{
    if n > 0 {
        lemma_split_numbers(args, n - 1);
    }
}

/// The factors other than factor `i`, followed by `d`.
fn others_then(exprs: &Vec<Box<Expression>>, i: usize, d: Expression) -> (r: Vec<Box<Expression>>)
    requires
        i < exprs@.len(),
    ensures
        models(r@) == models(exprs@).remove(i as int).push(d@),
{
    let ghost ms = models(exprs@);
    let mut out: Vec<Box<Expression>> = Vec::new();
    proof {
        assert(models(out@) =~= ms.take(0));
    }
    let mut j: usize = 0;
    while j < exprs.len()
        invariant
            ms == models(exprs@),
            i < exprs@.len(),
            j <= exprs@.len(),
            models(out@) == (if j <= i {
                ms.take(j as int)
            } else {
                ms.take(j as int).remove(i as int)
            }),
        decreases exprs@.len() - j,
    {
        let ghost old = models(out@);
        if j != i {
            out.push(Box::new((*exprs[j]).clone()));
            assert(models(out@) =~= old.push(ms[j as int]));
        }
        proof {
            if j + 1 <= i {
                assert(ms.take(j + 1) =~= ms.take(j as int).push(ms[j as int]));
            } else if j == i {
                assert(ms.take(j + 1).remove(i as int) =~= ms.take(j as int));
            } else {
                assert(ms.take(j + 1).remove(i as int) =~= ms.take(j as int).remove(i as int).push(
                    ms[j as int],
                ));
            }
        }
        j = j + 1;
    }
    assert(ms.take(exprs@.len() as int) =~= ms);
    let ghost old = models(out@);
    out.push(Box::new(d));
    assert(models(out@) =~= old.push(d@));
    out
}

fn derivative_terms<F: Fn(NumOp, &String, &String) -> String>(
    exprs: &Vec<Box<Expression>>,
    arith: &F,
    f: u64,
) -> (r: Option<Vec<Box<Expression>>>)
    requires
        well_behaved(*arith),
    ensures
        match r {
            Some(v) => deriv_terms(models(exprs@), exprs@.len() as int, arith_spec(*arith), f as nat)
                == Some(models(v@)),
            None => deriv_terms(
                models(exprs@),
                exprs@.len() as int,
                arith_spec(*arith),
                f as nat,
            ) is None,
        },
    decreases f, 1int,
{
    let ghost ar = arith_spec(*arith);
    let ghost ms = models(exprs@);
    let mut out: Vec<Box<Expression>> = Vec::new();
    proof {
        assert(models(out@) =~= Seq::<SExpr>::empty());
    }
    let mut i: usize = 0;
    while i < exprs.len()
        invariant
            well_behaved(*arith),
            ar == arith_spec(*arith),
            ms == models(exprs@),
            i <= exprs@.len(),
            deriv_terms(ms, i as int, ar, f as nat) == Some(models(out@)),
        decreases exprs@.len() - i,
    {
        assert(ms[i as int] == (*exprs[i as int])@);
        let d = match derivative_fuel(&exprs[i], arith, f) {
            Some(d) => d,
            None => {
                proof {
                    lemma_terms_none(ms, i + 1, exprs@.len() as int, ar, f as nat);
                }
                return None;
            },
        };
        let factors = others_then(exprs, i, d);
        proof {
            lemma_flat_models(factors);
        }
        let t = match try_simplify(Expression::MulFlat { args: factors }, arith, f) {
            Some(t) => t,
            None => {
                proof {
                    lemma_terms_none(ms, i + 1, exprs@.len() as int, ar, f as nat);
                }
                return None;
            },
        };
        let ghost old_out = out@;
        out.push(Box::new(t));
        assert(models(out@) =~= models(old_out).push(t@));
        i = i + 1;
    }
    Some(out)
}

fn derivative_fuel<F: Fn(NumOp, &String, &String) -> String>(
    exp: &Expression,
    arith: &F,
    fuel: u64,
) -> (r: Option<Expression>)
    requires
        well_behaved(*arith),
    ensures
        opt_model(r) == deriv(exp@, arith_spec(*arith), fuel as nat),
    decreases fuel, 0int,
{
    if fuel == 0 {
        return None;
    }
    let f = fuel - 1;
    match exp {
        Expression::Function { token, input } => derivative_function(
            &token.token_value,
            input,
            exp,
            arith,
            f,
        ),
        Expression::Number(_) => Some(zero()),
        Expression::Variable(_) => Some(one()),
        Expression::VarSimple { mult, .. } => Some((**mult).clone()),
        Expression::Mul { left, right } => {
            let both = is_der(left) && is_der(right);
            if !both && is_der(left) {
                let dl = derivative_fuel(left, arith, f)?;
                return try_simplify(product(dl, (**right).clone()), arith, f);
            } else if !both && is_der(right) {
                let dr = derivative_fuel(right, arith, f)?;
                return try_simplify(product((**left).clone(), dr), arith, f);
            }
            let dr = derivative_fuel(right, arith, f)?;
            let dl = derivative_fuel(left, arith, f)?;
            Some(sum(product((**left).clone(), dr), product(dl, (**right).clone())))
        },
        Expression::Pow { base, exponent } => {
            if let Expression::Variable(_) = &**base {
                assert((**base)@ is Variable);
                if !is_variable(exponent) {
                    let x = try_simplify(sum((**exponent).clone(), negative_one()), arith, f)?;
                    return try_simplify(
                        product((**exponent).clone(), power((**base).clone(), x)),
                        arith,
                        f,
                    );
                }
                let g = create_function(
                    "exp",
                    product((**exponent).clone(), create_function("ln", (**base).clone())),
                );
                return derivative_fuel(&g, arith, f);
            }
            assert(!((**base)@ is Variable));
            Some(Expression::NONE)
        },
        Expression::AddFlat { args } => {
            proof {
                lemma_flat_models(*args);
            }
            let ds = derivative_all(args, arith, f)?;
            Some(flat_sum(ds))
        },
        Expression::Add { left, right } => {
            let dl = derivative_fuel(left, arith, f)?;
            let dr = derivative_fuel(right, arith, f)?;
            Some(sum(dl, dr))
        },
        Expression::MulFlat { args } => {
            proof {
                lemma_flat_models(*args);
            }
            let (nums, exprs) = split_factors(args);
            let terms = derivative_terms(&exprs, arith, f)?;
            if nums.len() > 0 {
                proof {
                    lemma_split_numbers(models(args@), args@.len() as int);
                }
                let k = multiply_numbers(&nums, arith);
                return try_simplify(product(number(k), flat_sum(terms)), arith, f);
            }
            Some(flat_sum(terms))
        },
        Expression::NONE => Some(Expression::NONE),
    }
}

/// The derivative of `exp` that `derivative` returns.
pub open spec fn differentiated(e: SExpr, ar: Arith) -> Option<SExpr> {
    deriv(e, ar, max_fuel())
}

/// Differentiates `exp`: numbers give `0`, a variable `1`, `c*x` gives `c`;
/// sums term by term, products by the product rule, `x^n` for a constant
/// exponent by the power rule, and `exp`, `ln`, `sin`, `cos`, `tan` by the chain
/// rule. Constant factors use the numeric back end `arith`; the products and
/// powers formed on the way are simplified.
///
/// `exp` must be one on which the simplifications involved terminate.
pub fn derivative<F: Fn(NumOp, &String, &String) -> String>(exp: Expression, arith: &F) -> (r:
    Expression)
    requires
        well_behaved(*arith),
        differentiated(exp@, arith_spec(*arith)) is Some,
    ensures
        differentiated(exp@, arith_spec(*arith)) == Some(r@),
{
    match derivative_fuel(&exp, arith, u64::MAX) {
        Some(r) => r,
        None => {
            proof {
                assert(false);
            }
            Expression::NONE
        },
    }
}

/// Differentiates `exp` as `derivative` does, within `fuel` nested steps;
/// `None` when these do not suffice.
pub fn try_derivative<F: Fn(NumOp, &String, &String) -> String>(
    exp: Expression,
    arith: &F,
    fuel: u64,
) -> (r: Option<Expression>)
    requires
        well_behaved(*arith),
    ensures
        opt_model(r) == deriv(exp@, arith_spec(*arith), fuel as nat),
{
    derivative_fuel(&exp, arith, fuel)
}

} // verus!

verus! {

/// More steps never change a derivative that succeeds: when `deriv` succeeds
/// with `n` steps it gives the same tree with any `m >= n` steps.
pub proof fn lemma_deriv_fuel(e: SExpr, ar: Arith, n: nat, m: nat)
    requires
        n <= m,
        deriv(e, ar, n) is Some,
    ensures
        deriv(e, ar, m) == deriv(e, ar, n),
    decreases n, 0int,
{
    let f = (n - 1) as nat;
    let g = (m - 1) as nat;
    match e {
        SExpr::Function { token, input } => {
            lemma_function_fuel(token.value, *input, e, ar, f, g);
        },
        SExpr::Mul { left, right } => {
            let l = *left;
            let r = *right;
            if !(spec_is_der(l) && spec_is_der(r)) && spec_is_der(l) {
                lemma_deriv_fuel(l, ar, f, g);
                lemma_simp_fuel(smul(deriv(l, ar, f).unwrap(), r), ar, f, g);
            } else if !(spec_is_der(l) && spec_is_der(r)) && spec_is_der(r) {
                lemma_deriv_fuel(r, ar, f, g);
                lemma_simp_fuel(smul(l, deriv(r, ar, f).unwrap()), ar, f, g);
            } else {
                lemma_deriv_fuel(r, ar, f, g);
                lemma_deriv_fuel(l, ar, f, g);
            }
        },
        SExpr::Pow { base, exponent } => {
            if (*base) is Variable {
                if !spec_is_variable(*exponent) {
                    lemma_simp_fuel(sadd(*exponent, spec_negative_one()), ar, f, g);
                    let x = simp(sadd(*exponent, spec_negative_one()), ar, f).unwrap();
                    lemma_simp_fuel(smul(*exponent, spow(*base, x)), ar, f, g);
                } else {
                    lemma_deriv_fuel(sfun("exp"@, smul(*exponent, sfun("ln"@, *base))), ar, f, g);
                }
            }
        },
        SExpr::AddFlat { args } => {
            lemma_all_fuel(args, args.len() as int, ar, f, g);
        },
        SExpr::Add { left, right } => {
            lemma_deriv_fuel(*left, ar, f, g);
            lemma_deriv_fuel(*right, ar, f, g);
        },
        SExpr::MulFlat { args } => {
            let (nums, exprs) = split_numbers(args, args.len() as int);
            lemma_terms_fuel(exprs, exprs.len() as int, ar, f, g);
            if nums.len() > 0 {
                let sum = deriv_terms(exprs, exprs.len() as int, ar, f).unwrap();
                lemma_simp_fuel(
                    smul(
                        snum(number_product(nums, nums.len() as int, ar)),
                        SExpr::AddFlat { args: sum },
                    ),
                    ar,
                    f,
                    g,
                );
            }
        },
        _ => {},
    }
}

proof fn lemma_function_fuel(name: Seq<char>, input: SExpr, e: SExpr, ar: Arith, f: nat, g: nat)
    requires
        f <= g,
        deriv_function(name, input, e, ar, f) is Some,
    ensures
        deriv_function(name, input, e, ar, g) == deriv_function(name, input, e, ar, f),
    decreases f, 1int,
{
    if name == "exp"@ || name == "ln"@ || name == "cos"@ || name == "sin"@ || name == "tan"@ {
        lemma_deriv_fuel(input, ar, f, g);
    }
}

proof fn lemma_all_fuel(args: Seq<SExpr>, k: int, ar: Arith, f: nat, g: nat)
    requires
        f <= g,
        deriv_all(args, k, ar, f) is Some,
    ensures
        deriv_all(args, k, ar, g) == deriv_all(args, k, ar, f),
    decreases f, 1 + k,
{
    if 0 < k <= args.len() {
        lemma_all_fuel(args, k - 1, ar, f, g);
        lemma_deriv_fuel(args[k - 1], ar, f, g);
    }
}

proof fn lemma_terms_fuel(exprs: Seq<SExpr>, k: int, ar: Arith, f: nat, g: nat)
    requires
        f <= g,
        deriv_terms(exprs, k, ar, f) is Some,
    ensures
        deriv_terms(exprs, k, ar, g) == deriv_terms(exprs, k, ar, f),
    decreases f, 1 + k,
{
    if 0 < k <= exprs.len() {
        lemma_terms_fuel(exprs, k - 1, ar, f, g);
        lemma_deriv_fuel(exprs[k - 1], ar, f, g);
        let d = deriv(exprs[k - 1], ar, f).unwrap();
        lemma_simp_fuel(SExpr::MulFlat { args: exprs.remove(k - 1).push(d) }, ar, f, g);
    }
}

/// The names of the functions with derivative rules are distinct.
proof fn lemma_function_names_differ()
    ensures
        "exp"@ != "ln"@,
        "exp"@ != "cos"@,
        "exp"@ != "sin"@,
        "ln"@ != "cos"@,
        "ln"@ != "sin"@,
        "cos"@ != "sin"@,
        "tan"@ != "exp"@,
        "tan"@ != "ln"@,
        "tan"@ != "cos"@,
        "tan"@ != "sin"@,
{
    reveal_strlit("exp");
    reveal_strlit("ln");
    reveal_strlit("cos");
    reveal_strlit("sin");
    reveal_strlit("tan");
    assert("exp"@[0] != "cos"@[0]);
    assert("exp"@[0] != "sin"@[0]);
    assert("cos"@[0] != "sin"@[0]);
    assert("tan"@[0] != "exp"@[0]);
    assert("tan"@[0] != "cos"@[0]);
    assert("tan"@[0] != "sin"@[0]);
}

/// A number differentiates to `0`, a variable to `1`, and a variable with a
/// coefficient `c*x` to `c`.
pub proof fn lemma_deriv_atoms(t: SpecToken, c: SExpr, ar: Arith, n: nat)
    requires
        n >= 1,
    ensures
        deriv(SExpr::Number(t), ar, n) == Some(spec_zero()),
        deriv(SExpr::Variable(t), ar, n) == Some(spec_one()),
        deriv(SExpr::VarSimple { token: t, mult: Box::new(c) }, ar, n) == Some(c),
{
}

/// Sum rule: the derivative of `a + b` is the derivative of `a` plus the
/// derivative of `b`.
pub proof fn lemma_deriv_sum(a: SExpr, b: SExpr, ar: Arith, n: nat)
    requires
        deriv(a, ar, n) is Some,
        deriv(b, ar, n) is Some,
    ensures
        deriv(sadd(a, b), ar, n + 1) == Some(
            sadd(deriv(a, ar, n).unwrap(), deriv(b, ar, n).unwrap()),
        ),
{
}

/// Chain rule for the known functions: the derivative of `f(u)` is the
/// derivative of `u` times `exp(u)`, `u^-1`, `-1*sin(u)`, `cos(u)` or
/// `sec(u)^2` for `f` = `exp`, `ln`, `cos`, `sin`, `tan`.
pub proof fn lemma_deriv_chain(u: SExpr, ar: Arith, n: nat)
    requires
        deriv(u, ar, n) is Some,
    ensures
        deriv(sfun("exp"@, u), ar, n + 1) == Some(smul(deriv(u, ar, n).unwrap(), sfun("exp"@, u))),
        deriv(sfun("ln"@, u), ar, n + 1) == Some(
            smul(deriv(u, ar, n).unwrap(), spow(u, spec_negative_one())),
        ),
        deriv(sfun("cos"@, u), ar, n + 1) == Some(
            smul(deriv(u, ar, n).unwrap(), smul(spec_negative_one(), sfun("sin"@, u))),
        ),
        deriv(sfun("sin"@, u), ar, n + 1) == Some(smul(deriv(u, ar, n).unwrap(), sfun("cos"@, u))),
        deriv(sfun("tan"@, u), ar, n + 1) == Some(
            smul(deriv(u, ar, n).unwrap(), spow(sfun("sec"@, u), snum("2"@))),
        ),
{
    lemma_function_names_differ();
    assert(deriv_function("exp"@, u, sfun("exp"@, u), ar, n) == Some(
        smul(deriv(u, ar, n).unwrap(), sfun("exp"@, u)),
    ));
    assert(deriv_function("ln"@, u, sfun("ln"@, u), ar, n) == Some(
        smul(deriv(u, ar, n).unwrap(), spow(u, spec_negative_one())),
    ));
    assert(deriv_function("cos"@, u, sfun("cos"@, u), ar, n) == Some(
        smul(deriv(u, ar, n).unwrap(), smul(spec_negative_one(), sfun("sin"@, u))),
    ));
    assert(deriv_function("sin"@, u, sfun("sin"@, u), ar, n) == Some(
        smul(deriv(u, ar, n).unwrap(), sfun("cos"@, u)),
    ));
    assert(deriv_function("tan"@, u, sfun("tan"@, u), ar, n) == Some(
        smul(deriv(u, ar, n).unwrap(), spow(sfun("sec"@, u), snum("2"@))),
    ));
}

/// Product rule: when both factors of `a * b` are powers, function
/// applications or variables, its derivative is `a * b' + a' * b`.
pub proof fn lemma_deriv_product(a: SExpr, b: SExpr, ar: Arith, n: nat)
    requires
        spec_is_der(a),
        spec_is_der(b),
        deriv(a, ar, n) is Some,
        deriv(b, ar, n) is Some,
    ensures
        deriv(smul(a, b), ar, n + 1) == Some(
            sadd(smul(a, deriv(b, ar, n).unwrap()), smul(deriv(a, ar, n).unwrap(), b)),
        ),
{
}

/// Power rule: a variable raised to a number `c` differentiates to
/// `c * x^(c-1)`, simplified, with `c-1` computed by the numeric back end.
pub proof fn lemma_deriv_power(v: SpecToken, c: SpecToken, ar: Arith, n: nat)
    requires
        n >= 2,
    ensures
        deriv(spow(SExpr::Variable(v), SExpr::Number(c)), ar, n + 1) == simp(
            smul(
                SExpr::Number(c),
                spow(SExpr::Variable(v), snum(ar(NumOp::Add, c.value, seq!['-', '1']))),
            ),
            ar,
            n,
        ),
{
    lemma_simp_folds_numbers(c, stok(TokenType::Number, seq!['-', '1']), ar, n);
}

/// A function without a rule differentiates to `NONE`: only `exp`, `ln`,
/// `cos`, `sin` and `tan` have one.
pub proof fn lemma_deriv_unknown_function(name: Seq<char>, u: SExpr, ar: Arith, n: nat)
    requires
        name != "exp"@ && name != "ln"@ && name != "cos"@ && name != "sin"@ && name != "tan"@,
    ensures
        deriv(sfun(name, u), ar, n + 1) == Some(SExpr::NONE),
{
    assert(deriv_function(name, u, sfun(name, u), ar, n) == Some(SExpr::NONE));
}

/// Sum rule for flat sums: the derivative of a flat sum is the flat sum of
/// the derivatives of its terms, in their order.
pub proof fn lemma_deriv_flat_sum(args: Seq<SExpr>, ar: Arith, n: nat)
    requires
        forall|i: int| 0 <= i < args.len() ==> (#[trigger] deriv(args[i], ar, n)) is Some,
    ensures
        deriv(SExpr::AddFlat { args }, ar, n + 1) == Some(
            SExpr::AddFlat {
                args: Seq::new(args.len(), |i: int| deriv(args[i], ar, n).unwrap()),
            },
        ),
{
    lemma_deriv_all(args, args.len() as int, ar, n);
    assert(deriv_all(args, args.len() as int, ar, n).unwrap() =~= Seq::new(
        args.len(),
        |i: int| deriv(args[i], ar, n).unwrap(),
    ));
}

proof fn lemma_deriv_all(args: Seq<SExpr>, k: int, ar: Arith, n: nat)
    requires
        0 <= k <= args.len(),
        forall|i: int| 0 <= i < args.len() ==> (#[trigger] deriv(args[i], ar, n)) is Some,
    ensures
        deriv_all(args, k, ar, n) is Some,
        deriv_all(args, k, ar, n).unwrap().len() == k,
        forall|i: int|
            0 <= i < k ==> deriv_all(args, k, ar, n).unwrap()[i] == deriv(args[i], ar, n).unwrap(),
    decreases k,
{
    if k > 0 {
        lemma_deriv_all(args, k - 1, ar, n);
        assert(deriv(args[k - 1], ar, n) is Some);
    }
}

/// Constant-factor rule on either side: when `u` is a power, a function
/// application or a variable and `c` is none of these (a number, say), the
/// derivative of `u * c` is `u' * c` simplified, and that of `c * u` is
/// `c * u'` simplified.
pub proof fn lemma_deriv_constant_factor(u: SExpr, c: SExpr, ar: Arith, n: nat)
    requires
        spec_is_der(u),
        !spec_is_der(c),
        deriv(u, ar, n) is Some,
    ensures
        deriv(smul(u, c), ar, n + 1) == simp(smul(deriv(u, ar, n).unwrap(), c), ar, n),
        deriv(smul(c, u), ar, n + 1) == simp(smul(c, deriv(u, ar, n).unwrap()), ar, n),
{
}

/// A variable raised to an exponent that is itself a variable differentiates
/// as `exp(e * ln(x))` does; a power whose base is not a variable has no rule
/// and gives `NONE`.
pub proof fn lemma_deriv_general_power(b: SExpr, e: SExpr, ar: Arith, n: nat)
    ensures
        b is Variable && spec_is_variable(e) ==> deriv(spow(b, e), ar, n + 1) == deriv(
            sfun("exp"@, smul(e, sfun("ln"@, b))),
            ar,
            n,
        ),
        !(b is Variable) ==> deriv(spow(b, e), ar, n + 1) == Some(SExpr::NONE),
{
}

/// The product-rule term for factor `i`: the other factors times the
/// derivative of factor `i`, as a simplified flat product.
pub open spec fn product_rule_term(args: Seq<SExpr>, i: int, ar: Arith, n: nat) -> Option<SExpr> {
    match deriv(args[i], ar, n) {
        Some(d) => simp(SExpr::MulFlat { args: args.remove(i).push(d) }, ar, n),
        None => None,
    }
}

proof fn lemma_split_no_numbers(args: Seq<SExpr>, k: int)
    requires
        0 <= k <= args.len(),
        forall|i: int| 0 <= i < args.len() ==> !(#[trigger] args[i] is Number),
    ensures
        split_numbers(args, k).0.len() == 0,
        split_numbers(args, k).1 == args.take(k),
    decreases k,
{
    if k > 0 {
        lemma_split_no_numbers(args, k - 1);
        assert(!(args[k - 1] is Number));
        assert(args.take(k) =~= args.take(k - 1).push(args[k - 1]));
    } else {
        assert(args.take(0) =~= Seq::<SExpr>::empty());
    }
}

proof fn lemma_deriv_terms(args: Seq<SExpr>, k: int, ar: Arith, n: nat)
    requires
        0 <= k <= args.len(),
        forall|i: int| 0 <= i < args.len() ==> (#[trigger] product_rule_term(args, i, ar, n)) is Some,
    ensures
        deriv_terms(args, k, ar, n) is Some,
        deriv_terms(args, k, ar, n).unwrap().len() == k,
        forall|i: int|
            0 <= i < k ==> deriv_terms(args, k, ar, n).unwrap()[i] == product_rule_term(
                args,
                i,
                ar,
                n,
            ).unwrap(),
    decreases k,
{
    if k > 0 {
        lemma_deriv_terms(args, k - 1, ar, n);
        assert(product_rule_term(args, k - 1, ar, n) is Some);
    }
}

/// Product rule for flat products without numbers: the derivative is the
/// flat sum, over the factors in order, of the other factors times the
/// derivative of that factor, each term simplified.
pub proof fn lemma_deriv_flat_product(args: Seq<SExpr>, ar: Arith, n: nat)
    requires
        forall|i: int| 0 <= i < args.len() ==> !(#[trigger] args[i] is Number),
        forall|i: int| 0 <= i < args.len() ==> (#[trigger] product_rule_term(args, i, ar, n)) is Some,
    ensures
        deriv(SExpr::MulFlat { args }, ar, n + 1) == Some(
            SExpr::AddFlat {
                args: Seq::new(args.len(), |i: int| product_rule_term(args, i, ar, n).unwrap()),
            },
        ),
{
    lemma_split_no_numbers(args, args.len() as int);
    assert(args.take(args.len() as int) =~= args);
    lemma_deriv_terms(args, args.len() as int, ar, n);
    assert(deriv_terms(args, args.len() as int, ar, n).unwrap() =~= Seq::new(
        args.len(),
        |i: int| product_rule_term(args, i, ar, n).unwrap(),
    ));
}

} // verus!
