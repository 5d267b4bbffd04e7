use vstd::prelude::*;

use crate::math::number::{arith_spec, well_behaved, NumOp};
use crate::preprocess::token::{SpecToken, TokenType};
use crate::math::simplify::{
    Arith, max_fuel, opt_model, simp, try_simplify, lemma_simp_fuel, lemma_simp_cancels_inverse,
    lemma_simp_atoms, sum_collect, finish_sum, is_zero_text, simp_mul, simp_add, Collect,
};
use crate::preprocess::types::{
    Equation, Expression, SExpr, models, smul, sadd, spow, sfun, spec_negative_one, lemma_flat_models,
    negative_one, create_function, text_is, flat_sum, product, sum, power, snum,
};

verus! {

/// How the left side of an equation is undone: by adding the same term to
/// both sides, by applying an inverse function to both, by raising both to a
/// power, or not at all.
pub enum SpecMethod {
    Add,
    Apply(Seq<char>),
    Pow(SExpr),
    Nothing,
}

enum Method {
    Add,
    Apply(String),
    Pow(Expression),
    Nothing,
}

impl View for Method {
    type V = SpecMethod;

    closed spec fn view(&self) -> SpecMethod {
        match self {
            Method::Add => SpecMethod::Add,
            Method::Apply(s) => SpecMethod::Apply(s@),
            Method::Pow(e) => SpecMethod::Pow(e@),
            Method::Nothing => SpecMethod::Nothing,
        }
    }
}

/// The expression mentions a variable: it is one, or a power whose base or
/// exponent mentions one.
pub open spec fn spec_is_variable(e: SExpr) -> bool
    decreases e,
{
    match e {
        SExpr::Variable(_) => true,
        SExpr::VarSimple { .. } => true,
        SExpr::Pow { base, exponent } => spec_is_variable(*base) || spec_is_variable(*exponent),
        _ => false,
    }
}

/// The name of the inverse of the function `name`, or the empty name.
pub open spec fn inverse_name(name: Seq<char>) -> Seq<char> {
    if name == "ln"@ {
        "exp"@
    } else if name == "exp"@ {
        "ln"@
    } else if name == "cos"@ {
        "arccos"@
    } else if name == "sin"@ {
        "arcsin"@
    } else if name == "tan"@ {
        "arctan"@
    } else {
        Seq::empty()
    }
}

/// The first `n` terms of a sum that mention no variable.
pub open spec fn constant_terms(args: Seq<SExpr>, n: int) -> Seq<SExpr>
    decreases n,
{
    if n <= 0 || n > args.len() {
        Seq::empty()
    } else if spec_is_variable(args[n - 1]) {
        constant_terms(args, n - 1)
    } else {
        constant_terms(args, n - 1).push(args[n - 1])
    }
}

/// The term and method that undo the outermost operation of the left side `e`.
pub open spec fn spec_get_inverse(e: SExpr, ar: Arith, f: nat) -> Option<(SExpr, SpecMethod)> {
    match e {
        SExpr::Pow { exponent, .. } => Some(
            (SExpr::NONE, SpecMethod::Pow(spow(*exponent, spec_negative_one()))),
        ),
        SExpr::Add { left, right } => if spec_is_variable(*left) && !spec_is_variable(*right) {
            match simp(smul(spec_negative_one(), *right), ar, f) {
                Some(x) => Some((x, SpecMethod::Add)),
                None => None,
            }
        } else if spec_is_variable(*right) && !spec_is_variable(*left) {
            match simp(smul(spec_negative_one(), *left), ar, f) {
                Some(x) => Some((x, SpecMethod::Add)),
                None => None,
            }
        } else {
            Some((SExpr::NONE, SpecMethod::Nothing))
        },
        SExpr::AddFlat { args } => if constant_terms(args, args.len() as int).len() == 0 {
            Some((SExpr::NONE, SpecMethod::Nothing))
        } else {
            match simp(SExpr::AddFlat { args: constant_terms(args, args.len() as int) }, ar, f) {
                Some(s) => Some((smul(spec_negative_one(), s), SpecMethod::Add)),
                None => None,
            }
        },
        SExpr::Function { token, .. } => Some(
            (SExpr::NONE, SpecMethod::Apply(inverse_name(token.value))),
        ),
        _ => Some((SExpr::NONE, SpecMethod::Nothing)),
    }
}

/// The equation `left = right` solved for its variable, with number arithmetic
/// `ar` and at most `fuel` nested steps: the operation on the outside of the
/// left side is undone on both sides, until none can be.
pub open spec fn spec_solve(left: SExpr, right: SExpr, ar: Arith, fuel: nat) -> Option<(SExpr, SExpr)>
    decreases fuel,
{
    if fuel == 0 {
        None
    } else {
        let f = (fuel - 1) as nat;
        match spec_get_inverse(left, ar, f) {
            None => None,
            Some((x, m)) => match m {
                SpecMethod::Add => match simp(sadd(left, x), ar, f) {
                    Some(l) => match simp(sadd(right, x), ar, f) {
                        Some(r) => spec_solve(l, r, ar, f),
                        None => None,
                    },
                    None => None,
                },
                SpecMethod::Pow(e) => match simp(spow(left, e), ar, f) {
                    Some(l) => match simp(spow(right, e), ar, f) {
                        Some(r) => Some((l, r)),
                        None => None,
                    },
                    None => None,
                },
                SpecMethod::Apply(func) => match simp(sfun(func, left), ar, f) {
                    Some(l) => match simp(sfun(func, right), ar, f) {
                        Some(r) => spec_solve(l, r, ar, f),
                        None => None,
                    },
                    None => None,
                },
                SpecMethod::Nothing => if left is AddFlat && left->AddFlat_args.len() == 1 {
                    spec_solve(left->AddFlat_args[0], right, ar, f)
                } else {
                    Some((left, right))
                },
            },
        }
    }
}

fn is_variable(e: &Expression) -> (r: bool)
    ensures
        r == spec_is_variable(e@),
    decreases e,
{
    match e {
        Expression::Variable(_) => true,
        Expression::VarSimple { .. } => true,
        Expression::Pow { base, exponent } => is_variable(base) || is_variable(exponent),
        _ => false,
    }
}

fn get_inverse_function(func: &String) -> (r: String)
    ensures
        r@ == inverse_name(func@),
{
    if text_is(func, "ln") {
        String::from_str("exp")
    } else if text_is(func, "exp") {
        String::from_str("ln")
    } else if text_is(func, "cos") {
        String::from_str("arccos")
    } else if text_is(func, "sin") {
        String::from_str("arcsin")
    } else if text_is(func, "tan") {
        String::from_str("arctan")
    } else {
        String::new()
    }
}

fn constant_terms_exec(args: &Vec<Box<Expression>>) -> (r: Vec<Box<Expression>>)
    ensures
        models(r@) == constant_terms(models(args@), args@.len() as int),
{
    let ghost ms = models(args@);
    let mut out: Vec<Box<Expression>> = Vec::new();
    proof {
        assert(models(out@) =~= Seq::<SExpr>::empty());
    }
    let mut i: usize = 0;
    while i < args.len()
        invariant
            ms == models(args@),
            i <= args@.len(),
            models(out@) == constant_terms(ms, i as int),
        decreases args@.len() - i,
    {
        let a: &Expression = &*args[i];
        assert(ms[i as int] == a@);
        if !is_variable(a) {
            let ghost old = out@;
            out.push(Box::new(a.clone()));
            assert(models(out@) =~= models(old).push(a@));
        }
        i = i + 1;
    }
    out
}

fn get_inverse<F: Fn(NumOp, &String, &String) -> String>(exp: Expression, arith: &F, f: u64) -> (r:
    Option<(Expression, Method)>)
    requires
        well_behaved(*arith),
    ensures
        match r {
            Some((x, m)) => spec_get_inverse(exp@, arith_spec(*arith), f as nat) == Some(
                (x@, m@),
            ),
            None => spec_get_inverse(exp@, arith_spec(*arith), f as nat) is None,
        },
{
    match exp {
        Expression::Pow { exponent, .. } => Some(
            (Expression::NONE, Method::Pow(power(*exponent, negative_one()))),
        ),
        Expression::Add { left, right } => {
            if is_variable(&left) && !is_variable(&right) {
                let x = try_simplify(product(negative_one(), *right), arith, f)?;
                return Some((x, Method::Add));
            }
            if is_variable(&right) && !is_variable(&left) {
                let x = try_simplify(product(negative_one(), *left), arith, f)?;
                return Some((x, Method::Add));
            }
            Some((Expression::NONE, Method::Nothing))
        },
        Expression::AddFlat { args } => {
            proof {
                lemma_flat_models(args);
            }
            let no_vars = constant_terms_exec(&args);
            if no_vars.len() == 0 {
                return Some((Expression::NONE, Method::Nothing));
            }
            let s = try_simplify(flat_sum(no_vars), arith, f)?;
            Some((product(negative_one(), s), Method::Add))
        },
        Expression::Function { token, .. } => Some(
            (Expression::NONE, Method::Apply(get_inverse_function(&token.token_value))),
        ),
        _ => Some((Expression::NONE, Method::Nothing)),
    }
}

fn solve_fuel<F: Fn(NumOp, &String, &String) -> String>(eq: Equation, arith: &F, fuel: u64) -> (r:
    Option<Equation>)
    requires
        well_behaved(*arith),
    ensures
        match r {
            Some(s) => spec_solve(eq.left@, eq.right@, arith_spec(*arith), fuel as nat) == Some(
                s@,
            ),
            None => spec_solve(eq.left@, eq.right@, arith_spec(*arith), fuel as nat) is None,
        },
    decreases fuel,
{
    if fuel == 0 {
        return None;
    }
    let f = fuel - 1;
    let (exp, meth) = get_inverse(eq.left.clone(), arith, f)?;
    match meth {
        Method::Add => {
            let left = try_simplify(sum(eq.left, exp.clone()), arith, f)?;
            let right = try_simplify(sum(eq.right, exp), arith, f)?;
            solve_fuel(Equation { left, right }, arith, f)
        },
        Method::Pow(e) => {
            let left = try_simplify(power(eq.left, e.clone()), arith, f)?;
            let right = try_simplify(power(eq.right, e), arith, f)?;
            Some(Equation { left, right })
        },
        Method::Apply(func) => {
            let left = try_simplify(create_function(func.as_str(), eq.left), arith, f)?;
            let right = try_simplify(create_function(func.as_str(), eq.right), arith, f)?;
            solve_fuel(Equation { left, right }, arith, f)
        },
        Method::Nothing => {
            if let Expression::AddFlat { args } = &eq.left {
                if args.len() == 1 {
                    let term = (*args[0]).clone();
                    assert(eq.left@->AddFlat_args[0] == term@);
                    return solve_fuel(Equation { left: term, right: eq.right }, arith, f);
                }
            }
            Some(eq)
        },
    }
}

/// The solution of `left = right` that `solve` returns.
pub open spec fn solved(left: SExpr, right: SExpr, ar: Arith) -> Option<(SExpr, SExpr)> {
    spec_solve(left, right, ar, max_fuel())
}

/// Solves an equation for its variable by undoing the operation on the outside
/// of the left side on both sides, simplifying after each step: a constant
/// term is subtracted, a function is undone by its inverse, and a power
/// `b^e` is undone by raising both sides to `e^-1`, which ends the process.
/// A sum without a constant term is left as it is, and a sum of one term
/// is solved as that term.
///
/// The process does not stop on every equation (a function without a known
/// inverse is undone by the empty name forever); `eq` must be one on which it does.
pub fn solve<F: Fn(NumOp, &String, &String) -> String>(eq: Equation, arith: &F) -> (r: Equation)
    requires
        well_behaved(*arith),
        solved(eq.left@, eq.right@, arith_spec(*arith)) is Some,
    ensures
        solved(eq.left@, eq.right@, arith_spec(*arith)) == Some(r@),
{
    match solve_fuel(eq, arith, u64::MAX) {
        Some(r) => r,
        None => {
            proof {
                assert(false);
            }
            Equation { left: Expression::NONE, right: Expression::NONE }
        },
    }
}

/// Solves `eq` as `solve` does, within `fuel` nested steps; `None` when these
/// do not suffice.
pub fn try_solve<F: Fn(NumOp, &String, &String) -> String>(eq: Equation, arith: &F, fuel: u64) -> (r:
    Option<Equation>)
    requires
        well_behaved(*arith),
    ensures
        match r {
            Some(s) => spec_solve(eq.left@, eq.right@, arith_spec(*arith), fuel as nat) == Some(
                s@,
            ),
            None => spec_solve(eq.left@, eq.right@, arith_spec(*arith), fuel as nat) is None,
        },
{
    solve_fuel(eq, arith, fuel)
}

} // verus!

verus! {

proof fn lemma_get_inverse_fuel(e: SExpr, ar: Arith, f: nat, g: nat)
    requires
        f <= g,
        spec_get_inverse(e, ar, f) is Some,
    ensures
        spec_get_inverse(e, ar, g) == spec_get_inverse(e, ar, f),
{
    match e {
        SExpr::Add { left, right } => {
            if spec_is_variable(*left) && !spec_is_variable(*right) {
                lemma_simp_fuel(smul(spec_negative_one(), *right), ar, f, g);
            } else if spec_is_variable(*right) && !spec_is_variable(*left) {
                lemma_simp_fuel(smul(spec_negative_one(), *left), ar, f, g);
            }
        },
        SExpr::AddFlat { args } => {
            if constant_terms(args, args.len() as int).len() != 0 {
                lemma_simp_fuel(
                    SExpr::AddFlat { args: constant_terms(args, args.len() as int) },
                    ar,
                    f,
                    g,
                );
            }
        },
        _ => {},
    }
}

/// More steps never change a solution that is found: when `spec_solve`
/// succeeds with `n` steps it gives the same equation with any `m >= n` steps.
pub proof fn lemma_solve_fuel(left: SExpr, right: SExpr, ar: Arith, n: nat, m: nat)
    requires
        n <= m,
        spec_solve(left, right, ar, n) is Some,
    ensures
        spec_solve(left, right, ar, m) == spec_solve(left, right, ar, n),
    decreases n,
{
    let f = (n - 1) as nat;
    let g = (m - 1) as nat;
    lemma_get_inverse_fuel(left, ar, f, g);
    let (x, meth) = spec_get_inverse(left, ar, f).unwrap();
    match meth {
        SpecMethod::Add => {
            lemma_simp_fuel(sadd(left, x), ar, f, g);
            lemma_simp_fuel(sadd(right, x), ar, f, g);
            lemma_solve_fuel(
                simp(sadd(left, x), ar, f).unwrap(),
                simp(sadd(right, x), ar, f).unwrap(),
                ar,
                f,
                g,
            );
        },
        SpecMethod::Pow(e) => {
            lemma_simp_fuel(spow(left, e), ar, f, g);
            lemma_simp_fuel(spow(right, e), ar, f, g);
        },
        SpecMethod::Apply(func) => {
            lemma_simp_fuel(sfun(func, left), ar, f, g);
            lemma_simp_fuel(sfun(func, right), ar, f, g);
            lemma_solve_fuel(
                simp(sfun(func, left), ar, f).unwrap(),
                simp(sfun(func, right), ar, f).unwrap(),
                ar,
                f,
                g,
            );
        },
        SpecMethod::Nothing => {
            if left is AddFlat && left->AddFlat_args.len() == 1 {
                lemma_solve_fuel(left->AddFlat_args[0], right, ar, f, g);
            }
        },
    }
}

/// An equation whose left side is a variable, a number or a product is left
/// as it is: no operation on its left side is undone.
pub proof fn lemma_solve_stops(left: SExpr, right: SExpr, ar: Arith, n: nat)
    requires
        n >= 1,
        left is Variable || left is VarSimple || left is Number || left is Mul || left is MulFlat
            || left is NONE,
    ensures
        spec_solve(left, right, ar, n) == Some((left, right)),
{
}

/// A power on the left side is undone in one step, by raising both sides to
/// the inverse of its exponent.
pub proof fn lemma_solve_power(b: SExpr, e: SExpr, right: SExpr, ar: Arith, n: nat)
    requires
        n >= 1,
        simp(spow(spow(b, e), spow(e, spec_negative_one())), ar, (n - 1) as nat) is Some,
        simp(spow(right, spow(e, spec_negative_one())), ar, (n - 1) as nat) is Some,
    ensures
        spec_solve(spow(b, e), right, ar, n) == Some(
            (
                simp(spow(spow(b, e), spow(e, spec_negative_one())), ar, (n - 1) as nat).unwrap(),
                simp(spow(right, spow(e, spec_negative_one())), ar, (n - 1) as nat).unwrap(),
            ),
        ),
{
}

/// A logarithm or an exponential on the left side is undone by its inverse:
/// solving `ln(u) = r` goes on with `u = exp(r)` and solving `exp(u) = r` with
/// `u = ln(r)`, the right side simplified.
pub proof fn lemma_solve_inverse_function(u: SExpr, right: SExpr, ar: Arith, n: nat)
    requires
        n >= 2,
        u != SExpr::NONE,
    ensures
        simp(sfun("exp"@, right), ar, (n - 1) as nat) is Some ==> spec_solve(
            sfun("ln"@, u),
            right,
            ar,
            n,
        ) == spec_solve(u, simp(sfun("exp"@, right), ar, (n - 1) as nat).unwrap(), ar, (n - 1) as nat),
        simp(sfun("ln"@, right), ar, (n - 1) as nat) is Some ==> spec_solve(
            sfun("exp"@, u),
            right,
            ar,
            n,
        ) == spec_solve(u, simp(sfun("ln"@, right), ar, (n - 1) as nat).unwrap(), ar, (n - 1) as nat),
{
    let f = (n - 1) as nat;
    reveal_strlit("ln");
    reveal_strlit("exp");
    reveal_strlit("cos");
    reveal_strlit("sin");
    reveal_strlit("tan");
    assert("ln"@ =~= seq!['l', 'n']);
    assert("exp"@ =~= seq!['e', 'x', 'p']);
    assert(inverse_name("ln"@) == "exp"@);
    assert(inverse_name("exp"@) == "ln"@) by {
        assert("exp"@ != "ln"@);
    }
    lemma_simp_cancels_inverse(u, ar, f);
}

/// A constant added to a variable is subtracted from both sides: solving
/// `v + c = m` for numbers `c` and `m` gives `v = m + (-1*c)`, with the numbers
/// computed by the back end, wherever the back end cancels `c` (`0 + c` plus
/// `-1*c` reads zero, as it does for exact sums).
pub proof fn lemma_solve_sum(v: SpecToken, c: SpecToken, m: SpecToken, ar: Arith, n: nat)
    requires
        n >= 5,
        c.token_type == TokenType::Number,
        is_zero_text(ar(NumOp::Add, ar(NumOp::Add, seq!['0'], c.value), ar(NumOp::Mul, seq!['-', '1'], c.value))),
    ensures
        spec_solve(sadd(SExpr::Variable(v), SExpr::Number(c)), SExpr::Number(m), ar, n) == Some(
            (SExpr::Variable(v), snum(ar(NumOp::Add, m.value, ar(NumOp::Mul, seq!['-', '1'], c.value)))),
        ),
{
    let f0 = (n - 1) as nat;
    let f1 = (f0 - 1) as nat;
    let f2 = (f1 - 1) as nat;
    let x = SExpr::Variable(v);
    let cn = SExpr::Number(c);
    let mm = SExpr::Number(m);
    let k = ar(NumOp::Mul, seq!['-', '1'], c.value);
    let nk = snum(k);
    let left = sadd(x, cn);
    let r = snum(ar(NumOp::Add, m.value, k));
    lemma_simp_atoms(x, ar, f2);
    lemma_simp_atoms(cn, ar, f1);
    lemma_simp_atoms(cn, ar, f2);
    lemma_simp_atoms(spec_negative_one(), ar, f1);
    lemma_simp_atoms(nk, ar, f1);
    lemma_simp_atoms(mm, ar, f1);
    // the constant to add: -1*c
    assert(simp_mul(spec_negative_one(), cn, ar, f1) == Some(nk));
    assert(simp(smul(spec_negative_one(), cn), ar, f0) == Some(nk));
    assert(spec_get_inverse(left, ar, f0) == Some((nk, SpecMethod::Add)));
    // the left side becomes the sum of the single term `v`
    assert(simp_add(x, cn, ar, f2) == Some(left));
    assert(simp(left, ar, f1) == Some(left));
    let args = seq![x, cn, nk];
    assert(sum_collect(args, 0, ar, f2) == Some(
        Collect { nums: seq!['0'], other: Seq::<SExpr>::empty(), vars: Seq::<(Seq<char>, SExpr)>::empty() },
    ));
    assert(sum_collect(args, 1, ar, f2) == Some(
        Collect { nums: seq!['0'], other: seq![x], vars: Seq::<(Seq<char>, SExpr)>::empty() },
    ));
    assert(args[1] == cn && args[2] == nk);
    let n2 = ar(NumOp::Add, seq!['0'], c.value);
    assert(sum_collect(args, 2, ar, f2) == Some(
        Collect { nums: n2, other: seq![x], vars: Seq::<(Seq<char>, SExpr)>::empty() },
    ));
    assert(sum_collect(args, 3, ar, f2) == Some(
        Collect { nums: ar(NumOp::Add, n2, k), other: seq![x], vars: Seq::<(Seq<char>, SExpr)>::empty() },
    ));
    let c3 = sum_collect(args, 3, ar, f2).unwrap();
    assert(c3.other == seq![x] && c3.vars.len() == 0 && is_zero_text(c3.nums));
    assert(finish_sum(c3) =~= seq![x]);
    assert(simp(SExpr::AddFlat { args }, ar, f1) == Some(SExpr::AddFlat { args: seq![x] }));
    assert(simp_add(left, nk, ar, f1) == Some(SExpr::AddFlat { args: seq![x] }));
    assert(simp(sadd(left, nk), ar, f0) == Some(SExpr::AddFlat { args: seq![x] }));
    // the right side becomes m + (-1*c)
    assert(simp_add(mm, nk, ar, f1) == Some(r));
    assert(simp(sadd(mm, nk), ar, f0) == Some(r));
    // nothing is left to undo
    assert(seq![x][0] == x && spec_is_variable(x));
    assert(constant_terms(seq![x], 0) =~= Seq::<SExpr>::empty());
    assert(constant_terms(seq![x], 1) =~= Seq::<SExpr>::empty());
    assert(spec_get_inverse(SExpr::AddFlat { args: seq![x] }, ar, f1) == Some(
        (SExpr::NONE, SpecMethod::Nothing),
    ));
    assert(spec_solve(x, r, ar, f1) == Some((x, r)));
    assert(spec_solve(SExpr::AddFlat { args: seq![x] }, r, ar, f0) == Some((x, r)));
}

/// The same with the constant first: solving `c + v = m` gives
/// `v = m + (-1*c)` wherever the back end cancels `c`.
pub proof fn lemma_solve_sum_constant_first(v: SpecToken, c: SpecToken, m: SpecToken, ar: Arith, n: nat)
    requires
        n >= 5,
        c.token_type == TokenType::Number,
        is_zero_text(ar(NumOp::Add, ar(NumOp::Add, seq!['0'], c.value), ar(NumOp::Mul, seq!['-', '1'], c.value))),
    ensures
        spec_solve(sadd(SExpr::Number(c), SExpr::Variable(v)), SExpr::Number(m), ar, n) == Some(
            (SExpr::Variable(v), snum(ar(NumOp::Add, m.value, ar(NumOp::Mul, seq!['-', '1'], c.value)))),
        ),
{
    let f0 = (n - 1) as nat;
    let f1 = (f0 - 1) as nat;
    let f2 = (f1 - 1) as nat;
    let x = SExpr::Variable(v);
    let cn = SExpr::Number(c);
    let mm = SExpr::Number(m);
    let k = ar(NumOp::Mul, seq!['-', '1'], c.value);
    let nk = snum(k);
    let left = sadd(cn, x);
    let r = snum(ar(NumOp::Add, m.value, k));
    lemma_simp_atoms(x, ar, f2);
    lemma_simp_atoms(cn, ar, f1);
    lemma_simp_atoms(cn, ar, f2);
    lemma_simp_atoms(spec_negative_one(), ar, f1);
    lemma_simp_atoms(nk, ar, f1);
    lemma_simp_atoms(mm, ar, f1);
    // the constant to add: -1*c
    assert(simp_mul(spec_negative_one(), cn, ar, f1) == Some(nk));
    assert(simp(smul(spec_negative_one(), cn), ar, f0) == Some(nk));
    assert(spec_get_inverse(left, ar, f0) == Some((nk, SpecMethod::Add)));
    // the left side becomes the sum of the single term `v`
    assert(simp_add(cn, x, ar, f2) == Some(left));
    assert(simp(left, ar, f1) == Some(left));
    let args = seq![cn, x, nk];
    assert(sum_collect(args, 0, ar, f2) == Some(
        Collect { nums: seq!['0'], other: Seq::<SExpr>::empty(), vars: Seq::<(Seq<char>, SExpr)>::empty() },
    ));
    let n1 = ar(NumOp::Add, seq!['0'], c.value);
    assert(sum_collect(args, 1, ar, f2) == Some(
        Collect { nums: n1, other: Seq::<SExpr>::empty(), vars: Seq::<(Seq<char>, SExpr)>::empty() },
    ));
    assert(args[0] == cn && args[1] == x && args[2] == nk);
    let n2 = n1;
    assert(sum_collect(args, 2, ar, f2) == Some(
        Collect { nums: n2, other: seq![x], vars: Seq::<(Seq<char>, SExpr)>::empty() },
    ));
    assert(sum_collect(args, 3, ar, f2) == Some(
        Collect { nums: ar(NumOp::Add, n2, k), other: seq![x], vars: Seq::<(Seq<char>, SExpr)>::empty() },
    ));
    let c3 = sum_collect(args, 3, ar, f2).unwrap();
    assert(c3.other == seq![x] && c3.vars.len() == 0 && is_zero_text(c3.nums));
    assert(finish_sum(c3) =~= seq![x]);
    assert(simp(SExpr::AddFlat { args }, ar, f1) == Some(SExpr::AddFlat { args: seq![x] }));
    assert(simp_add(left, nk, ar, f1) == Some(SExpr::AddFlat { args: seq![x] }));
    assert(simp(sadd(left, nk), ar, f0) == Some(SExpr::AddFlat { args: seq![x] }));
    // the right side becomes m + (-1*c)
    assert(simp_add(mm, nk, ar, f1) == Some(r));
    assert(simp(sadd(mm, nk), ar, f0) == Some(r));
    // nothing is left to undo
    assert(seq![x][0] == x && spec_is_variable(x));
    assert(constant_terms(seq![x], 0) =~= Seq::<SExpr>::empty());
    assert(constant_terms(seq![x], 1) =~= Seq::<SExpr>::empty());
    assert(spec_get_inverse(SExpr::AddFlat { args: seq![x] }, ar, f1) == Some(
        (SExpr::NONE, SpecMethod::Nothing),
    ));
    assert(spec_solve(x, r, ar, f1) == Some((x, r)));
    assert(spec_solve(SExpr::AddFlat { args: seq![x] }, r, ar, f0) == Some((x, r)));
}

} // verus!
