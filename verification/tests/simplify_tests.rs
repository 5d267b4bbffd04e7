use symcalc::math::number::NumOp;
use symcalc::math::simplify::{simplify, try_simplify};
use symcalc::preprocess::token::{Token, TokenType};
use symcalc::preprocess::translator;
use symcalc::preprocess::types::{create_function, number, Expression};

/// The floating-point arithmetic that numbers are computed with.
fn float_arith(op: NumOp, a: &String, b: &String) -> String {
    let x = a.parse::<f64>().unwrap();
    let y = b.parse::<f64>().unwrap();
    match op {
        NumOp::Add => (x + y).to_string(),
        NumOp::Mul => (x * y).to_string(),
        NumOp::Pow => x.powf(y).to_string(),
    }
}

fn var(name: &str) -> Expression {
    Expression::Variable(Token { token_type: TokenType::Variable, token_value: name.to_string() })
}

fn simplified(input: &str) -> String {
    let e = translator::new().translate(input.to_string());
    simplify(e, &float_arith).to_text()
}

#[test]
fn folds_number_arithmetic() {
    assert_eq!(simplified("2+3"), "5");
    assert_eq!(simplified("2*3"), "6");
    assert_eq!(simplified("2^3"), "8");
    assert_eq!(simplified("2^0.5"), "1.4142135623730951");
}

#[test]
fn folds_with_floating_point_rounding() {
    assert_eq!(simplified("0.1+0.2"), "0.30000000000000004");
}

#[test]
fn trivial_powers() {
    assert_eq!(simplified("x^0"), "1");
    assert_eq!(simplified("x^1"), "x");
}

#[test]
fn coefficients_of_a_variable() {
    assert_eq!(simplified("3x"), "3x");
    assert_eq!(simplified("2*x*3"), "6x");
}

#[test]
fn collects_like_terms_in_a_sum() {
    assert_eq!(simplified("3x+4x+1"), "1+7x");
}

#[test]
fn binary_sum_of_like_terms_is_kept() {
    assert_eq!(simplified("3x+4x"), "(3x+4x)");
}

#[test]
fn cancels_inverse_functions() {
    assert_eq!(simplified("ln(exp(x))"), "x");
    assert_eq!(simplified("exp(ln(y))"), "y");
    assert_eq!(simplified("sin(exp(x))"), "sin(exp(x))");
}

#[test]
fn constant_folding_drops_zero_sum() {
    let args = vec![Box::new(number("2".to_string())), Box::new(var("x")), Box::new(number("-2".to_string()))];
    let e = simplify(Expression::AddFlat { args }, &float_arith);
    assert_eq!(e, Expression::AddFlat { args: vec![Box::new(var("x"))] });
}

#[test]
fn flat_product_collects_factors() {
    assert_eq!(simplified("x*y*2"), "2*x*y");
}

#[test]
fn powers_of_powers_multiply_exponents() {
    assert_eq!(simplified("(x^2)^3"), "(x^6)");
}

#[test]
fn exp_power_moves_into_the_exponent() {
    assert_eq!(simplified("exp(x)^2"), "exp(2x)");
}

#[test]
fn single_term_flat_sum_is_its_term() {
    let inner = create_function("ln", create_function("exp", var("x")));
    let e = simplify(Expression::AddFlat { args: vec![Box::new(inner.clone())] }, &float_arith);
    assert_eq!(e, inner);
}

#[test]
fn atoms_are_unchanged() {
    assert_eq!(simplify(var("x"), &float_arith), var("x"));
    assert_eq!(simplify(number("4".to_string()), &float_arith), number("4".to_string()));
    assert_eq!(simplify(Expression::NONE, &float_arith), Expression::NONE);
}

#[test]
fn cube_as_product_does_not_terminate() {
    let e = translator::new().translate("x*x*x".to_string());
    assert!(try_simplify(e, &float_arith, 100).is_none());
}

#[test]
fn try_simplify_agrees_with_simplify() {
    for input in ["2+3", "3x+4x+1", "x*y*2", "(x^2)^3"] {
        let e = translator::new().translate(input.to_string());
        let a = try_simplify(e.clone(), &float_arith, 500).unwrap();
        assert_eq!(a, simplify(e, &float_arith));
    }
}

#[test]
fn too_little_fuel_gives_none() {
    let e = translator::new().translate("2+3".to_string());
    assert!(try_simplify(e, &float_arith, 1).is_none());
}

#[test]
fn sum_of_products_with_different_powers_keeps_both() {
    assert_eq!(simplified("3*x^2+2*x^3"), "((3*(x^2))+(2*(x^3)))");
}

#[test]
fn sum_of_products_with_the_same_power_adds_coefficients() {
    assert_eq!(simplified("3*x^2+2*x^2"), "(5*(x^2))");
}

fn var_simple(name: &str, coefficient: &str) -> Expression {
    Expression::VarSimple {
        token: Token { token_type: TokenType::Variable, token_value: name.to_string() },
        mult: Box::new(number(coefficient.to_string())),
    }
}

#[test]
fn power_times_multiple_of_its_variable_raises_the_exponent() {
    let e = Expression::Mul {
        left: Box::new(Expression::Pow { base: Box::new(var("x")), exponent: Box::new(number("2".to_string())) }),
        right: Box::new(var_simple("x", "3")),
    };
    assert_eq!(simplify(e, &float_arith).to_text(), "(3*(x^3))");
}

#[test]
fn powers_of_a_multiple_are_multiplied_once() {
    let p = || Expression::Pow {
        base: Box::new(var_simple("x", "3")),
        exponent: Box::new(number("2".to_string())),
    };
    let e = Expression::MulFlat { args: vec![Box::new(p()), Box::new(p())] };
    assert_eq!(simplify(e, &float_arith).to_text(), "((3x^2)*(3x^2))");
}

#[test]
fn trivial_powers_of_a_sum() {
    assert_eq!(simplified("(x+y)^1"), "(x+y)");
    assert_eq!(simplified("(x+y)^0"), "1");
}
