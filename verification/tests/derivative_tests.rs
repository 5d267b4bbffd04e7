use symcalc::math::derivative::{derivative, try_derivative};
use symcalc::math::number::NumOp;
use symcalc::math::simplify::simplify;
use symcalc::preprocess::token::{Token, TokenType};
use symcalc::preprocess::translator;
use symcalc::preprocess::types::{number, one, zero, Expression};

fn float_arith(op: NumOp, a: &String, b: &String) -> String {
    let x = a.parse::<f64>().unwrap();
    let y = b.parse::<f64>().unwrap();
    match op {
        NumOp::Add => (x + y).to_string(),
        NumOp::Mul => (x * y).to_string(),
        NumOp::Pow => x.powf(y).to_string(),
    }
}

fn var(name: &str) -> Expression {
    Expression::Variable(Token { token_type: TokenType::Variable, token_value: name.to_string() })
}

/// Simplifies the formula, differentiates it, and simplifies the result.
fn differentiated(input: &str) -> String {
    let e = simplify(translator::new().translate(input.to_string()), &float_arith);
    let d = derivative(e, &float_arith);
    simplify(d, &float_arith).to_text()
}

#[test]
fn power_rule() {
    assert_eq!(differentiated("x^2"), "2x");
    assert_eq!(differentiated("x^3"), "(3*(x^2))");
}

#[test]
fn constant_multiple() {
    assert_eq!(differentiated("3x"), "3");
}

#[test]
fn sum_rule() {
    assert_eq!(differentiated("x+1"), "1");
}

#[test]
fn chain_rule_for_sine() {
    assert_eq!(differentiated("sin(x)"), "(1*cos(x))");
    assert_eq!(differentiated("2*sin(x)"), "cos(x)*2");
}

#[test]
fn chain_rule_for_logarithm() {
    assert_eq!(differentiated("ln(x)"), "(1*(x^-1))");
}

#[test]
fn product_rule_on_flat_products() {
    assert_eq!(differentiated("x*y*z"), "y*z+x*z+x*y");
    assert_eq!(differentiated("x*y*2"), "(2*y+x)");
}

#[test]
fn numbers_and_variables() {
    assert_eq!(derivative(number("4".to_string()), &float_arith), zero());
    assert_eq!(derivative(var("x"), &float_arith), one());
}

#[test]
fn variable_exponent_goes_through_exp_and_ln() {
    let e = translator::new().translate("x^y".to_string());
    assert_eq!(
        derivative(e, &float_arith).to_text(),
        "(((y*(1*(x^-1)))+(1*ln(x)))*exp((y*ln(x))))"
    );
}

#[test]
fn functions_without_a_rule_give_none() {
    let e = translator::new().translate("sqrt(x)".to_string());
    assert_eq!(derivative(e, &float_arith), Expression::NONE);
}

#[test]
fn power_of_non_variable_gives_none() {
    let e = translator::new().translate("(x+1)^2".to_string());
    assert_eq!(derivative(e, &float_arith), Expression::NONE);
}

#[test]
fn try_derivative_agrees_with_derivative() {
    for input in ["x^2", "sin(x)", "x*y*z"] {
        let e = simplify(translator::new().translate(input.to_string()), &float_arith);
        let a = try_derivative(e.clone(), &float_arith, 300).unwrap();
        assert_eq!(a, derivative(e, &float_arith));
    }
}

#[test]
fn product_rule_on_two_factors() {
    let t = translator::new();
    let e = Expression::Mul {
        left: Box::new(t.translate("x^2".to_string())),
        right: Box::new(t.translate("sin(x)".to_string())),
    };
    assert_eq!(derivative(e, &float_arith).to_text(), "(((x^2)*(1*cos(x)))+(2x*sin(x)))");
}

#[test]
fn power_rule_before_the_last_simplification() {
    let e = translator::new().translate("x^3".to_string());
    assert_eq!(derivative(e, &float_arith).to_text(), "(3*(x^2))");
}

#[test]
fn flat_sum_rule() {
    let t = translator::new();
    let e = Expression::AddFlat {
        args: vec![Box::new(var("x")), Box::new(t.translate("x^2".to_string()))],
    };
    assert_eq!(derivative(e, &float_arith).to_text(), "1+2x");
}
