use symcalc::math::number::NumOp;
use symcalc::math::simplify::simplify;
use symcalc::math::solve::{solve, try_solve};
use symcalc::preprocess::translator;
use symcalc::preprocess::types::Equation;

fn float_arith(op: NumOp, a: &String, b: &String) -> String {
    let x = a.parse::<f64>().unwrap();
    let y = b.parse::<f64>().unwrap();
    match op {
        NumOp::Add => (x + y).to_string(),
        NumOp::Mul => (x * y).to_string(),
        NumOp::Pow => x.powf(y).to_string(),
    }
}

fn equation(left: &str, right: &str) -> Equation {
    let t = translator::new();
    Equation {
        left: simplify(t.translate(left.to_string()), &float_arith),
        right: simplify(t.translate(right.to_string()), &float_arith),
    }
}

#[test]
fn undoes_a_power() {
    assert_eq!(solve(equation("x^2", "9"), &float_arith).to_text(), "x=3\n");
}

#[test]
fn undoes_a_logarithm() {
    assert_eq!(solve(equation("ln(x)", "2"), &float_arith).to_text(), "x=exp(2)\n");
}

#[test]
fn undoes_an_exponential() {
    assert_eq!(solve(equation("exp(x)", "5"), &float_arith).to_text(), "x=ln(5)\n");
}

#[test]
fn solved_equation_is_left_alone() {
    assert_eq!(solve(equation("x", "5"), &float_arith).to_text(), "x=5\n");
    assert_eq!(solve(equation("3x", "5"), &float_arith).to_text(), "3x=5\n");
}

#[test]
fn subtracts_a_constant() {
    assert_eq!(solve(equation("x+3", "5"), &float_arith).to_text(), "x=2\n");
    assert_eq!(solve(equation("3+x", "5"), &float_arith).to_text(), "x=2\n");
}

#[test]
fn sum_without_a_constant_is_left_alone() {
    assert_eq!(solve(equation("x+y+3", "5"), &float_arith).to_text(), "x+y=2\n");
}

#[test]
fn function_without_inverse_does_not_terminate() {
    assert!(try_solve(equation("sin(x)", "1"), &float_arith, 60).is_none());
}

#[test]
fn try_solve_agrees_with_solve() {
    let a = try_solve(equation("x^2", "9"), &float_arith, 100).unwrap();
    assert_eq!(a.to_text(), solve(equation("x^2", "9"), &float_arith).to_text());
}
