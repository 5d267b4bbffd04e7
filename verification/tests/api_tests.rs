use symcalc::http::api::{handle, handle_deriv, handle_simplify, handle_solve, Outcome};
use symcalc::math::number::NumOp;

fn float_arith(op: NumOp, a: &String, b: &String) -> String {
    let x = a.parse::<f64>().unwrap();
    let y = b.parse::<f64>().unwrap();
    match op {
        NumOp::Add => (x + y).to_string(),
        NumOp::Mul => (x * y).to_string(),
        NumOp::Pow => x.powf(y).to_string(),
    }
}

const FUEL: u64 = 200;

fn answer(body: &str) -> Option<String> {
    Some(format!("HTTP/1.1 200 OK\r\n\r\n\r\n{}\r\n", body))
}

fn sent(body: &str) -> Outcome {
    Outcome::Send(format!("HTTP/1.1 200 OK\r\n\r\n\r\n{}\r\n", body))
}

#[test]
fn routes_solve_requests() {
    let req = "POST /solve HTTP/1.1\r\nHost: localhost\r\n\r\nx^2=9".to_string();
    assert_eq!(handle(req, &float_arith, FUEL), sent("x=3\n"));
}

#[test]
fn routes_derivative_requests() {
    let req = "GET /deriv HTTP/1.1\r\n\r\nx^2".to_string();
    assert_eq!(handle(req, &float_arith, FUEL), sent("2x"));
}

#[test]
fn routes_simplify_requests() {
    let req = "GET /simplify HTTP/1.1\r\n\r\n2+3".to_string();
    assert_eq!(handle(req, &float_arith, FUEL), sent("5"));
}

#[test]
fn trailing_nul_bytes_of_the_buffer_are_harmless() {
    let req = "GET /simplify HTTP/1.1\r\n\r\n2+3\0\0\0".to_string();
    assert_eq!(handle(req, &float_arith, FUEL), sent("5"));
}

#[test]
fn body_is_the_last_piece_read_from_the_left() {
    let req = "GET /simplify HTTP/1.1\r\n\r\n\r\n2".to_string();
    assert_eq!(handle(req, &float_arith, FUEL), sent("(NONE)"));
}

#[test]
fn unknown_path_gets_no_reply() {
    let req = "GET /other HTTP/1.1\r\n\r\nx".to_string();
    assert_eq!(handle(req, &float_arith, FUEL), Outcome::Ignore);
}

#[test]
fn request_line_without_path_gets_no_reply() {
    assert_eq!(handle("GET\r\n\r\nx".to_string(), &float_arith, FUEL), Outcome::Fail);
    assert_eq!(handle(String::new(), &float_arith, FUEL), Outcome::Fail);
}

#[test]
fn failing_formula_fails_the_request() {
    let req = "GET /simplify HTTP/1.1\r\n\r\n(x".to_string();
    assert_eq!(handle(req, &float_arith, FUEL), Outcome::Fail);
}

#[test]
fn solve_needs_an_equals_sign() {
    assert_eq!(handle_solve("x^2".to_string(), &float_arith, FUEL), None);
}

#[test]
fn solve_reads_the_text_between_the_first_two_equals_signs() {
    assert_eq!(handle_solve("x^2=9=4".to_string(), &float_arith, FUEL), answer("x=3\n"));
}

#[test]
fn direct_handlers() {
    assert_eq!(handle_simplify("3x+4x+1".to_string(), &float_arith, FUEL), answer("1+7x"));
    assert_eq!(handle_deriv("sin(x)".to_string(), &float_arith, FUEL), answer("(1*cos(x))"));
}

#[test]
fn unparsable_formula_gets_no_reply() {
    assert_eq!(handle_simplify("(x".to_string(), &float_arith, FUEL), None);
}
