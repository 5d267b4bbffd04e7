use symcalc::preprocess::lexer;
use symcalc::preprocess::parser;
use symcalc::preprocess::token::{Token, TokenType};
use symcalc::preprocess::translator;
use symcalc::preprocess::types::{create_function, negative_one, number, power, product, sum, Expression};

fn var(name: &str) -> Expression {
    Expression::Variable(Token { token_type: TokenType::Variable, token_value: name.to_string() })
}

fn num(text: &str) -> Expression {
    number(text.to_string())
}

fn translate(input: &str) -> Expression {
    translator::new().translate(input.to_string())
}

#[test]
fn parses_a_variable() {
    assert_eq!(translate("x"), var("x"));
}

#[test]
fn parses_sum_of_numbers() {
    assert_eq!(translate("3+4"), sum(num("3"), num("4")));
}

#[test]
fn power_binds_tighter_than_product() {
    assert_eq!(translate("2*x^2"), product(num("2"), power(var("x"), num("2"))));
}

#[test]
fn product_binds_tighter_than_sum() {
    assert_eq!(translate("1+2*3"), sum(num("1"), product(num("2"), num("3"))));
    assert_eq!(translate("1*2+3"), sum(product(num("1"), num("2")), num("3")));
}

#[test]
fn sums_group_to_the_left() {
    assert_eq!(translate("1+2+3"), sum(sum(num("1"), num("2")), num("3")));
}

#[test]
fn difference_and_quotient() {
    assert_eq!(translate("a-b"), sum(var("a"), product(negative_one(), var("b"))));
    assert_eq!(translate("a/b"), product(var("a"), power(var("b"), negative_one())));
}

#[test]
fn function_application_and_parentheses() {
    assert_eq!(translate("sin(x)"), create_function("sin", var("x")));
    assert_eq!(translate("(1+x)*2"), product(sum(num("1"), var("x")), num("2")));
}

#[test]
fn leading_minus() {
    assert_eq!(translate("-3"), product(negative_one(), num("3")));
    // A negated variable becomes a number node that keeps the variable's token.
    assert_eq!(
        translate("-x"),
        product(
            negative_one(),
            Expression::Number(Token { token_type: TokenType::Variable, token_value: "x".to_string() })
        )
    );
}

#[test]
fn parse_through_the_parser_type() {
    let tokens = lexer::run("x^2".to_string());
    assert_eq!(parser::run(tokens), power(var("x"), num("2")));
}

#[test]
fn unclosed_parenthesis_runs_past_the_end() {
    assert!(translator::new().try_translate("(x".to_string(), 1000).is_none());
    assert!(parser::try_run(lexer::run("(x".to_string()), 1000).is_none());
}

#[test]
fn minus_before_function_does_not_terminate() {
    assert!(translator::new().try_translate("-sin(x)".to_string(), 100).is_none());
}

#[test]
fn short_token_lists_are_refused() {
    let one = vec![Token { token_type: TokenType::NULL, token_value: String::new() }];
    assert!(parser::try_run(one, 100).is_none());
}

#[test]
fn try_translate_agrees_with_translate() {
    for input in ["x", "2*x^2+3", "sin(x)/x", "(a+b)^c"] {
        let a = translator::new().try_translate(input.to_string(), 1000).unwrap();
        assert_eq!(a, translate(input));
    }
}

#[test]
fn display_of_parsed_trees() {
    assert_eq!(translate("2*x^2+3").to_text(), "((2*(x^2))+3)");
    assert_eq!(translate("sin(x)").to_text(), "sin(x)");
    assert_eq!(Expression::NONE.to_text(), "(NONE)");
}

#[test]
fn printed_trees_read_back() {
    let t = translator::new();
    for input in ["(x+2.5)*sin(y)^3", "ln(x^2)+3*y", "((a+b)+c)^(d*e)", "exp(cos(x*y))"] {
        let e = t.translate(input.to_string());
        let again = t.translate(e.to_text());
        assert_eq!(again, e);
    }
}
