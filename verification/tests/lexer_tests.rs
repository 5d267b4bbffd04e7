use symcalc::preprocess::lexer;
use symcalc::preprocess::token::{Token, TokenType};

fn kinds_and_texts(tokens: &[Token]) -> Vec<(TokenType, String)> {
    tokens.iter().map(|t| (t.token_type, t.token_value.clone())).collect()
}

fn tok(t: TokenType, v: &str) -> (TokenType, String) {
    (t, v.to_string())
}

#[test]
fn lexes_implicit_product() {
    let tokens = lexer::run(String::from("3x"));
    assert_eq!(
        kinds_and_texts(&tokens),
        vec![
            tok(TokenType::Number, "3"),
            tok(TokenType::Star, "*"),
            tok(TokenType::Variable, "x"),
            tok(TokenType::NULL, ""),
        ]
    );
}

#[test]
fn lexes_operators_functions_and_blanks() {
    let tokens = lexer::run(String::from("x^2 + sin(x)"));
    assert_eq!(
        kinds_and_texts(&tokens),
        vec![
            tok(TokenType::Variable, "x"),
            tok(TokenType::Caret, "^"),
            tok(TokenType::Number, "2"),
            tok(TokenType::Plus, "+"),
            tok(TokenType::Function, "sin"),
            tok(TokenType::LeftPara, "("),
            tok(TokenType::Variable, "x"),
            tok(TokenType::RightPara, ")"),
            tok(TokenType::NULL, ""),
        ]
    );
}

#[test]
fn lexes_decimal_numbers_and_all_operators() {
    let tokens = lexer::run(String::from("2.5*y-1/z"));
    assert_eq!(
        kinds_and_texts(&tokens),
        vec![
            tok(TokenType::Number, "2.5"),
            tok(TokenType::Star, "*"),
            tok(TokenType::Variable, "y"),
            tok(TokenType::Minus, "-"),
            tok(TokenType::Number, "1"),
            tok(TokenType::Slash, "/"),
            tok(TokenType::Variable, "z"),
            tok(TokenType::NULL, ""),
        ]
    );
}

#[test]
fn reads_equals_sign_as_plus() {
    let tokens = lexer::run(String::from("a=b"));
    assert_eq!(
        kinds_and_texts(&tokens),
        vec![
            tok(TokenType::Variable, "a"),
            tok(TokenType::Plus, "="),
            tok(TokenType::Variable, "b"),
            tok(TokenType::NULL, ""),
        ]
    );
}

#[test]
fn blank_between_digit_and_letter_gives_no_product() {
    let tokens = lexer::run(String::from("3 x"));
    assert_eq!(
        kinds_and_texts(&tokens),
        vec![tok(TokenType::Number, "3"), tok(TokenType::Variable, "x"), tok(TokenType::NULL, "")]
    );
}

#[test]
fn number_with_trailing_point() {
    let tokens = lexer::run(String::from("7.\t"));
    assert_eq!(kinds_and_texts(&tokens), vec![tok(TokenType::Number, "7."), tok(TokenType::NULL, "")]);
}

#[test]
fn empty_input_gives_only_the_end_marker() {
    let tokens = lexer::run(String::new());
    assert_eq!(kinds_and_texts(&tokens), vec![tok(TokenType::NULL, "")]);
}

#[test]
fn other_bytes_give_null_tokens() {
    // Each byte of the two-byte 'é' is read as a character of its own and
    // written back as two bytes, each of which the lexer cannot read.
    let tokens = lexer::run(String::from("é"));
    assert_eq!(kinds_and_texts(&tokens), vec![tok(TokenType::NULL, ""); 5]);
    let tokens = lexer::run(String::from("#"));
    assert_eq!(kinds_and_texts(&tokens), vec![tok(TokenType::NULL, ""), tok(TokenType::NULL, "")]);
}

#[test]
fn every_token_list_ends_with_the_marker() {
    for input in ["", "x", "12.5x^3", "  ", "sin(cos(y))*2", "((", "ab12"] {
        let tokens = lexer::run(String::from(input));
        let last = tokens.last().unwrap();
        assert_eq!(last.token_type, TokenType::NULL);
        assert_eq!(last.token_value, "");
    }
}

#[test]
fn long_words_are_functions() {
    let tokens = lexer::run(String::from("ab12"));
    assert_eq!(
        kinds_and_texts(&tokens),
        vec![tok(TokenType::Function, "ab"), tok(TokenType::Number, "12"), tok(TokenType::NULL, "")]
    );
    assert_eq!(tokens[0].text(), "ab");
}

#[test]
fn blanks_and_tabs_are_ignored() {
    let spaced = lexer::run(String::from(" x +\ty ^ 2.5 * cos( z )"));
    let packed = lexer::run(String::from("x+y^2.5*cos(z)"));
    assert_eq!(kinds_and_texts(&spaced), kinds_and_texts(&packed));
}

#[test]
fn token_texts_have_the_shape_of_their_kind() {
    let tokens = lexer::run(String::from("12.5x+sin(y)-7/z^2="));
    for t in &tokens {
        let v = &t.token_value;
        match t.token_type {
            TokenType::Number => {
                let mut parts = v.splitn(2, '.');
                let whole = parts.next().unwrap();
                assert!(!whole.is_empty() && whole.chars().all(|c| c.is_ascii_digit()));
                if let Some(frac) = parts.next() {
                    assert!(frac.chars().all(|c| c.is_ascii_digit()));
                }
            }
            TokenType::Variable => assert!(v.len() == 1 && v.chars().all(|c| c.is_ascii_alphabetic())),
            TokenType::Function => assert!(v.len() >= 2 && v.chars().all(|c| c.is_ascii_alphabetic())),
            TokenType::NULL => assert!(v.is_empty()),
            TokenType::Plus => assert!(v == "+" || v == "="),
            _ => assert_eq!(v.len(), 1),
        }
    }
}

#[test]
fn blanks_dropped_and_product_added() {
    // the blanks are dropped and a product is added after `3`:
    // the tokens of "3x + y" are those of "3*x+y"
    let tokens = lexer::run(String::from("3x + y"));
    assert_eq!(
        kinds_and_texts(&tokens),
        vec![
            tok(TokenType::Number, "3"),
            tok(TokenType::Star, "*"),
            tok(TokenType::Variable, "x"),
            tok(TokenType::Plus, "+"),
            tok(TokenType::Variable, "y"),
            tok(TokenType::NULL, ""),
        ]
    );
}

#[test]
fn plus_tokens_read_plus_without_equals() {
    let tokens = lexer::run(String::from("a+b-c*d+1"));
    for t in &tokens {
        if t.token_type == TokenType::Plus {
            assert_eq!(t.token_value, "+");
        }
    }
    let with_equals = lexer::run(String::from("a=b"));
    assert_eq!(kinds_and_texts(&with_equals)[1], tok(TokenType::Plus, "="));
}
