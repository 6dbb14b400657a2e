use simple_math_compiler_rs::ast::Expr;
use simple_math_compiler_rs::error::EvalError;
use simple_math_compiler_rs::token::tokenize;
use simple_math_compiler_rs::token::Token;

/// The same evaluator a caller of the library runs on a parsed tree.
fn evaluate(expr: Expr) -> f64 {
    match expr {
        Expr::Divide(e1, e2) => evaluate(*e1) / evaluate(*e2),
        Expr::Multiply(e1, e2) => evaluate(*e1) * evaluate(*e2),
        Expr::Add(e1, e2) => evaluate(*e1) + evaluate(*e2),
        Expr::Subtract(e1, e2) => evaluate(*e1) - evaluate(*e2),
        Expr::Power(e1, e2) => evaluate(*e1).powf(evaluate(*e2)),
        Expr::Number(num) => num as f64,
    }
}

fn parse_and_evaluate(input: &str) -> Result<f64, EvalError> {
    let expr = Expr::parse(input)?;
    Ok(evaluate(expr))
}

#[test]
fn integer_literal_is_its_own_value() {
    assert_eq!(parse_and_evaluate("0").unwrap(), 0.0);
    assert_eq!(parse_and_evaluate("42").unwrap(), 42.0);
    assert_eq!(parse_and_evaluate("2147483647").unwrap(), 2147483647 as f64);
    assert_eq!(Expr::parse("7").unwrap(), Expr::Number(7));
}

#[test]
fn addition_of_two_numbers() {
    assert_eq!(parse_and_evaluate("3 + 4").unwrap(), 7.0);
    assert_eq!(
        Expr::parse("3 + 4").unwrap(),
        Expr::Add(Box::new(Expr::Number(3)), Box::new(Expr::Number(4)))
    );
}

#[test]
fn subtraction_of_two_numbers() {
    assert_eq!(parse_and_evaluate("3 - 4").unwrap(), -1.0);
}

#[test]
fn multiplication_of_two_numbers() {
    assert_eq!(parse_and_evaluate("3 * 4").unwrap(), 12.0);
}

#[test]
fn division_of_two_numbers() {
    assert_eq!(parse_and_evaluate("12 / 4").unwrap(), 3.0);
}

#[test]
fn power_of_two_numbers() {
    assert_eq!(parse_and_evaluate("2 ^ 3").unwrap(), 8.0);
}

#[test]
fn power_chain_groups_to_the_right() {
    assert_eq!(parse_and_evaluate("2 ^ 3 ^ 2").unwrap(), 512.0);
    assert_eq!(
        Expr::parse("2 ^ 3 ^ 2").unwrap(),
        Expr::Power(
            Box::new(Expr::Number(2)),
            Box::new(Expr::Power(
                Box::new(Expr::Number(3)),
                Box::new(Expr::Number(2))
            ))
        )
    );
}

#[test]
fn additive_chain_groups_to_the_left() {
    assert_eq!(
        Expr::parse("7 - 3 - 2").unwrap(),
        Expr::Subtract(
            Box::new(Expr::Subtract(
                Box::new(Expr::Number(7)),
                Box::new(Expr::Number(3))
            )),
            Box::new(Expr::Number(2))
        )
    );
}

#[test]
fn multiplicative_chain_groups_to_the_left() {
    assert_eq!(parse_and_evaluate("8 / 2 / 2").unwrap(), 2.0);
    assert_eq!(
        Expr::parse("8 / 2 / 2").unwrap(),
        Expr::Divide(
            Box::new(Expr::Divide(
                Box::new(Expr::Number(8)),
                Box::new(Expr::Number(2))
            )),
            Box::new(Expr::Number(2))
        )
    );
}

#[test]
fn precedence_shapes_the_tree() {
    assert_eq!(
        Expr::parse("5 + 4 * 2").unwrap(),
        Expr::Add(
            Box::new(Expr::Number(5)),
            Box::new(Expr::Multiply(
                Box::new(Expr::Number(4)),
                Box::new(Expr::Number(2))
            ))
        )
    );
    assert_eq!(
        Expr::parse("2 ^ 3 + 4").unwrap(),
        Expr::Add(
            Box::new(Expr::Power(
                Box::new(Expr::Number(2)),
                Box::new(Expr::Number(3))
            )),
            Box::new(Expr::Number(4))
        )
    );
    assert_eq!(
        Expr::parse("2 * (3 + 4)").unwrap(),
        Expr::Multiply(
            Box::new(Expr::Number(2)),
            Box::new(Expr::Add(
                Box::new(Expr::Number(3)),
                Box::new(Expr::Number(4))
            ))
        )
    );
}

#[test]
fn division_by_zero_is_infinite_not_an_error() {
    assert_eq!(parse_and_evaluate("1 / 0").unwrap(), f64::INFINITY);
    assert!(parse_and_evaluate("0 / 0").unwrap().is_nan());
}

#[test]
fn malformed_input_is_a_syntax_error() {
    assert_eq!(Expr::parse("2 +"), Err(EvalError::SyntaxError));
    assert_eq!(Expr::parse("(3"), Err(EvalError::SyntaxError));
    assert_eq!(Expr::parse("2 $ 3"), Err(EvalError::SyntaxError));
    assert_eq!(Expr::parse(""), Err(EvalError::SyntaxError));
    assert_eq!(Expr::parse("1 2"), Err(EvalError::SyntaxError));
    assert_eq!(Expr::parse("3 + 4)"), Err(EvalError::SyntaxError));
}

#[test]
fn oversized_literal_is_a_number_format_error() {
    assert_eq!(Expr::parse("2147483648"), Err(EvalError::NumberFormatError));
    assert_eq!(
        Expr::parse("99999999999999999999"),
        Err(EvalError::NumberFormatError)
    );
    assert_eq!(
        Expr::parse("1 + 99999999999999999999"),
        Err(EvalError::NumberFormatError)
    );
}

#[test]
fn whitespace_between_tokens_is_insignificant() {
    assert_eq!(parse_and_evaluate("  2  +\t3 ").unwrap(), 5.0);
    assert_eq!(Expr::parse("2+3").unwrap(), Expr::parse(" 2 + 3 ").unwrap());
}

#[test]
fn reparsing_a_printed_result_gives_the_same_value() {
    let first = parse_and_evaluate("5 + 4 * 2").unwrap();
    let printed = format!("{}", first);
    let second = parse_and_evaluate(&printed).unwrap();
    assert!((first - second).abs() < 1e-9);
}

#[test]
fn fully_parenthesized_spelling_gives_the_same_tree() {
    assert_eq!(
        Expr::parse("5 + 4 * 2").unwrap(),
        Expr::parse("(5 + (4 * 2))").unwrap()
    );
    assert_eq!(
        Expr::parse("7 - 3 - 2").unwrap(),
        Expr::parse("((7 - 3) - 2)").unwrap()
    );
    assert_eq!(
        Expr::parse("2 ^ 3 ^ 2").unwrap(),
        Expr::parse("(2 ^ (3 ^ 2))").unwrap()
    );
}

#[test]
fn tokenizer_splits_into_expected_tokens() {
    assert_eq!(
        tokenize("1 + 23"),
        Ok(vec![Token::Number(1), Token::Plus, Token::Number(23)])
    );
    assert_eq!(
        tokenize("(10^2)/5*3-4"),
        Ok(vec![
            Token::LParen,
            Token::Number(10),
            Token::Caret,
            Token::Number(2),
            Token::RParen,
            Token::Slash,
            Token::Number(5),
            Token::Star,
            Token::Number(3),
            Token::Minus,
            Token::Number(4)
        ])
    );
    assert_eq!(tokenize("2 $ 3"), Err(EvalError::SyntaxError));
}

#[test]
fn error_messages_describe_the_fault() {
    assert_eq!(
        EvalError::SyntaxError.message(),
        "input does not match the expression grammar"
    );
    assert_eq!(
        EvalError::NumberFormatError.message(),
        "integer literal is out of range"
    );
}
