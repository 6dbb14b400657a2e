use simple_math_compiler_rs::ast::Expr;

/// The tree-walking evaluator that callers of the library run on a
/// parsed expression: IEEE-754 double arithmetic, `^` as real power.
fn eval(expr: Expr) -> f64 {
    match expr {
        Expr::Divide(e1, e2) => eval(*e1) / eval(*e2),
        Expr::Multiply(e1, e2) => eval(*e1) * eval(*e2),
        Expr::Add(e1, e2) => eval(*e1) + eval(*e2),
        Expr::Subtract(e1, e2) => eval(*e1) - eval(*e2),
        Expr::Power(e1, e2) => eval(*e1).powf(eval(*e2)),
        Expr::Number(num) => num as f64,
    }
}

#[test]
fn test() {
    let expr = Expr::parse("3 * 2").unwrap();
    assert_eq!(eval(expr), 6 as f64);
}

#[test]
fn test2() {
    let expr = Expr::parse("7 - 3 - 2").unwrap();
    assert_eq!(eval(expr), 2 as f64);
}

#[test]
fn test3() {
    let expr = Expr::parse("5 + 4 * 2").unwrap();
    assert_eq!(eval(expr), 13 as f64);
}

#[test]
fn test4() {
    let expr = Expr::parse("10 / 2 + 3").unwrap();
    assert_eq!(eval(expr), 8 as f64);
}

#[test]
fn test5() {
    let expr = Expr::parse("2 ^ 3 + 4").unwrap();
    assert_eq!(eval(expr), 12 as f64);
}

#[test]
fn test6() {
    let expr = Expr::parse("2 * (3 + 4)").unwrap();
    assert_eq!(eval(expr), 14 as f64);
}

#[test]
fn test7() {
    let expr = Expr::parse("8 / (2 * 2)").unwrap();
    assert_eq!(eval(expr), 2 as f64);
}

#[test]
fn test8() {
    let expr = Expr::parse("2 ^ (3 + 2)").unwrap();
    assert_eq!(eval(expr), 32 as f64);
}

#[test]
fn test9() {
    let expr = Expr::parse("2 * 3 - 4").unwrap();
    assert_eq!(eval(expr), 2 as f64);
}

#[test]
fn test10() {
    let expr = Expr::parse("5 + 4 / 2").unwrap();
    assert_eq!(eval(expr), 7 as f64);
}

#[test]
fn test11() {
    let expr = Expr::parse("2 ^ 3 - 1").unwrap();
    assert_eq!(eval(expr), 7 as f64);
}

#[test]
fn test12() {
    let expr = Expr::parse("10 / (2 + 3)").unwrap();
    assert_eq!(eval(expr), 2 as f64);
}

#[test]
fn test13() {
    let expr = Expr::parse("2 * (3 - 1)").unwrap();
    assert_eq!(eval(expr), 4 as f64);
}

#[test]
fn test14() {
    let expr = Expr::parse("8 / (2 ^ 2)").unwrap();
    assert_eq!(eval(expr), 2 as f64);
}

#[test]
fn test15() {
    let expr = Expr::parse("2 ^ (3 - 2)").unwrap();
    assert_eq!(eval(expr), 2 as f64);
}

#[test]
fn test16() {
    let expr = Expr::parse("(7-3-2) ^ 2").unwrap();
    assert_eq!(eval(expr), 4 as f64);
}
