use optim::calc::{parse_calc, BinOp, Expr};

fn num(s: &str) -> Expr {
    Expr::Num(s.chars().collect())
}

fn bin(op: BinOp, a: Expr, b: Expr) -> Expr {
    Expr::Bin(op, Box::new(a), Box::new(b))
}

#[test]
fn multiplication_binds_tighter() {
    assert_eq!(
        parse_calc("2+2*4"),
        Some(bin(BinOp::Add, num("2"), bin(BinOp::Mul, num("2"), num("4"))))
    );
    assert_eq!(
        parse_calc("(2+2)*4"),
        Some(bin(BinOp::Mul, bin(BinOp::Add, num("2"), num("2")), num("4")))
    );
}

#[test]
fn power_is_right_associative() {
    assert_eq!(
        parse_calc("2^3^2"),
        Some(bin(BinOp::Pow, num("2"), bin(BinOp::Pow, num("3"), num("2"))))
    );
}

#[test]
fn unary_minus_and_remainder() {
    assert_eq!(
        parse_calc("-3+10"),
        Some(bin(BinOp::Add, Expr::Neg(Box::new(num("3"))), num("10")))
    );
    assert_eq!(parse_calc("10%3"), Some(bin(BinOp::Rem, num("10"), num("3"))));
    assert_eq!(
        parse_calc("8-2-1"),
        Some(bin(BinOp::Sub, bin(BinOp::Sub, num("8"), num("2")), num("1")))
    );
}

#[test]
fn one_trailing_equals_is_tolerated() {
    assert_eq!(parse_calc("5*5="), Some(bin(BinOp::Mul, num("5"), num("5"))));
    assert_eq!(parse_calc("5*5=="), None);
    assert_eq!(parse_calc(" 5 * 5 = "), Some(bin(BinOp::Mul, num("5"), num("5"))));
}

#[test]
fn non_math_is_refused() {
    assert_eq!(parse_calc("7zip"), None);
    assert_eq!(parse_calc("42"), None);
    assert_eq!(parse_calc("2+"), None);
    assert_eq!(parse_calc(""), None);
    assert_eq!(parse_calc("(1+2"), None);
    assert_eq!(parse_calc("1+2)"), None);
    assert!(parse_calc("1/0").is_some()); // the division is evaluated later
    assert_eq!(parse_calc("1.2.3+1"), Some(bin(BinOp::Add, num("1.2.3"), num("1"))));
}
