use crabroll::parser::{parser, ParseError};
use crabroll::types::{Expr, Numeral, Op, RollKind, Token};

fn num(v: u64) -> Numeral {
    Numeral { digits: v.to_string().chars().collect() }
}

fn parse(tokens: &[Token]) -> Option<Expr> {
    parser(tokens).ok()
}

#[test]
fn test_addition() {
    let tokens = [Token::Number(num(1)), Token::Plus, Token::Number(num(2))];
    let expr = parse(&tokens).expect("should parse");
    assert!(matches!(expr, Expr::Binary { op: Op::Add, .. }));
}

#[test]
fn parser_test_number() {
    let tokens = [Token::Number(num(42))];
    let expr = parse(&tokens).expect("should parse");
    assert!(matches!(&expr, Expr::Number(v) if *v == num(42)));
}

#[test]
fn test_subtraction() {
    let tokens = [Token::Number(num(1)), Token::Minus, Token::Number(num(2))];
    let expr = parse(&tokens).expect("should parse");
    assert!(matches!(expr, Expr::Binary { op: Op::Sub, .. }));
}

#[test]
fn test_multiplication() {
    let tokens = [Token::Number(num(2)), Token::Star, Token::Number(num(3))];
    let expr = parse(&tokens).expect("should parse");
    assert!(matches!(expr, Expr::Binary { op: Op::Mul, .. }));
}

#[test]
fn test_division() {
    let tokens = [Token::Number(num(6)), Token::Slash, Token::Number(num(2))];
    let expr = parse(&tokens).expect("should parse");
    assert!(matches!(expr, Expr::Binary { op: Op::Div, .. }));
}

#[test]
fn test_die() {
    let tokens = [Token::Die(RollKind::Normal, 2, 6)];
    let expr = parse(&tokens).expect("should parse");
    assert!(matches!(
        expr,
        Expr::Roll {
            kind: RollKind::Normal,
            n: 2,
            sides: 6,
            ..
        }
    ));
}

#[test]
fn test_advantage() {
    let tokens = [Token::Die(RollKind::Advantage, 1, 20)];
    let expr = parse(&tokens).expect("should parse");
    assert!(matches!(
        expr,
        Expr::Roll {
            kind: RollKind::Advantage,
            n: 1,
            sides: 20,
            ..
        }
    ));
}

#[test]
fn test_disadvantage() {
    let tokens = [Token::Die(RollKind::Disadvantage, 1, 20)];
    let expr = parse(&tokens).expect("should parse");
    assert!(matches!(
        expr,
        Expr::Roll {
            kind: RollKind::Disadvantage,
            n: 1,
            sides: 20,
            ..
        }
    ));
}

#[test]
fn test_grouped_expression() {
    let tokens = [
        Token::LParen,
        Token::Number(num(1)),
        Token::Plus,
        Token::Number(num(2)),
        Token::RParen,
        Token::Star,
        Token::Number(num(3)),
    ];
    let expr = parse(&tokens).expect("should parse");
    assert!(matches!(expr, Expr::Binary { op: Op::Mul, .. }));
}

#[test]
fn test_die_in_expression() {
    let tokens = [
        Token::Die(RollKind::Normal, 2, 6),
        Token::Plus,
        Token::Number(num(3)),
    ];
    let expr = parse(&tokens).expect("should parse");
    assert!(matches!(expr, Expr::Binary { op: Op::Add, .. }));
}

#[test]
fn test_chained_addition() {
    let tokens = [
        Token::Number(num(1)),
        Token::Plus,
        Token::Number(num(2)),
        Token::Plus,
        Token::Number(num(3)),
    ];
    let expr = parse(&tokens).expect("should parse");
    assert!(matches!(expr, Expr::Binary { op: Op::Add, .. }));
}

fn show(tokens: &[Token]) -> String {
    format!("{:?}", parser(tokens))
}

#[test]
fn parse_precedence_tree() {
    // 2 + 3 * 4 is 2 + (3 * 4)
    let tokens = [
        Token::Number(num(2)),
        Token::Plus,
        Token::Number(num(3)),
        Token::Star,
        Token::Number(num(4)),
    ];
    match parser(&tokens).unwrap() {
        Expr::Binary { op: Op::Add, left, right } => {
            assert!(matches!(&*left, Expr::Number(v) if *v == num(2)));
            assert!(matches!(*right, Expr::Binary { op: Op::Mul, .. }));
        }
        _ => panic!("wrong tree"),
    }
}

#[test]
fn parse_left_associative_tree() {
    // 2 * 3 * 4 is (2 * 3) * 4
    let tokens = [
        Token::Number(num(2)),
        Token::Star,
        Token::Number(num(3)),
        Token::Star,
        Token::Number(num(4)),
    ];
    match parser(&tokens).unwrap() {
        Expr::Binary { op: Op::Mul, left, right } => {
            assert!(matches!(*left, Expr::Binary { op: Op::Mul, .. }));
            assert!(matches!(&*right, Expr::Number(v) if *v == num(4)));
        }
        _ => panic!("wrong tree"),
    }
}

#[test]
fn parse_parentheses_override() {
    // 2 * (3 + 4)
    let tokens = [
        Token::Number(num(2)),
        Token::Star,
        Token::LParen,
        Token::Number(num(3)),
        Token::Plus,
        Token::Number(num(4)),
        Token::RParen,
    ];
    match parser(&tokens).unwrap() {
        Expr::Binary { op: Op::Mul, left, right } => {
            assert!(matches!(&*left, Expr::Number(v) if *v == num(2)));
            assert!(matches!(*right, Expr::Binary { op: Op::Add, .. }));
        }
        _ => panic!("wrong tree"),
    }
}

#[test]
fn parse_errors() {
    assert_eq!(parser(&[]).unwrap_err(), ParseError { pos: 0 });
    assert_eq!(parser(&[Token::Plus]).unwrap_err(), ParseError { pos: 0 });
    // The leading expression `1` stops before the dangling operator.
    assert_eq!(
        parser(&[Token::Number(num(1)), Token::Plus]).unwrap_err(),
        ParseError { pos: 1 }
    );
    assert_eq!(
        parser(&[Token::Number(num(1)), Token::Number(num(2))]).unwrap_err(),
        ParseError { pos: 1 }
    );
    // An unclosed parenthesis is no expression.
    assert_eq!(
        parser(&[Token::LParen, Token::Number(num(1))]).unwrap_err(),
        ParseError { pos: 0 }
    );
    assert_eq!(
        parser(&[Token::Number(num(1)), Token::RParen]).unwrap_err(),
        ParseError { pos: 1 }
    );
}

#[test]
fn parse_nested_parentheses() {
    let tokens = [
        Token::LParen,
        Token::LParen,
        Token::Die(RollKind::Advantage, 1, 20),
        Token::RParen,
        Token::RParen,
    ];
    assert_eq!(
        show(&tokens),
        "Ok(Roll { kind: Advantage, n: 1, sides: 20, results: None })"
    );
}

fn flat(e: &Expr, out: &mut Vec<Token>) {
    match e {
        Expr::Number(v) => out.push(Token::Number(v.clone())),
        Expr::Roll { kind, n, sides, results } => {
            assert!(results.is_none());
            out.push(Token::Die(*kind, *n, *sides));
        }
        Expr::Binary { op, left, right } => {
            flat(left, out);
            out.push(match op {
                Op::Add => Token::Plus,
                Op::Sub => Token::Minus,
                Op::Mul => Token::Star,
                Op::Div => Token::Slash,
            });
            flat(right, out);
        }
    }
}

#[test]
fn parsed_tree_gives_back_its_tokens() {
    let tokens = [
        Token::LParen,
        Token::Number(num(1)),
        Token::Minus,
        Token::LParen,
        Token::Die(RollKind::Normal, 2, 6),
        Token::Star,
        Token::Number(num(3)),
        Token::RParen,
        Token::RParen,
        Token::Slash,
        Token::Die(RollKind::Advantage, 1, 20),
        Token::Plus,
        Token::Number(num(4)),
    ];
    let e = parser(&tokens).unwrap();
    let mut out = Vec::new();
    flat(&e, &mut out);
    let stripped: Vec<Token> = tokens
        .iter()
        .filter(|t| **t != Token::LParen && **t != Token::RParen)
        .cloned()
        .collect();
    assert_eq!(out, stripped);
}
