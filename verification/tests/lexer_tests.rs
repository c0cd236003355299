use crabroll::lexer::{lex_input, lexer, LexError};
use crabroll::types::{Numeral, RollKind, Token};

fn numeral(digits: &str) -> Numeral {
    Numeral { digits: digits.chars().collect() }
}

fn num(v: u64) -> Numeral {
    numeral(&v.to_string())
}

fn lex(input: &str) -> Vec<Token> {
    lexer(input).unwrap()
}

#[test]
fn lexer_test_number() {
    assert!(lex("42")[0] == Token::Number(num(42)));
}

#[test]
fn test_plus() {
    assert!(matches!(lex("+")[0], Token::Plus));
}

#[test]
fn test_minus() {
    assert!(matches!(lex("-")[0], Token::Minus));
}

#[test]
fn test_star() {
    assert!(matches!(lex("*")[0], Token::Star));
}

#[test]
fn test_slash() {
    assert!(matches!(lex("/")[0], Token::Slash));
}

#[test]
fn test_number_plus_number() {
    let tokens = lex("1 + 2");
    assert!(tokens[0] == Token::Number(num(1)));
    assert!(matches!(tokens[1], Token::Plus));
    assert!(tokens[2] == Token::Number(num(2)));
}

#[test]
fn test_die_simple() {
    assert!(matches!(lex("d20")[0], Token::Die(RollKind::Normal, 1, 20)));
}

#[test]
fn test_die_with_count() {
    assert!(matches!(lex("2d6")[0], Token::Die(RollKind::Normal, 2, 6)));
}

#[test]
fn test_die_advantage() {
    assert!(matches!(
        lex("^d20")[0],
        Token::Die(RollKind::Advantage, 1, 20)
    ));
}

#[test]
fn test_die_disadvantage() {
    assert!(matches!(
        lex("vd20")[0],
        Token::Die(RollKind::Disadvantage, 1, 20)
    ));
}

#[test]
fn test_full_expression() {
    let tokens = lex("2d6 + 3");
    assert!(matches!(tokens[0], Token::Die(RollKind::Normal, 2, 6)));
    assert!(matches!(tokens[1], Token::Plus));
    assert!(tokens[2] == Token::Number(num(3)));
}

#[test]
fn lex_whole_token_list() {
    assert_eq!(
        lex("2d6 + 3"),
        vec![Token::Die(RollKind::Normal, 2, 6), Token::Plus, Token::Number(num(3))]
    );
    assert_eq!(
        lex("^d20*vd8/4-0"),
        vec![
            Token::Die(RollKind::Advantage, 1, 20),
            Token::Star,
            Token::Die(RollKind::Disadvantage, 1, 8),
            Token::Slash,
            Token::Number(num(4)),
            Token::Minus,
            Token::Number(num(0)),
        ]
    );
}

#[test]
fn lex_empty_input() {
    assert_eq!(lex(""), Vec::<Token>::new());
}

#[test]
fn lex_whitespace_only_is_an_error() {
    assert_eq!(lexer("   "), Err(LexError::Unexpected(0)));
}

#[test]
fn lex_surrounding_and_unicode_whitespace() {
    assert_eq!(lex("  \t2d6\n"), vec![Token::Die(RollKind::Normal, 2, 6)]);
    assert_eq!(
        lex("1\u{00A0}+\u{3000}2"),
        vec![Token::Number(num(1)), Token::Plus, Token::Number(num(2))]
    );
}

#[test]
fn lex_parentheses() {
    assert_eq!(
        lex("(1 + 2) * 3"),
        vec![
            Token::LParen,
            Token::Number(num(1)),
            Token::Plus,
            Token::Number(num(2)),
            Token::RParen,
            Token::Star,
            Token::Number(num(3)),
        ]
    );
}

#[test]
fn lex_leading_zero_literals() {
    // A literal starting with 0 is the single digit 0.
    assert_eq!(
        lex("007"),
        vec![Token::Number(num(0)), Token::Number(num(0)), Token::Number(num(7))]
    );
    assert_eq!(lex("0d6"), vec![Token::Die(RollKind::Normal, 0, 6)]);
    assert_eq!(lex("05d6"), vec![Token::Number(num(0)), Token::Die(RollKind::Normal, 5, 6)]);
    assert_eq!(lex("d06"), vec![Token::Die(RollKind::Normal, 1, 0), Token::Number(num(6))]);
}

#[test]
fn lex_space_splits_a_die() {
    assert_eq!(lex("2 d6"), vec![Token::Number(num(2)), Token::Die(RollKind::Normal, 1, 6)]);
}

#[test]
fn lex_unexpected_positions() {
    assert_eq!(lexer("2d"), Err(LexError::Unexpected(1)));
    assert_eq!(lexer("1 + x"), Err(LexError::Unexpected(4)));
    assert_eq!(lexer("^20"), Err(LexError::Unexpected(0)));
    assert_eq!(lexer("v"), Err(LexError::Unexpected(0)));
}

#[test]
fn lex_overflow() {
    assert_eq!(lex_input("2147483647"), Ok(vec![Token::Number(num(2147483647))]));
    // A standalone integer is a number, whatever its size.
    assert_eq!(lex_input("3000000000"), Ok(vec![Token::Number(num(3000000000))]));
    assert_eq!(
        lex_input("1 + 3000000000"),
        Ok(vec![Token::Number(num(1)), Token::Plus, Token::Number(num(3000000000))])
    );
    assert_eq!(
        lex_input("9223372036854775807"),
        Ok(vec![Token::Number(num(9223372036854775807))])
    );
    assert_eq!(
        lex_input("9223372036854775808"),
        Ok(vec![Token::Number(num(9223372036854775808))])
    );
    assert_eq!(
        lex_input("123456789012345678901234567890 * 2"),
        Ok(vec![
            Token::Number(numeral("123456789012345678901234567890")),
            Token::Star,
            Token::Number(num(2)),
        ])
    );
    assert_eq!(lexer("3000000000x"), Err(LexError::Unexpected(10)));
    // The count and the sides of a die are i32 values.
    assert_eq!(lex_input("d2147483648"), Err(LexError::Overflow(0)));
    assert_eq!(lex_input("1 + 2147483648d6"), Err(LexError::Overflow(4)));
    assert_eq!(
        lex_input("2147483647d2147483647"),
        Ok(vec![Token::Die(RollKind::Normal, 2147483647, 2147483647)])
    );
}

fn show(t: &Token) -> String {
    match t {
        Token::Number(v) => v.digits.iter().collect(),
        Token::Die(RollKind::Normal, n, s) => format!("{}d{}", n, s),
        Token::Die(RollKind::Advantage, _, s) => format!("^d{}", s),
        Token::Die(RollKind::Disadvantage, _, s) => format!("vd{}", s),
        Token::Plus => "+".to_string(),
        Token::Minus => "-".to_string(),
        Token::Star => "*".to_string(),
        Token::Slash => "/".to_string(),
        Token::LParen => "(".to_string(),
        Token::RParen => ")".to_string(),
    }
}

#[test]
fn print_then_lex_gives_the_tokens_back() {
    let ts = vec![
        Token::Number(num(0)),
        Token::Die(RollKind::Normal, 0, 6),
        Token::Die(RollKind::Normal, 12, 0),
        Token::LParen,
        Token::Die(RollKind::Advantage, 1, 20),
        Token::Slash,
        Token::Die(RollKind::Disadvantage, 1, 2147483647),
        Token::RParen,
        Token::Number(num(9223372036854775807)),
        Token::Minus,
        Token::Star,
        Token::Plus,
        Token::Number(num(3000000000)),
        Token::Number(numeral("98765432109876543210987654321")),
    ];
    let text: Vec<String> = ts.iter().map(show).collect();
    assert_eq!(lexer(&text.join(" ")), Ok(ts));
}
