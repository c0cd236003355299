//! The verified lexer and parser against the same grammar written with chumsky's
//! combinators, on every short input over a small alphabet and on longer
//! pseudo-random ones.

use chumsky::error::Simple;
use chumsky::extra;
use chumsky::primitive::{choice, just};
use chumsky::recursive::recursive;
use chumsky::text;
use chumsky::{IterParser, Parser};
use crabroll::lexer::lex_input;
use crabroll::parser::parser;
use crabroll::types::{Expr, Numeral, Op, RollKind, Token};

fn num(v: u64) -> Numeral {
    Numeral { digits: v.to_string().chars().collect() }
}

fn combinator_lexer<'src>(
    groups: bool,
) -> impl Parser<'src, &'src str, Vec<Token>, extra::Err<Simple<'src, char>>> {
    let number = text::int::<_, extra::Err<Simple<'src, char>>>(10)
        .map(|s: &str| Token::Number(Numeral { digits: s.chars().collect() }));
    let integer = text::int::<_, extra::Err<Simple<'src, char>>>(10)
        .map(|s: &str| s.parse::<i32>().unwrap());
    let plus = just('+').to(Token::Plus);
    let minus = just('-').to(Token::Minus);
    let star = just('*').to(Token::Star);
    let slash = just('/').to(Token::Slash);
    let lparen = just('(').to(Token::LParen).filter(move |_| groups);
    let rparen = just(')').to(Token::RParen).filter(move |_| groups);
    let prefix = choice((
        integer.map(|n| (RollKind::Normal, n)),
        just('^').to((RollKind::Advantage, 1)),
        just('v').to((RollKind::Disadvantage, 1)),
    ))
    .or_not();
    let die = prefix
        .then(just('d'))
        .then(integer)
        .map(|((prefix, _), sides)| {
            let (kind, n) = prefix.unwrap_or((RollKind::Normal, 1));
            Token::Die(kind, n, sides as u32)
        });
    choice((die, number, plus, minus, star, slash, lparen, rparen))
        .padded()
        .repeated()
        .collect()
}

fn fold_binary(left: Expr, (op, right): (Op, Expr)) -> Expr {
    Expr::Binary {
        op,
        left: Box::new(left),
        right: Box::new(right),
    }
}

fn combinator_parser<'src>(
) -> impl Parser<'src, &'src [Token], Expr, extra::Err<Simple<'src, Token>>> {
    recursive(|expr| {
        let number = chumsky::primitive::select(|t: Token, _| match t {
            Token::Number(n) => Some(Expr::Number(n)),
            _ => None,
        });
        let die = chumsky::primitive::select(|t: Token, _| match t {
            Token::Die(kind, n, sides) => Some(Expr::Roll {
                kind,
                n,
                sides,
                results: None,
            }),
            _ => None,
        });
        let group = expr.delimited_by(just(Token::LParen), just(Token::RParen));
        let term = die.or(number).or(group);
        let factor = term.clone().foldl(
            just(Token::Star)
                .to(Op::Mul)
                .or(just(Token::Slash).to(Op::Div))
                .then(term)
                .repeated(),
            fold_binary,
        );
        factor.clone().foldl(
            just(Token::Plus)
                .to(Op::Add)
                .or(just(Token::Minus).to(Op::Sub))
                .then(factor)
                .repeated(),
            fold_binary,
        )
    })
}

/// A small deterministic generator of pseudo-random numbers.
struct Lcg(u64);

impl Lcg {
    fn next(&mut self, bound: usize) -> usize {
        self.0 = self
            .0
            .wrapping_mul(6364136223846793005)
            .wrapping_add(1442695040888963407);
        ((self.0 >> 33) % bound as u64) as usize
    }
}

fn for_all_strings(alphabet: &[char], max_len: usize, f: &mut dyn FnMut(&str)) {
    let mut current: Vec<usize> = Vec::new();
    loop {
        let s: String = current.iter().map(|&i| alphabet[i]).collect();
        f(&s);
        // next string in length-then-lexicographic order
        let mut pos = current.len();
        loop {
            if pos == 0 {
                if current.len() == max_len {
                    return;
                }
                current = vec![0; current.len() + 1];
                break;
            }
            pos -= 1;
            if current[pos] + 1 < alphabet.len() {
                current[pos] += 1;
                for later in current.iter_mut().skip(pos + 1) {
                    *later = 0;
                }
                break;
            }
        }
    }
}

fn compare_lexers(input: &str, groups: bool) {
    let expected = combinator_lexer(groups).parse(input).into_result().ok();
    let actual = lex_input(input).ok();
    assert_eq!(actual, expected, "lexing {:?}", input);
}

#[test]
fn lexer_matches_combinators_on_short_inputs() {
    let alphabet = ['1', '0', '2', 'd', 'v', '^', '+', '-', '*', '/', ' ', 'x'];
    for_all_strings(&alphabet, 5, &mut |s| compare_lexers(s, false));
}

#[test]
fn lexer_matches_combinators_with_parentheses() {
    let alphabet = ['1', '0', 'd', 'v', '^', '+', '*', '(', ')', ' '];
    for_all_strings(&alphabet, 5, &mut |s| compare_lexers(s, true));
}

#[test]
fn lexer_matches_combinators_on_longer_inputs() {
    let alphabet = [
        '1', '0', '2', '9', 'd', 'v', '^', '+', '-', '*', '/', ' ', '\t', '(', ')', 'x',
    ];
    let mut rng = Lcg(7);
    for _ in 0..20000 {
        let len = 6 + rng.next(4);
        let s: String = (0..len).map(|_| alphabet[rng.next(alphabet.len())]).collect();
        compare_lexers(&s, true);
    }
}

#[test]
fn whitespace_matches_unicode_white_space() {
    for code in 0u32..0x3100 {
        if let Some(c) = char::from_u32(code) {
            if "0123456789dv^+-*/()".contains(c) {
                continue;
            }
            let text = format!("{}1", c);
            let lexed = lex_input(&text);
            if c.is_whitespace() {
                assert_eq!(lexed, Ok(vec![Token::Number(num(1))]), "{:?}", c);
            } else {
                assert!(lexed.is_err(), "{:?}", c);
            }
        }
    }
}

fn compare_parsers(tokens: &[Token]) {
    let expected = combinator_parser().parse(tokens).into_output();
    let actual = parser(tokens).ok();
    assert_eq!(
        format!("{:?}", actual),
        format!("{:?}", expected),
        "parsing {:?}",
        tokens
    );
}

fn alphabet() -> Vec<Token> {
    vec![
        Token::Number(num(1)),
        Token::Number(num(2)),
        Token::Die(RollKind::Normal, 2, 6),
        Token::Plus,
        Token::Minus,
        Token::Star,
        Token::Slash,
        Token::LParen,
        Token::RParen,
    ]
}

#[test]
fn parser_matches_combinators_on_short_inputs() {
    let all = alphabet();
    let mut current: Vec<usize> = Vec::new();
    loop {
        let tokens: Vec<Token> = current.iter().map(|&i| all[i].clone()).collect();
        compare_parsers(&tokens);
        let mut pos = current.len();
        loop {
            if pos == 0 {
                if current.len() == 5 {
                    return;
                }
                current = vec![0; current.len() + 1];
                break;
            }
            pos -= 1;
            if current[pos] + 1 < all.len() {
                current[pos] += 1;
                for later in current.iter_mut().skip(pos + 1) {
                    *later = 0;
                }
                break;
            }
        }
    }
}

#[test]
fn parser_matches_combinators_on_longer_inputs() {
    let all = alphabet();
    let mut rng = Lcg(11);
    for _ in 0..20000 {
        let len = 6 + rng.next(8);
        let tokens: Vec<Token> = (0..len).map(|_| all[rng.next(all.len())].clone()).collect();
        compare_parsers(&tokens);
    }
}

#[test]
fn lexer_then_parser_on_expressions() {
    let texts = ["2d6 + 3", "(1 + 2) * 3", "^d20 - vd20 / 2", "1 - 2 - 3", "2 * (d4 + (3))"];
    for text in texts.iter() {
        let tokens = lex_input(text).unwrap();
        compare_parsers(&tokens);
        assert!(parser(&tokens).is_ok(), "{}", text);
    }
}
