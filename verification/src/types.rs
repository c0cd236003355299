use vstd::prelude::*;

verus! {

/// A binary arithmetic operator.
#[derive(Clone, Copy, PartialEq, Eq, Structural, Debug)]
pub enum Op {
    Add,
    Sub,
    Mul,
    Div,
}

/// How a die roll is read: the sum of all dice, or the higher / lower of two.
#[derive(Clone, Copy, PartialEq, Eq, Structural, Debug)]
pub enum RollKind {
    Advantage,
    Disadvantage,
    Normal,
}

/// A non-negative integer literal of any length, kept as its decimal digits.
#[derive(Clone, PartialEq, Eq, Debug)]
pub struct Numeral {
    pub digits: Vec<char>,
}

/// An ASCII decimal digit.
pub open spec fn is_digit(c: char) -> bool {
    0x30 <= (c as u32) <= 0x39
}

pub open spec fn digit_value(c: char) -> nat {
    ((c as u32) - 0x30) as nat
}

/// The value of a string of decimal digits.
pub open spec fn digits_value(d: Seq<char>) -> nat
    decreases d.len(),
{
    if d.len() == 0 {
        0
    } else {
        10 * digits_value(d.drop_last()) + digit_value(d.last())
    }
}

impl View for Numeral {
    type V = nat;

    /// The value of the digits.
    open spec fn view(&self) -> nat {
        digits_value(self.digits@)
    }
}

impl Numeral {
    /// A copy of the numeral, with the same digits.
    pub fn duplicate(&self) -> (r: Numeral)
        ensures
            r.digits@ == self.digits@,
            r@ == self@,
    {
        let digits = self.digits.clone();
        assert(digits@ =~= self.digits@);
        Numeral { digits }
    }
}

/// A lexical token of a dice expression.
#[derive(Clone, PartialEq, Eq, Debug)]
pub enum Token {
    /// A non-negative integer literal.
    Number(Numeral),
    /// A die: kind, number of dice, number of sides.
    Die(RollKind, i32, u32),
    Plus,
    Minus,
    Star,
    Slash,
    LParen,
    RParen,
}

/// The syntax tree of a dice expression.
#[derive(Debug)]
pub enum Expr {
    Number(Numeral),
    Roll { kind: RollKind, n: i32, sides: u32, results: Option<Vec<i32>> },
    Binary { op: Op, left: Box<Expr>, right: Box<Expr> },
}

/// A token as the grammar sees it: a number is its value.
pub enum TokenView {
    Number(nat),
    Die(RollKind, i32, u32),
    Plus,
    Minus,
    Star,
    Slash,
    LParen,
    RParen,
}

impl View for Token {
    type V = TokenView;

    open spec fn view(&self) -> TokenView {
        match self {
            Token::Number(v) => TokenView::Number(v@),
            Token::Die(kind, n, sides) => TokenView::Die(*kind, *n, *sides),
            Token::Plus => TokenView::Plus,
            Token::Minus => TokenView::Minus,
            Token::Star => TokenView::Star,
            Token::Slash => TokenView::Slash,
            Token::LParen => TokenView::LParen,
            Token::RParen => TokenView::RParen,
        }
    }
}

/// The tokens of a sequence as the grammar sees them.
pub open spec fn tokens_view(ts: Seq<Token>) -> Seq<TokenView> {
    ts.map_values(|t: Token| t@)
}

/// A tree as the grammar sees it: a number is its value, results a sequence.
pub enum ExprView {
    Number(nat),
    Roll { kind: RollKind, n: i32, sides: u32, results: Option<Seq<i32>> },
    Binary { op: Op, left: Box<ExprView>, right: Box<ExprView> },
}

pub open spec fn expr_view(e: Expr) -> ExprView
    decreases e,
{
    match e {
        Expr::Number(v) => ExprView::Number(v@),
        Expr::Roll { kind, n, sides, results } => ExprView::Roll {
            kind,
            n,
            sides,
            results: match results {
                Some(rs) => Some(rs@),
                None => None,
            },
        },
        Expr::Binary { op, left, right } => ExprView::Binary {
            op,
            left: Box::new(expr_view(*left)),
            right: Box::new(expr_view(*right)),
        },
    }
}

impl View for Expr {
    type V = ExprView;

    open spec fn view(&self) -> ExprView {
        expr_view(*self)
    }
}

/// A die as dice notation writes it: a non-negative count for a normal roll,
/// a single die for advantage and disadvantage, and sides that fit in an `i32`.
pub open spec fn written_die(kind: RollKind, n: i32, sides: u32) -> bool {
    &&& sides <= i32::MAX
    &&& ((kind == RollKind::Normal && n >= 0) || n == 1)
}

/// Every die token is as dice notation writes it.
pub open spec fn written_tokens(ts: Seq<TokenView>) -> bool {
    forall|k: int|
        0 <= k < ts.len() ==> match #[trigger] ts[k] {
            TokenView::Die(kind, n, sides) => written_die(kind, n, sides),
            _ => true,
        }
}

/// Every roll of a tree is as dice notation writes it.
pub open spec fn written_tree(e: ExprView) -> bool
    decreases e,
{
    match e {
        ExprView::Number(_) => true,
        ExprView::Roll { kind, n, sides, .. } => written_die(kind, n, sides),
        ExprView::Binary { left, right, .. } => written_tree(*left) && written_tree(*right),
    }
}

} // verus!
