use vstd::prelude::*;
use crate::types::{tokens_view, written_tokens, written_tree, Expr, ExprView, Op, Token, TokenView};

verus! {

/// Why a token sequence is not one expression.
#[derive(Clone, Copy, PartialEq, Eq, Structural, Debug)]
pub struct ParseError {
    /// The index of the first token that is not part of the leading expression
    /// (0 when the tokens do not start with an expression).
    pub pos: usize,
}

pub open spec fn binary(op: Op, left: ExprView, right: ExprView) -> ExprView {
    ExprView::Binary { op, left: Box::new(left), right: Box::new(right) }
}

/// The multiplicative operator of a token, if it is one.
pub open spec fn mul_op(t: TokenView) -> Option<Op> {
    match t {
        TokenView::Star => Some(Op::Mul),
        TokenView::Slash => Some(Op::Div),
        _ => None,
    }
}

/// The additive operator of a token, if it is one.
pub open spec fn add_op(t: TokenView) -> Option<Op> {
    match t {
        TokenView::Plus => Some(Op::Add),
        TokenView::Minus => Some(Op::Sub),
        _ => None,
    }
}

/// A term at `i`: a die, a number, or an expression in parentheses.
/// Gives the tree and the index after it.
pub open spec fn term_at(t: Seq<TokenView>, i: int) -> Option<(ExprView, int)>
    decreases t.len() - i, 0int,
{
    if 0 <= i < t.len() {
        match t[i] {
            TokenView::Die(kind, n, sides) => Some(
                (ExprView::Roll { kind, n, sides, results: None }, i + 1),
            ),
            TokenView::Number(v) => Some((ExprView::Number(v), i + 1)),
            TokenView::LParen => match expr_at(t, i + 1) {
                Some((e, j)) => if i + 1 < j < t.len() && t[j] == TokenView::RParen {
                    Some((e, j + 1))
                } else {
                    None
                },
                None => None,
            },
            _ => None,
        }
    } else {
        None
    }
}

/// The rest of a factor at `i`, after the left operand `acc`: each `*` or `/`
/// followed by a term extends it to the left; an operator not followed by a
/// term is left unread.
pub open spec fn factor_rest(t: Seq<TokenView>, i: int, acc: ExprView) -> Option<(ExprView, int)>
    decreases t.len() - i, 0int,
{
    if 0 <= i < t.len() && mul_op(t[i]) is Some {
        match term_at(t, i + 1) {
            Some((r, k)) => if i + 1 < k <= t.len() {
                factor_rest(t, k, binary(mul_op(t[i])->0, acc, r))
            } else {
                None
            },
            None => Some((acc, i)),
        }
    } else {
        Some((acc, i))
    }
}

/// A factor at `i`: terms joined by `*` and `/`, grouped to the left.
pub open spec fn factor_at(t: Seq<TokenView>, i: int) -> Option<(ExprView, int)>
    decreases t.len() - i, 1int,
{
    match term_at(t, i) {
        Some((e, j)) => if 0 <= i < j <= t.len() {
            factor_rest(t, j, e)
        } else {
            None
        },
        None => None,
    }
}

/// The rest of an expression at `i`, after the left operand `acc`: each `+` or
/// `-` followed by a factor extends it to the left.
pub open spec fn expr_rest(t: Seq<TokenView>, i: int, acc: ExprView) -> Option<(ExprView, int)>
    decreases t.len() - i, 0int,
{
    if 0 <= i < t.len() && add_op(t[i]) is Some {
        match factor_at(t, i + 1) {
            Some((r, k)) => if i + 1 < k <= t.len() {
                expr_rest(t, k, binary(add_op(t[i])->0, acc, r))
            } else {
                None
            },
            None => Some((acc, i)),
        }
    } else {
        Some((acc, i))
    }
}

/// An expression at `i`: factors joined by `+` and `-`, grouped to the left.
pub open spec fn expr_at(t: Seq<TokenView>, i: int) -> Option<(ExprView, int)>
    decreases t.len() - i, 2int,
{
    match factor_at(t, i) {
        Some((e, j)) => if 0 <= i < j <= t.len() {
            expr_rest(t, j, e)
        } else {
            None
        },
        None => None,
    }
}

/// The tree of a whole token sequence, or where the leading expression stops.
pub open spec fn parse(t: Seq<TokenView>) -> Result<ExprView, ParseError> {
    match expr_at(t, 0) {
        Some((e, j)) => if j == t.len() {
            Ok(e)
        } else {
            Err(ParseError { pos: j as usize })
        },
        None => Err(ParseError { pos: 0 }),
    }
}

/// The tree and end index of a parse step, as the grammar sees them.
pub open spec fn pos_view(r: Option<(Expr, usize)>) -> Option<(ExprView, int)> {
    match r {
        Some((e, k)) => Some((e@, k as int)),
        None => None,
    }
}

/// A parse result as the grammar sees it.
pub open spec fn parse_view(r: Result<Expr, ParseError>) -> Result<ExprView, ParseError> {
    match r {
        Ok(e) => Ok(e@),
        Err(p) => Err(p),
    }
}

fn parse_term(t: &[Token], i: usize) -> (r: Option<(Expr, usize)>)
    requires
        i <= t.len(),
    ensures
        pos_view(r) == term_at(tokens_view(t@), i as int),
        r matches Some((_, k)) ==> i < k <= t.len(),
    decreases t.len() - i, 0int,
{
    let ghost tv = tokens_view(t@);
    if i < t.len() {
        assert(tv[i as int] == t@[i as int]@);
        match &t[i] {
            Token::Die(kind, n, sides) => Some(
                (Expr::Roll { kind: *kind, n: *n, sides: *sides, results: None }, i + 1),
            ),
            Token::Number(v) => Some((Expr::Number(v.duplicate()), i + 1)),
            Token::LParen => {
                match parse_expr(t, i + 1) {
                    Some((e, j)) => {
                        if j < t.len() && is_rparen(&t[j]) {
                            assert(tv[j as int] == t@[j as int]@);
                            Some((e, j + 1))
                        } else {
                            proof {
                                if j < t.len() {
                                    assert(tv[j as int] == t@[j as int]@);
                                }
                            }
                            None
                        }
                    },
                    None => None,
                }
            },
            _ => None,
        }
    } else {
        None
    }
}

fn is_rparen(t: &Token) -> (b: bool)
    ensures
        b <==> t@ == TokenView::RParen,
{
    match t {
        Token::RParen => true,
        _ => false,
    }
}

fn parse_factor(t: &[Token], i: usize) -> (r: Option<(Expr, usize)>)
    requires
        i <= t.len(),
    ensures
        pos_view(r) == factor_at(tokens_view(t@), i as int),
        r matches Some((_, k)) ==> i < k <= t.len(),
    decreases t.len() - i, 1int,
{
    let ghost tv = tokens_view(t@);
    match parse_term(t, i) {
        None => None,
        Some((first, j)) => {
            let mut acc = first;
            let mut pos = j;
            loop
                invariant
                    i < pos <= t.len(),
                    tv == tokens_view(t@),
                    factor_at(tv, i as int) == factor_rest(tv, pos as int, acc@),
                decreases t.len() - pos,
            {
                if pos < t.len() {
                    assert(tv[pos as int] == t@[pos as int]@);
                    let op = match &t[pos] {
                        Token::Star => Op::Mul,
                        Token::Slash => Op::Div,
                        _ => {
                            return Some((acc, pos));
                        },
                    };
                    match parse_term(t, pos + 1) {
                        Some((right, k)) => {
                            let ghost (l, r) = (acc@, right@);
                            acc = Expr::Binary { op, left: Box::new(acc), right: Box::new(right) };
                            assert(acc@ == binary(op, l, r));
                            pos = k;
                        },
                        None => {
                            return Some((acc, pos));
                        },
                    }
                } else {
                    return Some((acc, pos));
                }
            }
        },
    }
}

fn parse_expr(t: &[Token], i: usize) -> (r: Option<(Expr, usize)>)
    requires
        i <= t.len(),
    ensures
        pos_view(r) == expr_at(tokens_view(t@), i as int),
        r matches Some((_, k)) ==> i < k <= t.len(),
    decreases t.len() - i, 2int,
{
    let ghost tv = tokens_view(t@);
    match parse_factor(t, i) {
        None => None,
        Some((first, j)) => {
            let mut acc = first;
            let mut pos = j;
            loop
                invariant
                    i < pos <= t.len(),
                    tv == tokens_view(t@),
                    expr_at(tv, i as int) == expr_rest(tv, pos as int, acc@),
                decreases t.len() - pos,
            {
                if pos < t.len() {
                    assert(tv[pos as int] == t@[pos as int]@);
                    let op = match &t[pos] {
                        Token::Plus => Op::Add,
                        Token::Minus => Op::Sub,
                        _ => {
                            return Some((acc, pos));
                        },
                    };
                    match parse_factor(t, pos + 1) {
                        Some((right, k)) => {
                            let ghost (l, r) = (acc@, right@);
                            acc = Expr::Binary { op, left: Box::new(acc), right: Box::new(right) };
                            assert(acc@ == binary(op, l, r));
                            pos = k;
                        },
                        None => {
                            return Some((acc, pos));
                        },
                    }
                } else {
                    return Some((acc, pos));
                }
            }
        },
    }
}

/// Parses tokens into one expression tree, with `*` and `/` binding tighter than
/// `+` and `-`, both grouped to the left, and parentheses overriding precedence.
/// Succeeds exactly when the whole sequence is one expression.
pub fn parser(tokens: &[Token]) -> (r: Result<Expr, ParseError>)
    ensures
        parse_view(r) == parse(tokens_view(tokens@)),
{
    match parse_expr(tokens, 0) {
        Some((e, j)) => {
            if j == tokens.len() {
                Ok(e)
            } else {
                Err(ParseError { pos: j })
            }
        },
        None => Err(ParseError { pos: 0 }),
    }
}

// ---------------------------------------------------------------------------
// The parser keeps the dice of the tokens

proof fn lemma_term_written(t: Seq<TokenView>, i: int)
    requires
        written_tokens(t),
    ensures
        term_at(t, i) matches Some((e, _)) ==> written_tree(e),
    decreases t.len() - i, 0int,
{
    if 0 <= i < t.len() {
        let tok = t[i];
        if tok == TokenView::LParen {
            lemma_expr_written(t, i + 1);
        }
    }
}

proof fn lemma_factor_rest_written(t: Seq<TokenView>, i: int, acc: ExprView)
    requires
        written_tokens(t),
        written_tree(acc),
    ensures
        factor_rest(t, i, acc) matches Some((e, _)) ==> written_tree(e),
    decreases t.len() - i, 0int,
{
    if 0 <= i < t.len() && mul_op(t[i]) is Some {
        lemma_term_written(t, i + 1);
        if let Some((r, k)) = term_at(t, i + 1) {
            if i + 1 < k <= t.len() {
                lemma_factor_rest_written(t, k, binary(mul_op(t[i])->0, acc, r));
            }
        }
    }
}

proof fn lemma_factor_written(t: Seq<TokenView>, i: int)
    requires
        written_tokens(t),
    ensures
        factor_at(t, i) matches Some((e, _)) ==> written_tree(e),
    decreases t.len() - i, 1int,
{
    lemma_term_written(t, i);
    if let Some((e, j)) = term_at(t, i) {
        if 0 <= i < j <= t.len() {
            lemma_factor_rest_written(t, j, e);
        }
    }
}

proof fn lemma_expr_rest_written(t: Seq<TokenView>, i: int, acc: ExprView)
    requires
        written_tokens(t),
        written_tree(acc),
    ensures
        expr_rest(t, i, acc) matches Some((e, _)) ==> written_tree(e),
    decreases t.len() - i, 0int,
{
    if 0 <= i < t.len() && add_op(t[i]) is Some {
        lemma_factor_written(t, i + 1);
        if let Some((r, k)) = factor_at(t, i + 1) {
            if i + 1 < k <= t.len() {
                lemma_expr_rest_written(t, k, binary(add_op(t[i])->0, acc, r));
            }
        }
    }
}

proof fn lemma_expr_written(t: Seq<TokenView>, i: int)
    requires
        written_tokens(t),
    ensures
        expr_at(t, i) matches Some((e, _)) ==> written_tree(e),
    decreases t.len() - i, 2int,
{
    lemma_factor_written(t, i);
    if let Some((e, j)) = factor_at(t, i) {
        if 0 <= i < j <= t.len() {
            lemma_expr_rest_written(t, j, e);
        }
    }
}

/// Every roll of a parsed tree comes from a die token.
pub proof fn lemma_parse_written(t: Seq<TokenView>)
    requires
        written_tokens(t),
        parse(t) is Ok,
    ensures
        written_tree(parse(t)->Ok_0),
{
    lemma_expr_written(t, 0);
}

// ---------------------------------------------------------------------------
// A tree gives back its tokens

/// The token of an operator.
pub open spec fn op_token(op: Op) -> TokenView {
    match op {
        Op::Add => TokenView::Plus,
        Op::Sub => TokenView::Minus,
        Op::Mul => TokenView::Star,
        Op::Div => TokenView::Slash,
    }
}

/// The tokens of a tree, read from left to right, without parentheses.
pub open spec fn flat(e: ExprView) -> Seq<TokenView>
    decreases e,
{
    match e {
        ExprView::Number(v) => seq![TokenView::Number(v)],
        ExprView::Roll { kind, n, sides, .. } => seq![TokenView::Die(kind, n, sides)],
        ExprView::Binary { op, left, right } => flat(*left) + seq![op_token(op)] + flat(*right),
    }
}

pub open spec fn is_paren(t: TokenView) -> bool {
    t == TokenView::LParen || t == TokenView::RParen
}

/// A token sequence with its parentheses taken out.
pub open spec fn strip_parens(ts: Seq<TokenView>) -> Seq<TokenView>
    decreases ts.len(),
{
    if ts.len() == 0 {
        seq![]
    } else {
        strip_parens(ts.drop_last()) + (if is_paren(ts.last()) {
            seq![]
        } else {
            seq![ts.last()]
        })
    }
}

/// No roll of the tree has been thrown.
pub open spec fn unthrown(e: ExprView) -> bool
    decreases e,
{
    match e {
        ExprView::Number(_) => true,
        ExprView::Roll { results, .. } => results is None,
        ExprView::Binary { left, right, .. } => unthrown(*left) && unthrown(*right),
    }
}

proof fn lemma_strip_add(a: Seq<TokenView>, b: Seq<TokenView>)
    ensures
        strip_parens(a + b) == strip_parens(a) + strip_parens(b),
    decreases b.len(),
{
    if b.len() == 0 {
        assert(a + b =~= a);
        assert(strip_parens(a) + strip_parens(b) =~= strip_parens(a));
    } else {
        lemma_strip_add(a, b.drop_last());
        assert((a + b).drop_last() =~= a + b.drop_last());
        assert((a + b).last() == b.last());
        let tail = if is_paren(b.last()) {
            seq![]
        } else {
            seq![b.last()]
        };
        assert(strip_parens(a) + strip_parens(b.drop_last()) + tail =~= strip_parens(a) + (
        strip_parens(b.drop_last()) + tail));
    }
}

proof fn lemma_strip_one(x: TokenView)
    ensures
        strip_parens(seq![x]) == (if is_paren(x) {
            Seq::<TokenView>::empty()
        } else {
            seq![x]
        }),
{
    assert(seq![x].drop_last() =~= Seq::<TokenView>::empty());
    assert(strip_parens(Seq::<TokenView>::empty()) == Seq::<TokenView>::empty());
    assert(Seq::<TokenView>::empty() + seq![x] =~= seq![x]);
    assert(Seq::<TokenView>::empty() + Seq::<TokenView>::empty() =~= Seq::<TokenView>::empty());
}

/// Splits the tokens `t[i..j]` at `m` before taking out parentheses.
proof fn lemma_strip_split(t: Seq<TokenView>, i: int, m: int, j: int)
    requires
        0 <= i <= m <= j <= t.len(),
    ensures
        strip_parens(t.subrange(i, j)) == strip_parens(t.subrange(i, m)) + strip_parens(
            t.subrange(m, j),
        ),
{
    assert(t.subrange(i, j) =~= t.subrange(i, m) + t.subrange(m, j));
    lemma_strip_add(t.subrange(i, m), t.subrange(m, j));
}

proof fn lemma_strip_empty(t: Seq<TokenView>, i: int)
    requires
        0 <= i <= t.len(),
    ensures
        strip_parens(t.subrange(i, i)) == Seq::<TokenView>::empty(),
{
    assert(t.subrange(i, i) =~= Seq::<TokenView>::empty());
}

proof fn lemma_term_flat(t: Seq<TokenView>, i: int)
    requires
        0 <= i <= t.len(),
    ensures
        term_at(t, i) matches Some((e, j)) ==> {
            &&& i < j <= t.len()
            &&& flat(e) == strip_parens(t.subrange(i, j))
            &&& unthrown(e)
        },
    decreases t.len() - i, 0int,
{
    if i < t.len() {
        let tok = t[i];
        assert(t.subrange(i, i + 1) =~= seq![tok]);
        lemma_strip_one(tok);
        if tok == TokenView::LParen {
            lemma_expr_flat(t, i + 1);
            if let Some((e, j)) = expr_at(t, i + 1) {
                if i + 1 < j < t.len() && t[j] == TokenView::RParen {
                    lemma_strip_split(t, i, i + 1, j + 1);
                    lemma_strip_split(t, i + 1, j, j + 1);
                    assert(t.subrange(j, j + 1) =~= seq![TokenView::RParen]);
                    lemma_strip_one(TokenView::RParen);
                    assert(strip_parens(t.subrange(i + 1, j)) + Seq::<TokenView>::empty() =~= strip_parens(
                        t.subrange(i + 1, j),
                    ));
                    assert(Seq::<TokenView>::empty() + strip_parens(t.subrange(i + 1, j)) =~= strip_parens(
                        t.subrange(i + 1, j),
                    ));
                }
            }
        }
    }
}

proof fn lemma_factor_rest_flat(t: Seq<TokenView>, i: int, acc: ExprView)
    requires
        0 <= i <= t.len(),
        unthrown(acc),
    ensures
        factor_rest(t, i, acc) matches Some((e, j)) ==> {
            &&& i <= j <= t.len()
            &&& flat(e) == flat(acc) + strip_parens(t.subrange(i, j))
            &&& unthrown(e)
        },
    decreases t.len() - i, 0int,
{
    lemma_strip_empty(t, i);
    assert(flat(acc) + Seq::<TokenView>::empty() =~= flat(acc));
    if i < t.len() && mul_op(t[i]) is Some {
        lemma_term_flat(t, i + 1);
        if let Some((r, k)) = term_at(t, i + 1) {
            if i + 1 < k <= t.len() {
                let op = mul_op(t[i])->0;
                let b = binary(op, acc, r);
                lemma_factor_rest_flat(t, k, b);
                if let Some((e, j)) = factor_rest(t, k, b) {
                    assert(t.subrange(i, i + 1) =~= seq![t[i]]);
                    lemma_strip_one(t[i]);
                    assert(op_token(op) == t[i]);
                    lemma_strip_split(t, i, i + 1, j);
                    lemma_strip_split(t, i + 1, k, j);
                    assert(flat(acc) + seq![op_token(op)] + flat(r) + strip_parens(
                        t.subrange(k, j),
                    ) =~= flat(acc) + (seq![t[i]] + (strip_parens(t.subrange(i + 1, k))
                        + strip_parens(t.subrange(k, j)))));
                }
            }
        }
    }
}

proof fn lemma_factor_flat(t: Seq<TokenView>, i: int)
    requires
        0 <= i <= t.len(),
    ensures
        factor_at(t, i) matches Some((e, j)) ==> {
            &&& i < j <= t.len()
            &&& flat(e) == strip_parens(t.subrange(i, j))
            &&& unthrown(e)
        },
    decreases t.len() - i, 1int,
{
    lemma_term_flat(t, i);
    if let Some((e0, j0)) = term_at(t, i) {
        if 0 <= i < j0 <= t.len() {
            lemma_factor_rest_flat(t, j0, e0);
            if let Some((e, j)) = factor_rest(t, j0, e0) {
                lemma_strip_split(t, i, j0, j);
            }
        }
    }
}

proof fn lemma_expr_rest_flat(t: Seq<TokenView>, i: int, acc: ExprView)
    requires
        0 <= i <= t.len(),
        unthrown(acc),
    ensures
        expr_rest(t, i, acc) matches Some((e, j)) ==> {
            &&& i <= j <= t.len()
            &&& flat(e) == flat(acc) + strip_parens(t.subrange(i, j))
            &&& unthrown(e)
        },
    decreases t.len() - i, 0int,
{
    lemma_strip_empty(t, i);
    assert(flat(acc) + Seq::<TokenView>::empty() =~= flat(acc));
    if i < t.len() && add_op(t[i]) is Some {
        lemma_factor_flat(t, i + 1);
        if let Some((r, k)) = factor_at(t, i + 1) {
            if i + 1 < k <= t.len() {
                let op = add_op(t[i])->0;
                let b = binary(op, acc, r);
                lemma_expr_rest_flat(t, k, b);
                if let Some((e, j)) = expr_rest(t, k, b) {
                    assert(t.subrange(i, i + 1) =~= seq![t[i]]);
                    lemma_strip_one(t[i]);
                    assert(op_token(op) == t[i]);
                    lemma_strip_split(t, i, i + 1, j);
                    lemma_strip_split(t, i + 1, k, j);
                    assert(flat(acc) + seq![op_token(op)] + flat(r) + strip_parens(
                        t.subrange(k, j),
                    ) =~= flat(acc) + (seq![t[i]] + (strip_parens(t.subrange(i + 1, k))
                        + strip_parens(t.subrange(k, j)))));
                }
            }
        }
    }
}

proof fn lemma_expr_flat(t: Seq<TokenView>, i: int)
    requires
        0 <= i <= t.len(),
    ensures
        expr_at(t, i) matches Some((e, j)) ==> {
            &&& i < j <= t.len()
            &&& flat(e) == strip_parens(t.subrange(i, j))
            &&& unthrown(e)
        },
    decreases t.len() - i, 2int,
{
    lemma_factor_flat(t, i);
    if let Some((e0, j0)) = factor_at(t, i) {
        if 0 <= i < j0 <= t.len() {
            lemma_expr_rest_flat(t, j0, e0);
            if let Some((e, j)) = expr_rest(t, j0, e0) {
                lemma_strip_split(t, i, j0, j);
            }
        }
    }
}

/// A parsed tree gives back its tokens: reading the tree from left to right
/// gives the token sequence without its parentheses, and no roll of the tree
/// has been thrown yet.
pub proof fn law_parse_keeps_tokens(t: Seq<TokenView>)
    requires
        parse(t) is Ok,
    ensures
        flat(parse(t)->Ok_0) == strip_parens(t),
        unthrown(parse(t)->Ok_0),
{
    lemma_expr_flat(t, 0);
    assert(t.subrange(0, t.len() as int) =~= t);
}

// ---------------------------------------------------------------------------
// Laws

/// The tree of a token that is an operand on its own: a number or a die.
pub open spec fn atom(t: TokenView) -> Option<ExprView> {
    match t {
        TokenView::Number(v) => Some(ExprView::Number(v)),
        TokenView::Die(kind, n, sides) => Some(ExprView::Roll { kind, n, sides, results: None }),
        _ => None,
    }
}

/// The operator of an operator token.
pub open spec fn op_of(t: TokenView) -> Option<Op> {
    match t {
        TokenView::Plus => Some(Op::Add),
        TokenView::Minus => Some(Op::Sub),
        TokenView::Star => Some(Op::Mul),
        TokenView::Slash => Some(Op::Div),
        _ => None,
    }
}

/// `*` and `/` bind tighter than `+` and `-`.
pub open spec fn binds_tighter(o: Op) -> bool {
    o == Op::Mul || o == Op::Div
}

proof fn lemma_atom_term(t: Seq<TokenView>, i: int)
    requires
        0 <= i < t.len(),
        atom(t[i]) is Some,
    ensures
        term_at(t, i) == Some((atom(t[i])->0, i + 1)),
{
}

proof fn lemma_op_kinds(t: TokenView)
    requires
        op_of(t) is Some,
    ensures
        binds_tighter(op_of(t)->0) ==> mul_op(t) == op_of(t) && add_op(t) is None,
        !binds_tighter(op_of(t)->0) ==> add_op(t) == op_of(t) && mul_op(t) is None,
{
}

/// Precedence and grouping: in `a o1 b o2 c`, the second operator is applied
/// first exactly when it binds tighter than the first (`2 + 3 * 4` is
/// `2 + (3 * 4)`); otherwise the operators group to the left (`2 * 3 * 4` is
/// `(2 * 3) * 4`, `1 - 2 + 3` is `(1 - 2) + 3`).
pub proof fn law_precedence(a: TokenView, o1: TokenView, b: TokenView, o2: TokenView, c: TokenView)
    requires
        atom(a) is Some,
        atom(b) is Some,
        atom(c) is Some,
        op_of(o1) is Some,
        op_of(o2) is Some,
    ensures
        parse(seq![a, o1, b, o2, c]) == (if !binds_tighter(op_of(o1)->0) && binds_tighter(
            op_of(o2)->0,
        ) {
            Ok::<ExprView, ParseError>(
                binary(
                    op_of(o1)->0,
                    atom(a)->0,
                    binary(op_of(o2)->0, atom(b)->0, atom(c)->0),
                ),
            )
        } else {
            Ok::<ExprView, ParseError>(
                binary(
                    op_of(o2)->0,
                    binary(op_of(o1)->0, atom(a)->0, atom(b)->0),
                    atom(c)->0,
                ),
            )
        }),
{
    let t = seq![a, o1, b, o2, c];
    let (ea, eb, ec) = (atom(a)->0, atom(b)->0, atom(c)->0);
    let (p1, p2) = (op_of(o1)->0, op_of(o2)->0);
    lemma_atom_term(t, 0);
    lemma_atom_term(t, 2);
    lemma_atom_term(t, 4);
    lemma_op_kinds(o1);
    lemma_op_kinds(o2);
    assert(t[1] == o1 && t[3] == o2);
    assert(factor_rest(t, 5, ec) == Some((ec, 5int)));
    if binds_tighter(p1) {
        if binds_tighter(p2) {
            let e = binary(p2, binary(p1, ea, eb), ec);
            assert(factor_rest(t, 5, e) == Some((e, 5int)));
            assert(factor_rest(t, 3, binary(p1, ea, eb)) == Some((e, 5int)));
            assert(factor_at(t, 0) == Some((e, 5int)));
            assert(expr_rest(t, 5, e) == Some((e, 5int)));
        } else {
            let l = binary(p1, ea, eb);
            assert(factor_rest(t, 3, l) == Some((l, 3int)));
            assert(factor_at(t, 0) == Some((l, 3int)));
            assert(factor_at(t, 4) == Some((ec, 5int)));
            let e = binary(p2, l, ec);
            assert(expr_rest(t, 5, e) == Some((e, 5int)));
            assert(expr_rest(t, 3, l) == Some((e, 5int)));
        }
    } else {
        assert(factor_rest(t, 1, ea) == Some((ea, 1int)));
        assert(factor_at(t, 0) == Some((ea, 1int)));
        if binds_tighter(p2) {
            let r = binary(p2, eb, ec);
            assert(factor_rest(t, 5, r) == Some((r, 5int)));
            assert(factor_rest(t, 3, eb) == Some((r, 5int)));
            assert(factor_at(t, 2) == Some((r, 5int)));
            let e = binary(p1, ea, r);
            assert(expr_rest(t, 5, e) == Some((e, 5int)));
            assert(expr_rest(t, 1, ea) == Some((e, 5int)));
        } else {
            assert(factor_rest(t, 3, eb) == Some((eb, 3int)));
            assert(factor_at(t, 2) == Some((eb, 3int)));
            assert(factor_at(t, 4) == Some((ec, 5int)));
            let l = binary(p1, ea, eb);
            let e = binary(p2, l, ec);
            assert(expr_rest(t, 5, e) == Some((e, 5int)));
            assert(expr_rest(t, 3, l) == Some((e, 5int)));
            assert(expr_rest(t, 1, ea) == Some((e, 5int)));
        }
    }
}

/// Parentheses make an operand of what they enclose, whatever the operators'
/// precedence: `a o1 (b o2 c)` applies `o2` first.
pub proof fn law_parentheses(a: TokenView, o1: TokenView, b: TokenView, o2: TokenView, c: TokenView)
    requires
        atom(a) is Some,
        atom(b) is Some,
        atom(c) is Some,
        op_of(o1) is Some,
        op_of(o2) is Some,
    ensures
        parse(seq![a, o1, TokenView::LParen, b, o2, c, TokenView::RParen]) == Ok::<ExprView, ParseError>(
            binary(op_of(o1)->0, atom(a)->0, binary(op_of(o2)->0, atom(b)->0, atom(c)->0)),
        ),
{
    let t = seq![a, o1, TokenView::LParen, b, o2, c, TokenView::RParen];
    let (ea, eb, ec) = (atom(a)->0, atom(b)->0, atom(c)->0);
    let (p1, p2) = (op_of(o1)->0, op_of(o2)->0);
    lemma_atom_term(t, 0);
    lemma_atom_term(t, 3);
    lemma_atom_term(t, 5);
    lemma_op_kinds(o1);
    lemma_op_kinds(o2);
    assert(t[1] == o1 && t[2] == TokenView::LParen && t[4] == o2 && t[6] == TokenView::RParen);
    let g = binary(p2, eb, ec);
    assert(factor_rest(t, 6, ec) == Some((ec, 6int)));
    assert(factor_rest(t, 6, g) == Some((g, 6int)));
    assert(expr_rest(t, 6, g) == Some((g, 6int)));
    if binds_tighter(p2) {
        assert(factor_rest(t, 4, eb) == Some((g, 6int)));
        assert(factor_at(t, 3) == Some((g, 6int)));
    } else {
        assert(factor_rest(t, 4, eb) == Some((eb, 4int)));
        assert(factor_at(t, 3) == Some((eb, 4int)));
        assert(factor_at(t, 5) == Some((ec, 6int)));
        assert(expr_rest(t, 4, eb) == Some((g, 6int)));
    }
    assert(expr_at(t, 3) == Some((g, 6int)));
    assert(term_at(t, 2) == Some((g, 7int)));
    let e = binary(p1, ea, g);
    assert(factor_rest(t, 7, g) == Some((g, 7int)));
    assert(factor_rest(t, 7, e) == Some((e, 7int)));
    assert(expr_rest(t, 7, e) == Some((e, 7int)));
    if binds_tighter(p1) {
        assert(factor_rest(t, 1, ea) == Some((e, 7int)));
        assert(factor_at(t, 0) == Some((e, 7int)));
    } else {
        assert(factor_rest(t, 1, ea) == Some((ea, 1int)));
        assert(factor_at(t, 0) == Some((ea, 1int)));
        assert(factor_at(t, 2) == Some((g, 7int)));
        assert(expr_rest(t, 1, ea) == Some((e, 7int)));
    }
}

} // verus!
