use vstd::prelude::*;
use crate::types::{
    digit_value, digits_value, is_digit, tokens_view, written_die, written_tokens, Numeral, RollKind,
    Token, TokenView,
};

verus! {

broadcast use vstd::string::axiom_spec_iter;

/// Why a piece of text is not a sequence of tokens.
#[derive(Clone, Copy, PartialEq, Eq, Structural, Debug)]
pub enum LexError {
    /// The text does not go on with a token from this character index: the
    /// index where the previous token and the whitespace after it end (0 where
    /// no token was read), at which neither a token (after any whitespace) nor
    /// the end of the text follows.
    Unexpected(usize),
    /// The die that starts at this character index has a count or a number of
    /// sides beyond `i32::MAX`.
    Overflow(usize),
}

// ---------------------------------------------------------------------------
// Character classes

/// The Unicode `White_Space` characters.
pub open spec fn is_space(c: char) -> bool {
    let u = c as u32;
    ||| 0x09 <= u <= 0x0D
    ||| u == 0x20
    ||| u == 0x85
    ||| u == 0xA0
    ||| u == 0x1680
    ||| 0x2000 <= u <= 0x200A
    ||| u == 0x2028
    ||| u == 0x2029
    ||| u == 0x202F
    ||| u == 0x205F
    ||| u == 0x3000
}

// ---------------------------------------------------------------------------
// The grammar, position by position

/// The first index at or after `i` that does not hold whitespace.
pub open spec fn skip_space(s: Seq<char>, i: int) -> int
    decreases s.len() - i,
{
    if 0 <= i < s.len() && is_space(s[i]) {
        skip_space(s, i + 1)
    } else {
        i
    }
}

/// The first index at or after `i` that does not hold a digit.
pub open spec fn digits_end(s: Seq<char>, i: int) -> int
    decreases s.len() - i,
{
    if 0 <= i < s.len() && is_digit(s[i]) {
        digits_end(s, i + 1)
    } else {
        i
    }
}

/// The end of the integer literal that starts at `i`: a lone `0`, or a non-zero
/// digit followed by any digits.
pub open spec fn int_end(s: Seq<char>, i: int) -> Option<int> {
    if 0 <= i < s.len() && s[i] == '0' {
        Some(i + 1)
    } else if 0 <= i < s.len() && is_digit(s[i]) {
        Some(digits_end(s, i + 1))
    } else {
        None
    }
}

/// The value of the digits in `s[i..k]`.
pub open spec fn literal_value(s: Seq<char>, i: int, k: int) -> nat {
    digits_value(s.subrange(i, k))
}

/// The optional prefix of a die at `j`: a count, `^`, `v`, or nothing.
/// Gives the kind, the count and the index after the prefix.
pub open spec fn die_prefix(s: Seq<char>, j: int) -> (RollKind, nat, int) {
    match int_end(s, j) {
        Some(k) => (RollKind::Normal, literal_value(s, j, k), k),
        None => if 0 <= j < s.len() && s[j] == '^' {
            (RollKind::Advantage, 1, j + 1)
        } else if 0 <= j < s.len() && s[j] == 'v' {
            (RollKind::Disadvantage, 1, j + 1)
        } else {
            (RollKind::Normal, 1, j)
        },
    }
}

/// The die that starts at `j`, if any: kind, count, sides and end index.
pub open spec fn die_at(s: Seq<char>, j: int) -> Option<(RollKind, nat, nat, int)> {
    let (kind, n, p) = die_prefix(s, j);
    if 0 <= p < s.len() && s[p] == 'd' {
        match int_end(s, p + 1) {
            Some(k) => Some((kind, n, literal_value(s, p + 1, k), k)),
            None => None,
        }
    } else {
        None
    }
}

/// Whether a die starts at `j` whose count or sides do not fit in an `i32`.
pub open spec fn overflows_at(s: Seq<char>, j: int) -> bool {
    die_at(s, j) matches Some((_, n, sides, _)) && (n > i32::MAX || sides > i32::MAX)
}


/// The single-character token at `j`, if any.
pub open spec fn symbol_at(s: Seq<char>, j: int) -> Option<TokenView> {
    if 0 <= j < s.len() {
        let c = s[j];
        if c == '+' {
            Some(TokenView::Plus)
        } else if c == '-' {
            Some(TokenView::Minus)
        } else if c == '*' {
            Some(TokenView::Star)
        } else if c == '/' {
            Some(TokenView::Slash)
        } else if c == '(' {
            Some(TokenView::LParen)
        } else if c == ')' {
            Some(TokenView::RParen)
        } else {
            None
        }
    } else {
        None
    }
}

/// The token that starts at `j` and the index after it. A die is tried first,
/// then an integer, then the single-character tokens.
pub open spec fn token_at(s: Seq<char>, j: int) -> Option<(TokenView, int)> {
    match die_at(s, j) {
        Some((kind, n, sides, k)) => Some((TokenView::Die(kind, n as i32, sides as u32), k)),
        None => match int_end(s, j) {
            Some(k) => Some((TokenView::Number(literal_value(s, j, k)), k)),
            None => match symbol_at(s, j) {
                Some(t) => Some((t, j + 1)),
                None => None,
            },
        },
    }
}

/// Lexing from index `i`: whitespace, a token, whitespace, and so on to the end.
/// Where no token follows, the text must end at `i`.
pub open spec fn lex_from(s: Seq<char>, i: int) -> Result<Seq<TokenView>, LexError>
    decreases s.len() - i,
{
    if i < 0 || i > s.len() {
        // not a position of the text; lexing only starts at positions within it
        Ok(seq![])
    } else {
        let j = skip_space(s, i);
        if overflows_at(s, j) {
            Err(LexError::Overflow(j as usize))

        } else {
            match token_at(s, j) {
                Some((t, k)) => {
                    proof {
                        lemma_skip_space_bounds(s, i);
                        lemma_token_at_bounds(s, j);
                        lemma_skip_space_bounds(s, k);
                    }
                    match lex_from(s, skip_space(s, k)) {
                        Ok(ts) => Ok(seq![t] + ts),
                        Err(e) => Err(e),
                    }
                },
                None => if i == s.len() {
                    Ok(seq![])
                } else {
                    Err(LexError::Unexpected(i as usize))
                },
            }
        }
    }
}

/// The tokens of a text, or where lexing stops.
pub open spec fn lex(s: Seq<char>) -> Result<Seq<TokenView>, LexError> {
    lex_from(s, 0)
}

/// Whether lexing a text reads a die count or sides that does not fit in an `i32`.
pub open spec fn lex_overflows(s: Seq<char>) -> bool {
    lex(s) matches Err(LexError::Overflow(_))
}

pub open spec fn lex_view(r: Result<Vec<Token>, LexError>) -> Result<Seq<TokenView>, LexError> {
    match r {
        Ok(v) => Ok(tokens_view(v@)),
        Err(e) => Err(e),
    }
}

// ---------------------------------------------------------------------------
// Lemmas

pub proof fn lemma_skip_space_bounds(s: Seq<char>, i: int)
    requires
        0 <= i <= s.len(),
    ensures
        i <= skip_space(s, i) <= s.len(),
        skip_space(s, i) < s.len() ==> !is_space(s[skip_space(s, i)]),
    decreases s.len() - i,
{
    if i < s.len() && is_space(s[i]) {
        lemma_skip_space_bounds(s, i + 1);
    }
}

pub proof fn lemma_digits_end_bounds(s: Seq<char>, i: int)
    requires
        0 <= i <= s.len(),
    ensures
        i <= digits_end(s, i) <= s.len(),
        forall|m: int| i <= m < digits_end(s, i) ==> is_digit(#[trigger] s[m]),
    decreases s.len() - i,
{
    if i < s.len() && is_digit(s[i]) {
        lemma_digits_end_bounds(s, i + 1);
    }
}

pub proof fn lemma_int_end_bounds(s: Seq<char>, i: int)
    ensures
        int_end(s, i) matches Some(k) ==> {
            &&& 0 <= i < k <= s.len()
            &&& forall|m: int| i <= m < k ==> is_digit(#[trigger] s[m])
        },
{
    if 0 <= i < s.len() && is_digit(s[i]) && s[i] != '0' {
        lemma_digits_end_bounds(s, i + 1);
    }
}

pub proof fn lemma_token_at_bounds(s: Seq<char>, j: int)
    ensures
        token_at(s, j) matches Some((_, k)) ==> 0 <= j < k <= s.len(),
{
    lemma_int_end_bounds(s, j);
    let (kind, n, p) = die_prefix(s, j);
    if 0 <= p < s.len() && s[p] == 'd' {
        lemma_int_end_bounds(s, p + 1);
    }
}

// ---------------------------------------------------------------------------
// Whitespace around a text

/// Every character of `w` is whitespace.
pub open spec fn all_space(w: Seq<char>) -> bool {
    forall|i: int| 0 <= i < w.len() ==> is_space(#[trigger] w[i])
}

proof fn lemma_prefix_skip_space(p: Seq<char>, s: Seq<char>, j: int)
    requires
        0 <= j <= s.len(),
    ensures
        skip_space(p + s, p.len() + j) == p.len() + skip_space(s, j),
    decreases s.len() - j,
{
    let t = p + s;
    if j < s.len() {
        assert(t[p.len() + j] == s[j]);
        lemma_prefix_skip_space(p, s, j + 1);
    }
}

proof fn lemma_prefix_digits_end(p: Seq<char>, s: Seq<char>, j: int)
    requires
        0 <= j <= s.len(),
    ensures
        digits_end(p + s, p.len() + j) == p.len() + digits_end(s, j),
    decreases s.len() - j,
{
    let t = p + s;
    if j < s.len() {
        assert(t[p.len() + j] == s[j]);
        lemma_prefix_digits_end(p, s, j + 1);
    }
}

proof fn lemma_prefix_int_end(p: Seq<char>, s: Seq<char>, j: int)
    requires
        0 <= j <= s.len(),
    ensures
        int_end(p + s, p.len() + j) == (match int_end(s, j) {
            Some(k) => Some(p.len() + k),
            None => None,
        }),
{
    let t = p + s;
    if j < s.len() {
        assert(t[p.len() + j] == s[j]);
        lemma_prefix_digits_end(p, s, j + 1);
    }
}

proof fn lemma_prefix_literal(p: Seq<char>, s: Seq<char>, j: int, k: int)
    requires
        0 <= j <= k <= s.len(),
    ensures
        literal_value(p + s, p.len() + j, p.len() + k) == literal_value(s, j, k),
{
    assert((p + s).subrange(p.len() + j, p.len() + k) =~= s.subrange(j, k));
}

proof fn lemma_prefix_token_at(p: Seq<char>, s: Seq<char>, j: int)
    requires
        0 <= j <= s.len(),
    ensures
        token_at(p + s, p.len() + j) == (match token_at(s, j) {
            Some((tok, k)) => Some((tok, p.len() + k)),
            None => None,
        }),
        overflows_at(p + s, p.len() + j) == overflows_at(s, j),
{
    let t = p + s;
    let o = p.len() as int;
    lemma_prefix_int_end(p, s, j);
    lemma_int_end_bounds(s, j);
    if let Some(k) = int_end(s, j) {
        lemma_prefix_literal(p, s, j, k);
    }
    if j < s.len() {
        assert(t[o + j] == s[j]);
    }
    let (kind, n, q) = die_prefix(s, j);
    assert(die_prefix(t, o + j) == (kind, n, o + q));
    if 0 <= q < s.len() {
        assert(t[o + q] == s[q]);
    }
    if 0 <= q < s.len() && s[q] == 'd' {
        lemma_prefix_int_end(p, s, q + 1);
        lemma_int_end_bounds(s, q + 1);
        if let Some(k) = int_end(s, q + 1) {
            lemma_prefix_literal(p, s, q + 1, k);
        }
    }
    assert(symbol_at(t, o + j) == symbol_at(s, j));
}

proof fn lemma_prefix_lex_from(p: Seq<char>, s: Seq<char>, i: int)
    requires
        0 <= i <= s.len(),
        lex_from(s, i) is Ok,
    ensures
        lex_from(p + s, p.len() + i) == lex_from(s, i),
    decreases s.len() - i,
{
    let t = p + s;
    let o = p.len() as int;
    lemma_skip_space_bounds(s, i);
    lemma_prefix_skip_space(p, s, i);
    let j = skip_space(s, i);
    lemma_prefix_token_at(p, s, j);
    if let Some((tok, k)) = token_at(s, j) {
        lemma_token_at_bounds(s, j);
        lemma_skip_space_bounds(s, k);
        lemma_prefix_skip_space(p, s, k);
        lemma_prefix_lex_from(p, s, skip_space(s, k));
    }
}

proof fn lemma_skip_leading_space(w: Seq<char>, s: Seq<char>, m: int)
    requires
        all_space(w),
        0 <= m <= w.len(),
    ensures
        skip_space(w + s, m) == skip_space(w + s, w.len() as int),
    decreases w.len() - m,
{
    if m < w.len() {
        assert((w + s)[m] == w[m]);
        lemma_skip_leading_space(w, s, m + 1);
    }
}

proof fn lemma_suffix_skip_space(s: Seq<char>, w: Seq<char>, j: int)
    requires
        all_space(w),
        0 <= j <= s.len(),
    ensures
        skip_space(s + w, j) == (if skip_space(s, j) < s.len() {
            skip_space(s, j)
        } else {
            (s + w).len() as int
        }),
    decreases (s + w).len() - j,
{
    let u = s + w;
    if j < s.len() {
        assert(u[j] == s[j]);
        if is_space(s[j]) {
            lemma_suffix_skip_space(s, w, j + 1);
        }
    } else {
        lemma_trailing_space_run(s, w, j);
    }
}

proof fn lemma_trailing_space_run(s: Seq<char>, w: Seq<char>, j: int)
    requires
        all_space(w),
        s.len() <= j <= (s + w).len(),
    ensures
        skip_space(s + w, j) == (s + w).len(),
    decreases (s + w).len() - j,
{
    let u = s + w;
    if j < u.len() {
        assert(u[j] == w[j - s.len()]);
        lemma_trailing_space_run(s, w, j + 1);
    }
}

proof fn lemma_suffix_digits_end(s: Seq<char>, w: Seq<char>, j: int)
    requires
        all_space(w),
        0 <= j <= s.len(),
    ensures
        digits_end(s + w, j) == digits_end(s, j),
    decreases s.len() - j,
{
    let u = s + w;
    if j < s.len() {
        assert(u[j] == s[j]);
        lemma_suffix_digits_end(s, w, j + 1);
    } else if j < u.len() {
        assert(u[j] == w[0]);
        assert(is_space(w[0]));
    }
}

proof fn lemma_suffix_int_end(s: Seq<char>, w: Seq<char>, j: int)
    requires
        all_space(w),
        0 <= j <= s.len(),
    ensures
        int_end(s + w, j) == int_end(s, j),
{
    let u = s + w;
    if j < s.len() {
        assert(u[j] == s[j]);
        lemma_suffix_digits_end(s, w, j + 1);
    } else if j < u.len() {
        assert(u[j] == w[0]);
        assert(is_space(w[0]));
    }
}

proof fn lemma_suffix_token_at(s: Seq<char>, w: Seq<char>, j: int)
    requires
        all_space(w),
        0 <= j <= s.len(),
    ensures
        token_at(s + w, j) == token_at(s, j),
        overflows_at(s + w, j) == overflows_at(s, j),
{
    let u = s + w;
    lemma_suffix_int_end(s, w, j);
    lemma_int_end_bounds(s, j);
    if let Some(k) = int_end(s, j) {
        assert(u.subrange(j, k) =~= s.subrange(j, k));
    }
    if j < s.len() {
        assert(u[j] == s[j]);
    } else if j < u.len() {
        assert(u[j] == w[0]);
        assert(is_space(w[0]));
    }
    let (kind, n, q) = die_prefix(s, j);
    assert(die_prefix(u, j) == (kind, n, q));
    if 0 <= q < s.len() {
        assert(u[q] == s[q]);
        if s[q] == 'd' {
            lemma_suffix_int_end(s, w, q + 1);
            lemma_int_end_bounds(s, q + 1);
            if let Some(k) = int_end(s, q + 1) {
                assert(u.subrange(q + 1, k) =~= s.subrange(q + 1, k));
            }
        }
    } else if q == s.len() && q < u.len() {
        assert(u[q] == w[0]);
        assert(is_space(w[0]));
    }
    assert(symbol_at(u, j) == symbol_at(s, j));
}

proof fn lemma_lex_at_end(s: Seq<char>)
    ensures
        lex_from(s, s.len() as int) == Ok::<Seq<TokenView>, LexError>(seq![]),
{
    let n = s.len() as int;
    assert(skip_space(s, n) == n);
    assert(int_end(s, n) is None);
    assert(die_prefix(s, n) == (RollKind::Normal, 1nat, n));
    assert(token_at(s, n) is None);
}

proof fn lemma_suffix_lex_from(s: Seq<char>, w: Seq<char>, i: int)
    requires
        all_space(w),
        0 <= i < s.len(),
    ensures
        lex_from(s + w, i) == lex_from(s, i),
    decreases s.len() - i,
{
    let u = s + w;
    lemma_skip_space_bounds(s, i);
    lemma_suffix_skip_space(s, w, i);
    let j = skip_space(s, i);
    if j < s.len() {
        lemma_suffix_token_at(s, w, j);
        if let Some((tok, k)) = token_at(s, j) {
            lemma_token_at_bounds(s, j);
            lemma_skip_space_bounds(s, k);
            lemma_suffix_skip_space(s, w, k);
            let k2 = skip_space(s, k);
            if k2 < s.len() {
                lemma_suffix_lex_from(s, w, k2);
            } else {
                lemma_lex_at_end(s);
                lemma_lex_at_end(u);
            }
        }
    } else {
        lemma_suffix_token_at(s, w, j);
        lemma_lex_at_end(u);
        assert(int_end(u, u.len() as int) is None);
        assert(die_prefix(u, u.len() as int) == (RollKind::Normal, 1nat, u.len() as int));
        assert(token_at(u, u.len() as int) is None);
    }
}

/// Whitespace before and after a text does not change its tokens: where a
/// non-empty text lexes, so does the text with any whitespace around it, to the
/// same tokens. Trimming the input before lexing it changes nothing.
pub proof fn law_surrounding_whitespace(w1: Seq<char>, s: Seq<char>, w2: Seq<char>)
    requires
        all_space(w1),
        all_space(w2),
        s.len() > 0,
        lex(s) is Ok,
    ensures
        lex(w1 + s + w2) == lex(s),
{
    lemma_suffix_lex_from(s, w2, 0);
    let s2 = s + w2;
    assert(w1 + s + w2 =~= w1 + s2);
    let t = w1 + s2;
    let o = w1.len() as int;
    lemma_prefix_lex_from(w1, s2, 0);
    // lexing from the start of `t` and from the start of `s2` inside it agree
    lemma_skip_leading_space(w1, s2, 0);
    lemma_skip_space_bounds(s2, 0);
    lemma_prefix_skip_space(w1, s2, 0);
    let j = skip_space(s2, 0);
    lemma_prefix_token_at(w1, s2, j);
    assert(skip_space(t, 0) == o + j);
    if token_at(s2, j) is None {
        assert(lex_from(s2, 0) == Err::<Seq<TokenView>, LexError>(LexError::Unexpected(0)));
    }
}

proof fn lemma_literal_nonneg_fits(v: nat)
    requires
        v <= i32::MAX,
    ensures
        (v as i32) >= 0,
        (v as i32) == v,
        (v as u32) == v,
{
}

/// The dice that the lexer reads are as dice notation writes them: a count
/// that is a literal or 1, and sides that fit in an `i32`.
pub proof fn lemma_lex_written(s: Seq<char>, i: int)
    requires
        lex_from(s, i) is Ok,
    ensures
        written_tokens(lex_from(s, i)->Ok_0),
    decreases s.len() - i,
{
    if 0 <= i <= s.len() {
        let j = skip_space(s, i);
        if let Some((t, k)) = token_at(s, j) {
            lemma_skip_space_bounds(s, i);
            lemma_token_at_bounds(s, j);
            lemma_skip_space_bounds(s, k);
            lemma_lex_written(s, skip_space(s, k));
            let rest = lex_from(s, skip_space(s, k))->Ok_0;
            let all = seq![t] + rest;
            assert(lex_from(s, i)->Ok_0 == all);
            if let Some((kind, n, sides, e)) = die_at(s, j) {
                assert(!overflows_at(s, j));
                lemma_literal_nonneg_fits(sides);
                if int_end(s, j) is Some {
                    lemma_literal_nonneg_fits(n);
                }
                assert(written_die(kind, n as i32, sides as u32));
            }
            assert forall|q: int| 0 <= q < all.len() implies match #[trigger] all[q] {
                TokenView::Die(kind, n, sides) => written_die(kind, n, sides),
                _ => true,
            } by {
                if q > 0 {
                    assert(all[q] == rest[q - 1]);
                }
            }
        }
    }
}

// ---------------------------------------------------------------------------
// Printing tokens and lexing them back

/// The decimal digit character of `d < 10`.
pub open spec fn digit_char(d: nat) -> char {
    if d == 0 {
        '0'
    } else if d == 1 {
        '1'
    } else if d == 2 {
        '2'
    } else if d == 3 {
        '3'
    } else if d == 4 {
        '4'
    } else if d == 5 {
        '5'
    } else if d == 6 {
        '6'
    } else if d == 7 {
        '7'
    } else if d == 8 {
        '8'
    } else {
        '9'
    }
}

/// A natural number in decimal, without leading zeros.
pub open spec fn decimal(x: nat) -> Seq<char>
    decreases x,
{
    if x < 10 {
        seq![digit_char(x)]
    } else {
        decimal(x / 10) + seq![digit_char(x % 10)]
    }
}

/// A token as dice notation writes it: a number in decimal, a die as
/// `{n}d{sides}`, `^d{sides}` or `vd{sides}`, an operator or a parenthesis.
pub open spec fn show_token(t: TokenView) -> Seq<char> {
    match t {
        TokenView::Number(v) => decimal(v),
        TokenView::Die(kind, n, sides) => match kind {
            RollKind::Normal => decimal(n as nat) + seq!['d'] + decimal(sides as nat),
            RollKind::Advantage => seq!['^', 'd'] + decimal(sides as nat),
            RollKind::Disadvantage => seq!['v', 'd'] + decimal(sides as nat),
        },
        TokenView::Plus => seq!['+'],
        TokenView::Minus => seq!['-'],
        TokenView::Star => seq!['*'],
        TokenView::Slash => seq!['/'],
        TokenView::LParen => seq!['('],
        TokenView::RParen => seq![')'],
    }
}

/// Tokens as dice notation writes them, separated by single spaces.
pub open spec fn show_tokens(ts: Seq<TokenView>) -> Seq<char>
    decreases ts.len(),
{
    if ts.len() == 0 {
        seq![]
    } else if ts.len() == 1 {
        show_token(ts[0])
    } else {
        show_token(ts[0]) + seq![' '] + show_tokens(ts.drop_first())
    }
}

/// A token that dice notation can write: any number, a die with a
/// non-negative count and sides that fit in an `i32`, one die for advantage
/// and disadvantage.
pub open spec fn printable(t: TokenView) -> bool {
    match t {
        TokenView::Die(kind, n, sides) => n >= 0 && sides <= i32::MAX && (kind == RollKind::Normal
            || n == 1),
        _ => true,
    }
}

proof fn lemma_digit_char(d: nat)
    requires
        d < 10,
    ensures
        is_digit(digit_char(d)),
        digit_value(digit_char(d)) == d,
        digit_char(d) == '0' <==> d == 0,
{
}

proof fn lemma_decimal(x: nat)
    ensures
        decimal(x).len() >= 1,
        forall|m: int| 0 <= m < decimal(x).len() ==> is_digit(#[trigger] decimal(x)[m]),
        digits_value(decimal(x)) == x,
        x > 0 ==> decimal(x)[0] != '0',
        x == 0 ==> decimal(x) == seq!['0'],
    decreases x,
{
    let d = decimal(x);
    if x < 10 {
        lemma_digit_char(x);
        assert(d.drop_last() =~= Seq::<char>::empty());
        assert(d.last() == digit_char(x));
        assert(digits_value(d.drop_last()) == 0);
    } else {
        lemma_decimal(x / 10);
        lemma_digit_char(x % 10);
        let h = decimal(x / 10);
        assert(d.drop_last() =~= h);
        assert(d.last() == digit_char(x % 10));
        assert(digits_value(d) == 10 * digits_value(h) + digit_value(d.last()));
        assert(10 * (x / 10) + x % 10 == x);
        assert forall|m: int| 0 <= m < d.len() implies is_digit(#[trigger] d[m]) by {
            if m < h.len() {
                assert(d[m] == h[m]);
            }
        }
        assert(d[0] == h[0]);
    }
}

proof fn lemma_digits_run(s: Seq<char>, a: int, b: int)
    requires
        0 <= a <= b <= s.len(),
        forall|m: int| a <= m < b ==> is_digit(#[trigger] s[m]),
        b == s.len() || !is_digit(s[b]),
    ensures
        digits_end(s, a) == b,
    decreases b - a,
{
    if a < b {
        lemma_digits_run(s, a + 1, b);
    }
}

/// The decimal of `x` written at `i` and followed by no digit reads as `x`.
proof fn lemma_literal_at(s: Seq<char>, i: int, x: nat)
    requires
        0 <= i,
        i + decimal(x).len() <= s.len(),
        s.subrange(i, i + decimal(x).len()) == decimal(x),
        i + decimal(x).len() == s.len() || !is_digit(s[i + decimal(x).len()]),
    ensures
        int_end(s, i) == Some(i + decimal(x).len()),
        literal_value(s, i, i + decimal(x).len()) == x,
{
    let d = decimal(x);
    let e = i + d.len();
    lemma_decimal(x);
    assert forall|m: int| i <= m < e implies is_digit(#[trigger] s[m]) by {
        assert(s[m] == s.subrange(i, e)[m - i]);
    }
    assert(s[i] == d[0]);
    if x > 0 {
        lemma_digits_run(s, i + 1, e);
    }
}

/// A printable token written in front of a space, or of nothing, lexes as
/// itself and ends where its text ends.
proof fn lemma_show_token_at(t: TokenView, r: Seq<char>)
    requires
        printable(t),
        r.len() == 0 || r[0] == ' ',
    ensures
        show_token(t).len() > 0,
        token_at(show_token(t) + r, 0) == Some((t, show_token(t).len() as int)),
        !overflows_at(show_token(t) + r, 0),
        !is_space((show_token(t) + r)[0]),
{
    let w = show_token(t);
    let s = w + r;
    let e = w.len() as int;
    if r.len() > 0 {
        assert(s[e] == ' ');
    }
    match t {
        TokenView::Number(v) => {
            lemma_decimal(v as nat);
            assert(s.subrange(0, e) =~= w);
            lemma_literal_at(s, 0, v as nat);
            assert(s[0] == w[0]);
        },
        TokenView::Die(kind, n, sides) => {
            let ds = decimal(sides as nat);
            lemma_decimal(sides as nat);
            match kind {
                RollKind::Normal => {
                    let dn = decimal(n as nat);
                    lemma_decimal(n as nat);
                    let p = dn.len() as int;
                    assert(s.subrange(0, p) =~= dn);
                    assert(s[p] == 'd');
                    lemma_literal_at(s, 0, n as nat);
                    assert(s.subrange(p + 1, e) =~= ds);
                    lemma_literal_at(s, p + 1, sides as nat);
                    assert(s[0] == dn[0]);
                },
                _ => {
                    assert(s[1] == 'd');
                    assert(s.subrange(2, e) =~= ds);
                    lemma_literal_at(s, 2, sides as nat);
                    assert(int_end(s, 0) is None);
                },
            }
        },
        _ => {
            assert(s[0] == w[0]);
        },
    }
}

proof fn lemma_show_tokens_start(ts: Seq<TokenView>)
    requires
        ts.len() >= 1,
        forall|k: int| 0 <= k < ts.len() ==> printable(#[trigger] ts[k]),
    ensures
        show_tokens(ts).len() > 0,
        !is_space(show_tokens(ts)[0]),
{
    if ts.len() == 1 {
        lemma_show_token_at(ts[0], seq![]);
        assert(show_token(ts[0]) + seq![] =~= show_tokens(ts));
    } else {
        let r = seq![' '] + show_tokens(ts.drop_first());
        lemma_show_token_at(ts[0], r);
        assert(show_token(ts[0]) + r =~= show_tokens(ts));
    }
}

/// Printing tokens and lexing the text gives the tokens back: every sequence
/// of printable tokens, written as dice notation and separated by spaces,
/// lexes to itself.
pub proof fn law_print_then_lex(ts: Seq<TokenView>)
    requires
        forall|k: int| 0 <= k < ts.len() ==> printable(#[trigger] ts[k]),
    ensures
        lex(show_tokens(ts)) == Ok::<Seq<TokenView>, LexError>(ts),
    decreases ts.len(),
{
    let s = show_tokens(ts);
    if ts.len() == 0 {
        lemma_lex_at_end(s);
        assert(ts =~= Seq::<TokenView>::empty());
    } else {
        let t0 = ts[0];
        let w = show_token(t0);
        let k = w.len() as int;
        if ts.len() == 1 {
            lemma_show_token_at(t0, seq![]);
            assert(w + seq![] =~= s);
            assert(skip_space(s, 0) == 0);
            lemma_lex_at_end(s);
            assert(skip_space(s, k) == k);
            assert(ts =~= seq![t0]);
        } else {
            let tail = ts.drop_first();
            let rest = show_tokens(tail);
            assert forall|q: int| 0 <= q < tail.len() implies printable(#[trigger] tail[q]) by {
                assert(tail[q] == ts[q + 1]);
            }
            law_print_then_lex(tail);
            lemma_show_tokens_start(tail);
            let r = seq![' '] + rest;
            lemma_show_token_at(t0, r);
            assert(w + r =~= s);
            assert(skip_space(s, 0) == 0);
            assert(s[k] == ' ');
            assert(s[k + 1] == rest[0]);
            assert(skip_space(s, k + 1) == k + 1);
            assert(skip_space(s, k) == k + 1);
            let pre = w + seq![' '];
            assert(pre + rest =~= s);
            assert(skip_space(rest, 0) == 0);
            lemma_prefix_lex_from(pre, rest, 0);
            assert(seq![t0] + tail =~= ts);
        }
    }
}

// ---------------------------------------------------------------------------
// Executable lexer

/// The characters of a text, in order.
fn chars_of(s: &str) -> (r: Vec<char>)
    ensures
        r@ == s@,
{
    let mut out: Vec<char> = Vec::new();
    for c in it: s.chars()
        invariant
            out@ == it.seq().take(it.index() as int),
    {
        out.push(c);
    }
    out
}

fn is_space_char(c: char) -> (b: bool)
    ensures
        b == is_space(c),
{
    let u = c as u32;
    (0x09 <= u && u <= 0x0D) || u == 0x20 || u == 0x85 || u == 0xA0 || u == 0x1680 || (0x2000
        <= u && u <= 0x200A) || u == 0x2028 || u == 0x2029 || u == 0x202F || u == 0x205F || u
        == 0x3000
}

fn is_digit_char(c: char) -> (b: bool)
    ensures
        b == is_digit(c),
{
    let u = c as u32;
    0x30 <= u && u <= 0x39
}

fn skip_spaces(s: &Vec<char>, i: usize) -> (r: usize)
    requires
        i <= s.len(),
    ensures
        r == skip_space(s@, i as int),
        i <= r <= s.len(),
{
    let mut j = i;
    while j < s.len() && is_space_char(s[j])
        invariant
            i <= j <= s.len(),
            skip_space(s@, j as int) == skip_space(s@, i as int),
        decreases s.len() - j,
    {
        j = j + 1;
    }
    j
}

fn int_literal_end(s: &Vec<char>, i: usize) -> (r: Option<usize>)
    requires
        i <= s.len(),
    ensures
        r matches Some(k) ==> int_end(s@, i as int) == Some(k as int),
        r is None ==> int_end(s@, i as int) is None,
{
    if i < s.len() && s[i] == '0' {
        Some(i + 1)
    } else if i < s.len() && is_digit_char(s[i]) {
        let mut j = i + 1;
        while j < s.len() && is_digit_char(s[j])
            invariant
                i < j <= s.len(),
                digits_end(s@, j as int) == digits_end(s@, i + 1),
            decreases s.len() - j,
        {
            j = j + 1;
        }
        Some(j)
    } else {
        None
    }
}

/// The value of the digits in `s[i..k]` where it is at most `bound`.
fn literal_value_upto(s: &Vec<char>, i: usize, k: usize, bound: i64) -> (r: Option<i64>)
    requires
        i <= k <= s.len(),
        0 <= bound,
        forall|m: int| i <= m < k ==> is_digit(#[trigger] s@[m]),
    ensures
        r matches Some(v) ==> v == literal_value(s@, i as int, k as int) && v <= bound,
        r is None ==> literal_value(s@, i as int, k as int) > bound,
{
    let mut acc: i128 = 0;
    let mut over = false;
    let mut m = i;
    assert(s@.subrange(i as int, i as int) =~= Seq::<char>::empty());
    while m < k
        invariant
            i <= m <= k <= s.len(),
            0 <= bound,
            forall|q: int| i <= q < k ==> is_digit(#[trigger] s@[q]),
            over ==> literal_value(s@, i as int, m as int) > bound,
            !over ==> acc == literal_value(s@, i as int, m as int) && 0 <= acc <= bound,
        decreases k - m,
    {
        assert(s@.subrange(i as int, m + 1).drop_last() =~= s@.subrange(i as int, m as int));
        assert(is_digit(s@[m as int]));
        let d = (s[m] as u32 - 0x30) as i128;
        if !over {
            let next = acc * 10 + d;
            if next > bound as i128 {
                over = true;
            } else {
                acc = next;
            }
        }
        m = m + 1;
    }
    if over {
        None
    } else {
        Some(acc as i64)
    }
}

/// The numeral of the digits in `s[i..k]`.
fn numeral_of(s: &Vec<char>, i: usize, k: usize) -> (r: Numeral)
    requires
        i <= k <= s.len(),
    ensures
        r.digits@ == s@.subrange(i as int, k as int),
        r@ == literal_value(s@, i as int, k as int),
{
    let mut digits: Vec<char> = Vec::new();
    let mut m = i;
    while m < k
        invariant
            i <= m <= k <= s.len(),
            digits@ == s@.subrange(i as int, m as int),
        decreases k - m,
    {
        digits.push(s[m]);
        m = m + 1;
        assert(digits@ =~= s@.subrange(i as int, m as int));
    }
    Numeral { digits }
}

/// What is found at a token's start.
enum Scan {
    Found(Token, usize),
    Nothing,
    Overflow,
}

fn scan_token(s: &Vec<char>, j: usize) -> (r: Scan)
    requires
        j <= s.len(),
    ensures
        r is Overflow <==> overflows_at(s@, j as int),
        r matches Scan::Found(t, k) ==> token_at(s@, j as int) == Some((t@, k as int)),
        r is Nothing ==> token_at(s@, j as int) is None,
{
    proof {
        lemma_int_end_bounds(s@, j as int);
    }
    let first = int_literal_end(s, j);
    // the count of a die as an `i32`, where it fits
    let mut count: Option<i64> = Some(1);
    let mut kind = RollKind::Normal;
    let mut p = j;
    match first {
        Some(k) => {
            count = literal_value_upto(s, j, k, 0x7fff_ffff);
            p = k;
        },
        None => {
            if j < s.len() && s[j] == '^' {
                kind = RollKind::Advantage;
                p = j + 1;
            } else if j < s.len() && s[j] == 'v' {
                kind = RollKind::Disadvantage;
                p = j + 1;
            }
        },
    }
    assert(die_prefix(s@, j as int).0 == kind && die_prefix(s@, j as int).2 == p);
    assert(count matches Some(c) ==> die_prefix(s@, j as int).1 == c);
    assert(count is None ==> die_prefix(s@, j as int).1 > i32::MAX);
    if p < s.len() && s[p] == 'd' {
        proof {
            lemma_int_end_bounds(s@, p + 1);
        }
        match int_literal_end(s, p + 1) {
            Some(k) => {
                let sides = literal_value_upto(s, p + 1, k, 0x7fff_ffff);
                match (count, sides) {
                    (Some(c), Some(v)) => {
                        return Scan::Found(Token::Die(kind, c as i32, v as u32), k);
                    },
                    _ => {
                        return Scan::Overflow;
                    },
                }
            },
            None => {},
        }
    }
    assert(die_at(s@, j as int) is None);
    match first {
        Some(k) => {
            return Scan::Found(Token::Number(numeral_of(s, j, k)), k);
        },
        None => {},
    }
    if j < s.len() {
        let c = s[j];
        if c == '+' {
            Scan::Found(Token::Plus, j + 1)
        } else if c == '-' {
            Scan::Found(Token::Minus, j + 1)
        } else if c == '*' {
            Scan::Found(Token::Star, j + 1)
        } else if c == '/' {
            Scan::Found(Token::Slash, j + 1)
        } else if c == '(' {
            Scan::Found(Token::LParen, j + 1)
        } else if c == ')' {
            Scan::Found(Token::RParen, j + 1)
        } else {
            Scan::Nothing
        }
    } else {
        Scan::Nothing
    }
}

/// Lexes a sequence of characters: exactly `lex(s@)`.
fn lex_chars(s: &Vec<char>) -> (r: Result<Vec<Token>, LexError>)
    ensures
        lex_view(r) == lex(s@),
{
    let mut out: Vec<Token> = Vec::new();
    let mut i: usize = 0;
    loop
        invariant
            0 <= i <= s.len(),
            lex(s@) == (match lex_from(s@, i as int) {
                Ok(ts) => Ok(tokens_view(out@) + ts),
                Err(e) => Err(e),
            }),
        decreases s.len() - i,
    {
        let j = skip_spaces(s, i);
        match scan_token(s, j) {
            Scan::Overflow => {
                return Err(LexError::Overflow(j));
            },
            Scan::Nothing => {
                if i == s.len() {
                    assert(tokens_view(out@) + seq![] =~= tokens_view(out@));
                    return Ok(out);
                } else {
                    return Err(LexError::Unexpected(i));
                }
            },
            Scan::Found(t, k) => {
                proof {
                    lemma_token_at_bounds(s@, j as int);
                }
                let next = skip_spaces(s, k);
                let ghost before = tokens_view(out@);
                let ghost tv = t@;
                out.push(t);
                proof {
                    assert(tokens_view(out@) =~= before.push(tv));
                    match lex_from(s@, next as int) {
                        Ok(ts) => {
                            assert(before + (seq![tv] + ts) =~= tokens_view(out@) + ts);
                        },
                        Err(e) => {},
                    }
                }
                i = next;
            },
        }
    }
}

/// Lexes a text into tokens. Whitespace may stand before and after each token;
/// a die (`2d6`, `d20`, `^d20`, `vd20`) is tried before an integer, then the
/// single-character tokens `+ - * / ( )`.
pub fn lex_input(input: &str) -> (r: Result<Vec<Token>, LexError>)
    ensures
        lex_view(r) == lex(input@),
{
    let chars = chars_of(input);
    lex_chars(&chars)
}

/// Lexes a text into tokens, on texts without a die whose count or sides are
/// beyond `i32::MAX`; then the only error is [`LexError::Unexpected`].
pub fn lexer(input: &str) -> (r: Result<Vec<Token>, LexError>)
    requires
        !lex_overflows(input@),
    ensures
        lex_view(r) == lex(input@),
        r matches Err(e) ==> !(e is Overflow),
{
    lex_input(input)
}

} // verus!
