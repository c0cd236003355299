use vstd::prelude::*;
use crate::types::{written_tree, Expr, RollKind};
use crate::lexer::{lemma_lex_written, lex};
use crate::parser::{lemma_parse_written, parse};
use crate::dice::Dice;

verus! {

/// An exact fraction `num / den`.
#[derive(Clone, Copy, PartialEq, Eq, Structural, Debug)]
pub struct Ratio {
    pub num: i128,
    pub den: i128,
}

/// What a roll came to, with the theoretical minimum, maximum and average
/// that the roll's kind, count and sides give.
#[derive(Clone, Copy, PartialEq, Eq, Structural, Debug)]
pub struct RollStats {
    pub value: i64,
    pub min: i64,
    pub max: i64,
    pub avg: Ratio,
}

// ---------------------------------------------------------------------------
// Rolling

/// How many dice a roll throws: `|n|` for a normal roll, two for advantage or
/// disadvantage.
pub open spec fn roll_count(kind: RollKind, n: i32) -> nat {
    match kind {
        RollKind::Normal => if n < 0 { (-n) as nat } else { n as nat },
        _ => 2,
    }
}

/// A die result: the face, between 1 and `sides`, read as an `i32` (a face
/// above `i32::MAX` wraps around, as `as i32` does).
pub open spec fn is_face(r: i32, sides: u32) -> bool {
    1 <= (r as u32) <= sides
}

/// The results of a roll: one face per die thrown.
pub open spec fn valid_results(kind: RollKind, n: i32, sides: u32, rs: Seq<i32>) -> bool {
    &&& rs.len() == roll_count(kind, n)
    &&& forall|i: int| 0 <= i < rs.len() ==> is_face(#[trigger] rs[i], sides)
}

/// A roll can be thrown: its count has an absolute value, and a die that is
/// thrown has at least one side.
pub open spec fn can_roll(kind: RollKind, n: i32, sides: u32) -> bool {
    &&& (kind == RollKind::Normal ==> n != i32::MIN)
    &&& (roll_count(kind, n) > 0 ==> sides >= 1)
}

/// The die results of drawn faces, each read as an `i32` (a face above
/// `i32::MAX` wraps around, as `as i32` does).
pub open spec fn as_results(faces: Seq<u32>) -> Seq<i32> {
    faces.map_values(|f: u32| f as i32)
}

/// From `before` to `after` the dice drew new faces, one per result, whose
/// readings are exactly `rs`, in order; the earlier draws stay as they were.
pub open spec fn draws_give(before: Seq<u32>, after: Seq<u32>, rs: Seq<i32>) -> bool {
    &&& after.len() == before.len() + rs.len()
    &&& after.take(before.len() as int) == before
    &&& as_results(after.skip(before.len() as int)) == rs
}

/// Throws the dice of a roll from `dice`: each die is a draw of its own, and
/// the results are the faces drawn, in order.
pub fn roll_with(dice: &mut Dice, kind: RollKind, n: i32, sides: u32) -> (results: Vec<i32>)
    requires
        can_roll(kind, n, sides),
    ensures
        valid_results(kind, n, sides, results@),
        draws_give(old(dice)@, final(dice)@, results@),
{
    let count: u32 = match kind {
        RollKind::Normal => if n < 0 {
            (-n) as u32
        } else {
            n as u32
        },
        _ => 2,
    };
    let ghost start = dice@;
    let mut results: Vec<i32> = Vec::new();
    let mut i: u32 = 0;
    assert(dice@.skip(start.len() as int) =~= Seq::<u32>::empty());
    assert(dice@.take(start.len() as int) =~= start);
    assert(as_results(Seq::<u32>::empty()) =~= Seq::<i32>::empty());
    while i < count
        invariant
            count == roll_count(kind, n),
            i <= count,
            count > 0 ==> sides >= 1,
            results@.len() == i,
            forall|q: int| 0 <= q < results@.len() ==> is_face(#[trigger] results@[q], sides),
            draws_give(start, dice@, results@),
        decreases count - i,
    {
        let ghost before = dice@;
        let face = dice.draw(1, sides);
        let r = face as i32;
        assert((face as i32) as u32 == face) by (bit_vector);
        results.push(r);
        i = i + 1;
        proof {
            assert(dice@.take(start.len() as int) =~= before.take(start.len() as int));
            assert(dice@.skip(start.len() as int) =~= before.skip(start.len() as int).push(face));
            assert(as_results(dice@.skip(start.len() as int)) =~= as_results(
                before.skip(start.len() as int),
            ).push(r));
        }
    }
    results
}

/// Throws the dice of a roll from this thread's generator (see [`roll_with`]).
pub fn roll(kind: RollKind, n: i32, sides: u32) -> (results: Vec<i32>)
    requires
        can_roll(kind, n, sides),
    ensures
        valid_results(kind, n, sides, results@),
{
    let mut dice = Dice::new();
    roll_with(&mut dice, kind, n, sides)
}

/// Every roll in a tree can be thrown.
pub open spec fn rollable(e: Expr) -> bool
    decreases e,
{
    match e {
        Expr::Number(_) => true,
        Expr::Roll { kind, n, sides, .. } => can_roll(kind, n, sides),
        Expr::Binary { left, right, .. } => rollable(*left) && rollable(*right),
    }
}

/// `after` is `before` with the results of every roll filled in.
pub open spec fn rolled(before: Expr, after: Expr) -> bool
    decreases before,
{
    match before {
        Expr::Number(v) => after == Expr::Number(v),
        Expr::Roll { kind, n, sides, .. } => match after {
            Expr::Roll { kind: k2, n: n2, sides: s2, results: Some(rs) } => {
                &&& k2 == kind
                &&& n2 == n
                &&& s2 == sides
                &&& valid_results(kind, n, sides, rs@)
            },
            _ => false,
        },
        Expr::Binary { op, left, right } => match after {
            Expr::Binary { op: o2, left: l2, right: r2 } => {
                &&& o2 == op
                &&& rolled(*left, *l2)
                &&& rolled(*right, *r2)
            },
            _ => false,
        },
    }
}

/// Whether every roll in a tree can be thrown (see [`evaluate`]).
pub fn is_rollable(e: &Expr) -> (b: bool)
    ensures
        b == rollable(*e),
    decreases e,
{
    match e {
        Expr::Number(_) => true,
        Expr::Roll { kind, n, sides, .. } => {
            let count_positive = match kind {
                RollKind::Normal => *n != 0,
                _ => true,
            };
            (*kind != RollKind::Normal || *n != i32::MIN) && (!count_positive || *sides >= 1)
        },
        Expr::Binary { left, right, .. } => is_rollable(left) && is_rollable(right),
    }
}

/// The results of the thrown rolls of a tree, read from left to right.
pub open spec fn thrown_results(e: Expr) -> Seq<i32>
    decreases e,
{
    match e {
        Expr::Number(_) => seq![],
        Expr::Roll { results, .. } => match results {
            Some(rs) => rs@,
            None => seq![],
        },
        Expr::Binary { left, right, .. } => thrown_results(*left) + thrown_results(*right),
    }
}

/// How many dice the rolls of a tree throw.
pub open spec fn dice_count(e: Expr) -> nat
    decreases e,
{
    match e {
        Expr::Number(_) => 0,
        Expr::Roll { kind, n, .. } => roll_count(kind, n),
        Expr::Binary { left, right, .. } => dice_count(*left) + dice_count(*right),
    }
}

proof fn lemma_draws_chain(a: Seq<u32>, b: Seq<u32>, c: Seq<u32>, r1: Seq<i32>, r2: Seq<i32>)
    requires
        draws_give(a, b, r1),
        draws_give(b, c, r2),
    ensures
        draws_give(a, c, r1 + r2),
{
    assert(c.take(a.len() as int) =~= b.take(a.len() as int));
    assert(c.skip(a.len() as int) =~= b.skip(a.len() as int) + c.skip(b.len() as int));
    assert(as_results(c.skip(a.len() as int)) =~= as_results(b.skip(a.len() as int)) + as_results(
        c.skip(b.len() as int),
    ));
}

/// Throws every roll of a tree from `dice`, left before right, and keeps the
/// results in the tree; numbers and operators stay as they were. Every die of
/// every roll is a draw of its own: the dice draw exactly the tree's results,
/// in order.
pub fn evaluate_with(dice: &mut Dice, expr: Expr) -> (r: Expr)
    requires
        rollable(expr),
    ensures
        rolled(expr, r),
        draws_give(old(dice)@, final(dice)@, thrown_results(r)),
    decreases expr,
{
    let ghost start = dice@;
    match expr {
        Expr::Number(v) => {
            assert(dice@.take(start.len() as int) =~= start);
            assert(as_results(dice@.skip(start.len() as int)) =~= Seq::<i32>::empty());
            Expr::Number(v)
        },
        Expr::Roll { kind, n, sides, results: _ } => {
            let results = roll_with(dice, kind, n, sides);
            Expr::Roll { kind, n, sides, results: Some(results) }
        },
        Expr::Binary { op, left, right } => {
            let l = evaluate_with(dice, *left);
            let ghost mid = dice@;
            let r = evaluate_with(dice, *right);
            proof {
                lemma_draws_chain(start, mid, dice@, thrown_results(l), thrown_results(r));
            }
            Expr::Binary { op, left: Box::new(l), right: Box::new(r) }
        },
    }
}

/// Throws every roll of a tree from this thread's generator (see
/// [`evaluate_with`]).
pub fn evaluate(expr: Expr) -> (r: Expr)
    requires
        rollable(expr),
    ensures
        rolled(expr, r),
{
    let mut dice = Dice::new();
    evaluate_with(&mut dice, expr)
}

/// A thrown tree holds one result per die of its rolls: together with
/// [`evaluate_with`], the dice draw exactly as many faces as the tree's rolls
/// throw dice, so no roll takes its results from another.
pub proof fn law_one_draw_per_die(e: Expr, r: Expr)
    requires
        rolled(e, r),
    ensures
        thrown_results(r).len() == dice_count(e),
    decreases e,
{
    match e {
        Expr::Binary { left, right, .. } => {
            if let Expr::Binary { left: l2, right: r2, .. } = r {
                law_one_draw_per_die(*left, *l2);
                law_one_draw_per_die(*right, *r2);
            }
        },
        _ => {},
    }
}

// ---------------------------------------------------------------------------
// Statistics of a roll

/// The sum of a sequence of die results.
pub open spec fn results_sum(rs: Seq<i32>) -> int
    decreases rs.len(),
{
    if rs.len() == 0 {
        0
    } else {
        results_sum(rs.drop_last()) + rs.last()
    }
}

/// What a roll comes to: the sum of the dice, or the higher (advantage) or the
/// lower (disadvantage) of two.
pub open spec fn roll_value(kind: RollKind, rs: Seq<i32>) -> int {
    match kind {
        RollKind::Normal => results_sum(rs),
        RollKind::Advantage => if rs[0] >= rs[1] { rs[0] as int } else { rs[1] as int },
        RollKind::Disadvantage => if rs[0] <= rs[1] { rs[0] as int } else { rs[1] as int },
    }
}

/// The theoretical minimum of a roll: its count.
pub open spec fn roll_min(n: i32) -> int {
    n as int
}

/// The theoretical maximum of a roll: count times sides.
pub open spec fn roll_max(n: i32, sides: u32) -> int {
    n * sides
}

/// `s^2` times the expected higher of two `s`-sided dice, summed over the faces
/// `1..=m`: `k * (k^2 - (k - 1)^2)` for each face `k`, as the probability that
/// the higher die shows exactly `k` is `(k/s)^2 - ((k-1)/s)^2`.
pub open spec fn advantage_sum(m: nat) -> int
    decreases m,
{
    if m == 0 {
        0
    } else {
        advantage_sum((m - 1) as nat) + m * (m * m - (m - 1) * (m - 1))
    }
}

/// `s^2` times the expected lower of two `s`-sided dice, summed over the faces
/// `1..=m`: `k * ((s - k + 1)^2 - (s - k)^2)` for each face `k`, as the
/// probability that the lower die shows exactly `k` is
/// `((s - k + 1)/s)^2 - ((s - k)/s)^2`.
pub open spec fn disadvantage_sum(s: nat, m: nat) -> int
    decreases m,
{
    if m == 0 {
        0
    } else {
        disadvantage_sum(s, (m - 1) as nat) + m * ((s - m + 1) * (s - m + 1) - (s - m) * (s - m))
    }
}

/// The numerator of a roll's average: `n * (1 + sides)` over 2 for a normal
/// roll; the sums above over `sides^2` for advantage and disadvantage.
pub open spec fn avg_num(kind: RollKind, n: i32, sides: u32) -> int {
    match kind {
        RollKind::Normal => n * (1 + sides),
        RollKind::Advantage => advantage_sum(sides as nat),
        RollKind::Disadvantage => disadvantage_sum(sides as nat, sides as nat),
    }
}

/// The denominator of a roll's average.
pub open spec fn avg_den(kind: RollKind, sides: u32) -> int {
    match kind {
        RollKind::Normal => 2,
        _ => sides * sides,
    }
}

pub proof fn lemma_advantage_sum_closed(m: nat)
    ensures
        6 * advantage_sum(m) == (m as int) * (m as int + 1) * (4 * (m as int) - 1),
    decreases m,
{
    if m > 0 {
        let q = (m - 1) as nat;
        lemma_advantage_sum_closed(q);
        let a = advantage_sum(q);
        let mi = m as int;
        let qi = q as int;
        assert(advantage_sum(m) == a + mi * (mi * mi - qi * qi));
        assert(6 * (a + mi * (mi * mi - qi * qi)) == mi * (mi + 1) * (4 * mi - 1))
            by (nonlinear_arith)
            requires
                qi == mi - 1,
                6 * a == qi * (qi + 1) * (4 * qi - 1),
        ;
    } else {
        assert(advantage_sum(m) == 0);
        assert((m as int) * (m as int + 1) * (4 * (m as int) - 1) == 0) by (nonlinear_arith)
            requires
                m == 0,
        ;
    }
}

pub proof fn lemma_disadvantage_sum_closed(s: nat, m: nat)
    ensures
        6 * disadvantage_sum(s, m) == 3 * (2 * (s as int) + 1) * (m as int) * (m as int + 1) - 2
            * (m as int) * (m as int + 1) * (2 * (m as int) + 1),
    decreases m,
{
    if m > 0 {
        let q = (m - 1) as nat;
        lemma_disadvantage_sum_closed(s, q);
        let a = disadvantage_sum(s, q);
        let mi = m as int;
        let qi = q as int;
        let si = s as int;
        let t = mi * ((si - mi + 1) * (si - mi + 1) - (si - mi) * (si - mi));
        assert(disadvantage_sum(s, m) == a + t);
        let d = si - mi;
        assert((d + 1) * (d + 1) - d * d == 2 * d + 1) by (nonlinear_arith);
        assert(t == mi * (2 * si - 2 * mi + 1));
        assert(3 * (2 * si + 1) * mi * (mi + 1) - 3 * (2 * si + 1) * qi * (qi + 1) == 6 * (2 * si
            + 1) * mi) by (nonlinear_arith)
            requires
                qi == mi - 1,
        ;
        assert(2 * mi * (mi + 1) * (2 * mi + 1) - 2 * qi * (qi + 1) * (2 * qi + 1) == 12 * mi * mi)
            by (nonlinear_arith)
            requires
                qi == mi - 1,
        ;
        assert(6 * t == 6 * (2 * si + 1) * mi - 12 * mi * mi) by (nonlinear_arith)
            requires
                t == mi * (2 * si - 2 * mi + 1),
        ;
    } else {
        assert(disadvantage_sum(s, m) == 0);
        assert(3 * (2 * (s as int) + 1) * (m as int) * (m as int + 1) - 2 * (m as int) * (m as int
            + 1) * (2 * (m as int) + 1) == 0) by (nonlinear_arith)
            requires
                m == 0,
        ;
    }
}

/// The two sums in closed form: `6 * adv == s(s+1)(4s-1)` and
/// `6 * dis == s(s+1)(2s+1)`.
pub proof fn lemma_average_sums_closed(s: nat)
    ensures
        6 * advantage_sum(s) == (s as int) * (s as int + 1) * (4 * (s as int) - 1),
        6 * disadvantage_sum(s, s) == (s as int) * (s as int + 1) * (2 * (s as int) + 1),
{
    lemma_advantage_sum_closed(s);
    lemma_disadvantage_sum_closed(s, s);
    let si = s as int;
    assert(3 * (2 * si + 1) * si * (si + 1) - 2 * si * (si + 1) * (2 * si + 1) == si * (si + 1) * (2
        * si + 1)) by (nonlinear_arith);
}

fn results_total(rs: &Vec<i32>) -> (total: i64)
    requires
        rs.len() <= 0x8000_0000,
    ensures
        total == results_sum(rs@),
{
    let mut total: i64 = 0;
    let mut i: usize = 0;
    while i < rs.len()
        invariant
            i <= rs.len() <= 0x8000_0000,
            total == results_sum(rs@.take(i as int)),
            -0x8000_0000 * i <= total <= 0x7fff_ffff * i,
        decreases rs.len() - i,
    {
        assert(rs@.take(i + 1).drop_last() =~= rs@.take(i as int));
        total = total + rs[i] as i64;
        i = i + 1;
    }
    assert(rs@.take(rs.len() as int) =~= rs@);
    total
}

/// The value, minimum, maximum and average of a roll with the given results.
pub fn roll_stats(kind: RollKind, n: i32, sides: u32, results: &Vec<i32>) -> (st: RollStats)
    requires
        results@.len() == roll_count(kind, n),
        kind != RollKind::Normal ==> sides >= 1,
    ensures
        st.value == roll_value(kind, results@),
        kind == RollKind::Advantage ==> {
            &&& st.value >= results@[0] && st.value >= results@[1]
            &&& st.value == results@[0] || st.value == results@[1]
        },
        kind == RollKind::Disadvantage ==> {
            &&& st.value <= results@[0] && st.value <= results@[1]
            &&& st.value == results@[0] || st.value == results@[1]
        },
        st.min == roll_min(n),
        st.max == roll_max(n, sides),
        st.avg.num == avg_num(kind, n, sides),
        st.avg.den == avg_den(kind, sides),
{
    let value: i64 = match kind {
        RollKind::Normal => results_total(results),
        RollKind::Advantage => if results[0] >= results[1] {
            results[0] as i64
        } else {
            results[1] as i64
        },
        RollKind::Disadvantage => if results[0] <= results[1] {
            results[0] as i64
        } else {
            results[1] as i64
        },
    };
    let s = sides as i128;
    assert(0 <= s * s <= 0xffff_ffff * 0xffff_ffff) by (nonlinear_arith)
        requires
            0 <= s <= 0xffff_ffff,
    ;
    assert(-0x8000_0000 * 0xffff_ffff <= n * sides <= 0x7fff_ffff * 0xffff_ffff)
        by (nonlinear_arith)
        requires
            -0x8000_0000 <= n <= 0x7fff_ffff,
            0 <= sides <= 0xffff_ffff,
    ;
    let max = n as i64 * sides as i64;
    let avg = match kind {
        RollKind::Normal => {
            assert(-0x8000_0000 * 0x1_0000_0000 <= n * (1 + s) <= 0x7fff_ffff * 0x1_0000_0000)
                by (nonlinear_arith)
                requires
                    -0x8000_0000 <= n <= 0x7fff_ffff,
                    1 <= 1 + s <= 0x1_0000_0000,
            ;
            Ratio { num: n as i128 * (1 + s), den: 2 }
        },
        RollKind::Advantage => {
            proof {
                lemma_average_sums_closed(sides as nat);
            }
            assert(0 <= s * (s + 1) * (4 * s - 1) <= 0x1_0000_0000 * 0x1_0000_0000
                * 0x4_0000_0000) by (nonlinear_arith)
                requires
                    1 <= s <= 0xffff_ffff,
            ;
            assert(0 <= s * (s + 1) <= 0x1_0000_0000 * 0x1_0000_0000) by (nonlinear_arith)
                requires
                    1 <= s <= 0xffff_ffff,
            ;
            let p = s * (s + 1) * (4 * s - 1);
            Ratio { num: p / 6, den: s * s }
        },
        RollKind::Disadvantage => {
            proof {
                lemma_average_sums_closed(sides as nat);
            }
            assert(0 <= s * (s + 1) * (2 * s + 1) <= 0x1_0000_0000 * 0x1_0000_0000
                * 0x2_0000_0000) by (nonlinear_arith)
                requires
                    1 <= s <= 0xffff_ffff,
            ;
            assert(0 <= s * (s + 1) <= 0x1_0000_0000 * 0x1_0000_0000) by (nonlinear_arith)
                requires
                    1 <= s <= 0xffff_ffff,
            ;
            let p = s * (s + 1) * (2 * s + 1);
            Ratio { num: p / 6, den: s * s }
        },
    };
    RollStats { value, min: n as i64, max, avg }
}

// ---------------------------------------------------------------------------
// Laws

/// Advantage keeps the higher of its two dice: the value is at least each die
/// and is one of them.
pub proof fn law_advantage_takes_higher(rs: Seq<i32>)
    requires
        rs.len() == 2,
    ensures
        roll_value(RollKind::Advantage, rs) >= rs[0],
        roll_value(RollKind::Advantage, rs) >= rs[1],
        roll_value(RollKind::Advantage, rs) == rs[0] || roll_value(RollKind::Advantage, rs) == rs[1],
{
}

/// Disadvantage keeps the lower of its two dice: the value is at most each die
/// and is one of them.
pub proof fn law_disadvantage_takes_lower(rs: Seq<i32>)
    requires
        rs.len() == 2,
    ensures
        roll_value(RollKind::Disadvantage, rs) <= rs[0],
        roll_value(RollKind::Disadvantage, rs) <= rs[1],
        roll_value(RollKind::Disadvantage, rs) == rs[0] || roll_value(RollKind::Disadvantage, rs)
            == rs[1],
{
}

/// A normal roll comes to the sum of its dice: no dice give 0, and one more die
/// adds its face.
pub proof fn law_normal_sums_dice(rs: Seq<i32>, x: i32)
    ensures
        roll_value(RollKind::Normal, Seq::<i32>::empty()) == 0,
        roll_value(RollKind::Normal, rs.push(x)) == roll_value(RollKind::Normal, rs) + x,
{
    assert(rs.push(x).drop_last() =~= rs);
}

/// A roll can be thrown exactly when its count is not `i32::MIN` (for a normal
/// roll) and its die has at least one side, unless no die is thrown at all:
/// any number of dice may be thrown, however few the sides.
pub proof fn law_roll_rollable(kind: RollKind, n: i32, sides: u32, results: Option<Vec<i32>>)
    ensures
        rollable(Expr::Roll { kind, n, sides, results }) <==> {
            &&& !(kind == RollKind::Normal && n == i32::MIN)
            &&& (sides >= 1 || (kind == RollKind::Normal && n == 0))
        },
{
}

proof fn lemma_face_bounds(r: i32, sides: u32)
    requires
        is_face(r, sides),
        sides <= i32::MAX,
    ensures
        1 <= r <= sides,
{
    assert(r < 0 ==> (r as u32) >= 0x8000_0000u32) by (bit_vector);
}

proof fn lemma_results_sum_bounds(rs: Seq<i32>, sides: u32)
    requires
        sides <= i32::MAX,
        forall|i: int| 0 <= i < rs.len() ==> is_face(#[trigger] rs[i], sides),
    ensures
        rs.len() <= results_sum(rs) <= rs.len() * sides,
    decreases rs.len(),
{
    if rs.len() > 0 {
        let init = rs.drop_last();
        assert forall|i: int| 0 <= i < init.len() implies is_face(#[trigger] init[i], sides) by {
            assert(init[i] == rs[i]);
        }
        lemma_results_sum_bounds(init, sides);
        lemma_face_bounds(rs.last(), sides);
        assert(init.len() * sides + sides == rs.len() * sides) by (nonlinear_arith)
            requires
                init.len() + 1 == rs.len(),
        ;
    }
}

/// A roll's value lies between its minimum and its maximum: for a normal roll
/// of a non-negative count, and for advantage and disadvantage of one die
/// (the count the lexer gives them), whenever the sides fit in an `i32`.
pub proof fn law_roll_value_within_bounds(kind: RollKind, n: i32, sides: u32, rs: Seq<i32>)
    requires
        valid_results(kind, n, sides, rs),
        sides <= i32::MAX,
        (kind == RollKind::Normal && n >= 0) || n == 1,
    ensures
        roll_min(n) <= roll_value(kind, rs) <= roll_max(n, sides),
{
    match kind {
        RollKind::Normal => {
            lemma_results_sum_bounds(rs, sides);
        },
        _ => {
            lemma_face_bounds(rs[0], sides);
            lemma_face_bounds(rs[1], sides);
        },
    }
}

/// The average of advantage and the average of disadvantage add up to
/// `sides + 1`, the average sum of two dice (the higher and the lower of two
/// dice are together the two dice).
pub proof fn law_advantage_plus_disadvantage(n: i32, sides: u32)
    requires
        sides >= 1,
    ensures
        avg_den(RollKind::Advantage, sides) == avg_den(RollKind::Disadvantage, sides),
        avg_num(RollKind::Advantage, n, sides) + avg_num(RollKind::Disadvantage, n, sides) == (
        sides + 1) * avg_den(RollKind::Advantage, sides),
{
    lemma_average_sums_closed(sides as nat);
    let si = sides as int;
    assert(si * (si + 1) * (4 * si - 1) + si * (si + 1) * (2 * si + 1) == 6 * ((si + 1) * (si
        * si))) by (nonlinear_arith);
}

/// Advantage never averages below one die, and disadvantage never above it:
/// `avg(vd s) <= avg(1d s) <= avg(^d s)`, with both inequalities strict from
/// two sides on.
pub proof fn law_advantage_order(sides: u32)
    requires
        sides >= 1,
    ensures
        avg_num(RollKind::Disadvantage, 1, sides) * avg_den(RollKind::Normal, sides) <= avg_num(
            RollKind::Normal,
            1,
            sides,
        ) * avg_den(RollKind::Disadvantage, sides),
        avg_num(RollKind::Normal, 1, sides) * avg_den(RollKind::Advantage, sides) <= avg_num(
            RollKind::Advantage,
            1,
            sides,
        ) * avg_den(RollKind::Normal, sides),
        sides >= 2 ==> avg_num(RollKind::Disadvantage, 1, sides) * avg_den(RollKind::Normal, sides)
            < avg_num(RollKind::Normal, 1, sides) * avg_den(RollKind::Disadvantage, sides),
        sides >= 2 ==> avg_num(RollKind::Normal, 1, sides) * avg_den(RollKind::Advantage, sides)
            < avg_num(RollKind::Advantage, 1, sides) * avg_den(RollKind::Normal, sides),
{
    lemma_average_sums_closed(sides as nat);
    let si = sides as int;
    let a = advantage_sum(sides as nat);
    let d = disadvantage_sum(sides as nat, sides as nat);
    assert(d * 2 <= (1 + si) * (si * si) <= a * 2 && (si >= 2 ==> d * 2 < (1 + si) * (si * si) < a
        * 2)) by (nonlinear_arith)
        requires
            si >= 1,
            6 * a == si * (si + 1) * (4 * si - 1),
            6 * d == si * (si + 1) * (2 * si + 1),
    ;
}

/// A roll's average lies between its minimum and its maximum: for a normal
/// roll of a non-negative count, and for advantage and disadvantage of one die,
/// whenever the die has a side.
pub proof fn law_roll_average_within_bounds(kind: RollKind, n: i32, sides: u32)
    requires
        sides >= 1,
        (kind == RollKind::Normal && n >= 0) || n == 1,
    ensures
        avg_den(kind, sides) > 0,
        roll_min(n) * avg_den(kind, sides) <= avg_num(kind, n, sides),
        avg_num(kind, n, sides) <= roll_max(n, sides) * avg_den(kind, sides),
{
    lemma_average_sums_closed(sides as nat);
    let si = sides as int;
    let ni = n as int;
    let a = advantage_sum(sides as nat);
    let d = disadvantage_sum(sides as nat, sides as nat);
    match kind {
        RollKind::Normal => {
            assert(ni * 2 <= ni * (1 + si) <= ni * si * 2) by (nonlinear_arith)
                requires
                    si >= 1,
                    ni >= 0,
            ;
        },
        _ => {
            assert(si * si > 0 && si * si <= a <= si * (si * si) && si * si <= d <= si * (si * si))
                by (nonlinear_arith)
                requires
                    si >= 1,
                    6 * a == si * (si + 1) * (4 * si - 1),
                    6 * d == si * (si + 1) * (2 * si + 1),
            ;
        },
    }
}

/// Every thrown roll of a tree came to a value between its minimum and maximum.
pub open spec fn values_within_bounds(e: Expr) -> bool
    decreases e,
{
    match e {
        Expr::Number(_) => true,
        Expr::Roll { kind, n, sides, results } => match results {
            Some(rs) => roll_min(n) <= roll_value(kind, rs@) <= roll_max(n, sides),
            None => true,
        },
        Expr::Binary { left, right, .. } => values_within_bounds(*left) && values_within_bounds(
            *right,
        ),
    }
}

proof fn lemma_rolled_within_bounds(e: Expr, r: Expr)
    requires
        rolled(e, r),
        written_tree(e@),
    ensures
        values_within_bounds(r),
    decreases e,
{
    match e {
        Expr::Number(_) => {},
        Expr::Roll { kind, n, sides, .. } => {
            if let Expr::Roll { results: Some(rs), .. } = r {
                law_roll_value_within_bounds(kind, n, sides, rs@);
            }
        },
        Expr::Binary { left, right, .. } => {
            if let Expr::Binary { left: l2, right: r2, .. } = r {
                lemma_rolled_within_bounds(*left, *l2);
                lemma_rolled_within_bounds(*right, *r2);
            }
        },
    }
}

/// Whatever the dice show, every roll of an expression read from text comes to
/// a value between the minimum and the maximum shown with it: lexing, parsing
/// and throwing the dice of a text give rolls within their bounds.
pub proof fn law_text_rolls_within_bounds(s: Seq<char>, e: Expr, r: Expr)
    requires
        lex(s) is Ok,
        parse(lex(s)->Ok_0) is Ok,
        e@ == parse(lex(s)->Ok_0)->Ok_0,
        rolled(e, r),
    ensures
        values_within_bounds(r),
{
    lemma_lex_written(s, 0);
    lemma_parse_written(lex(s)->Ok_0);
    lemma_rolled_within_bounds(e, r);
}

} // verus!
