//! The penalty model: how badly an allocation misses a participant's request.
//!
//! Penalties are exact fixed-point numbers: a finite penalty is stored as the
//! whole number of millionths (rounded down), and an unbounded penalty is a
//! value of its own.

use vstd::prelude::*;
use vstd::arithmetic::div_mod::{lemma_div_is_ordered_by_denominator, lemma_fundamental_div_mod};
use crate::kinds::{amount_total, distribution_total, Distribution, OrderAmount, PizzaKindArray};
use crate::orders::{clamp_preference, clamped, Order, PREFERENCE_SCALE};

verus! {

/// Fixed-point unit of a penalty: a finite penalty `p` stands for `p / PENALTY_SCALE`.
pub const PENALTY_SCALE: u128 = 1_000_000;

/// A slot whose fraction differs by less than `1 / EPSILON_INVERSE` is not
/// magnified by the shape weight.
pub const EPSILON_INVERSE: u128 = 10_000_000;

/// A penalty in millionths, or an unbounded one.
#[derive(Clone, Copy, PartialEq, Eq, Structural)]
pub enum Penalty {
    Finite(u128),
    Infinite,
}

impl View for Penalty {
    type V = Option<int>;

    open spec fn view(&self) -> Option<int> {
        match self {
            Penalty::Finite(v) => Some(*v as int),
            Penalty::Infinite => None,
        }
    }
}

impl Penalty {
    pub fn is_infinite(&self) -> (r: bool)
        ensures
            r == (self@ is None),
    {
        match self {
            Penalty::Finite(_) => false,
            Penalty::Infinite => true,
        }
    }
}

/// The request's amounts as integers.
pub open spec fn request_ints(a: PizzaKindArray<OrderAmount>) -> Seq<int> {
    seq![a@[0] as int, a@[1] as int, a@[2] as int]
}

/// An allocation's amounts as integers.
pub open spec fn distribution_ints(a: Distribution) -> Seq<int> {
    seq![a@[0] as int, a@[1] as int, a@[2] as int]
}

pub open spec fn seq_total(s: Seq<int>) -> int {
    s[0] + s[1] + s[2]
}

/// A total used as a denominator: an empty total counts as one, so that the
/// fraction of each slot of an empty vector is zero.
pub open spec fn at_least_one(n: int) -> int {
    if n == 0 {
        1
    } else {
        n
    }
}

/// With `q` the preference in thousandths, the count weight
/// `pref / (1 - pref) + 1/100` is `count_weight_num(q) / count_weight_den(q)`.
pub open spec fn count_weight_num(q: int) -> int {
    99 * q + PREFERENCE_SCALE
}

pub open spec fn count_weight_den(q: int) -> int {
    100 * (PREFERENCE_SCALE - q)
}

/// The shape weight `(1 - pref) / pref + 1/100` is
/// `shape_weight_num(q) / shape_weight_den(q)`.
pub open spec fn shape_weight_num(q: int) -> int {
    100 * PREFERENCE_SCALE - 99 * q
}

pub open spec fn shape_weight_den(q: int) -> int {
    100 * q
}

/// Penalty on the total count, for a request of `r` pieces in all and an
/// allocation of `a` pieces in all, at preference `q`.
///
/// Over-delivery by `d` scores `(2r - 1)d / (2r^2 - (2r - 1)d)`, which is
/// `1 / (1 - (1 - 1/(2r)) * d/r) - 1`, unbounded once the denominator is not
/// positive; under-delivery scores `d / (r - d)`, unbounded when nothing is
/// left. Either is multiplied by the count weight.
pub open spec fn count_penalty(r: int, a: int, q: int) -> Option<int> {
    if a == r {
        Some(0)
    } else if q >= PREFERENCE_SCALE {
        None
    } else if a > r {
        let num = (2 * r - 1) * (a - r);
        let den = 2 * r * r - num;
        if r == 0 || den <= 0 {
            None
        } else {
            Some(PENALTY_SCALE * num * count_weight_num(q) / (den * count_weight_den(q)))
        }
    } else if a == 0 {
        None
    } else {
        Some(PENALTY_SCALE * (r - a) * count_weight_num(q) / (a * count_weight_den(q)))
    }
}

/// `|r_k / R - a_k / A|` is `gap(r, a, k) / (R' * A')`, with `R'` and `A'`
/// the totals counted by `at_least_one`.
pub open spec fn gap(r: Seq<int>, a: Seq<int>, k: int) -> int {
    let x = r[k] * at_least_one(seq_total(a));
    let y = a[k] * at_least_one(seq_total(r));
    if x >= y {
        x - y
    } else {
        y - x
    }
}

pub open spec fn below_epsilon(r: Seq<int>, a: Seq<int>, k: int) -> bool {
    gap(r, a, k) * EPSILON_INVERSE < at_least_one(seq_total(r)) * at_least_one(seq_total(a))
}

/// Slot `k`'s share of the shape penalty over the denominator
/// `R' * A' * shape_weight_den(q)`: the fraction difference, weighted unless
/// it is below epsilon.
pub open spec fn shape_term(r: Seq<int>, a: Seq<int>, k: int, q: int) -> int {
    if below_epsilon(r, a, k) {
        gap(r, a, k) * shape_weight_den(q)
    } else {
        gap(r, a, k) * shape_weight_num(q)
    }
}

/// Penalty on the shape: the mean over the slots of the weighted fraction
/// differences. At preference zero the shape weight is unbounded.
pub open spec fn shape_penalty(r: Seq<int>, a: Seq<int>, q: int) -> Option<int> {
    let den = 3 * at_least_one(seq_total(r)) * at_least_one(seq_total(a));
    if q == 0 {
        if below_epsilon(r, a, 0) && below_epsilon(r, a, 1) && below_epsilon(r, a, 2) {
            Some(PENALTY_SCALE * (gap(r, a, 0) + gap(r, a, 1) + gap(r, a, 2)) / den)
        } else {
            None
        }
    } else {
        Some(
            PENALTY_SCALE * (shape_term(r, a, 0, q) + shape_term(r, a, 1, q) + shape_term(r, a, 2, q))
                / (den * shape_weight_den(q)),
        )
    }
}

/// The penalty of allocating `a` to a participant who requested `r` at
/// preference `q`: count penalty plus shape penalty, each in millionths.
pub open spec fn cost(r: Seq<int>, a: Seq<int>, q: int) -> Option<int> {
    match count_penalty(seq_total(r), seq_total(a), q) {
        None => None,
        Some(c) => match shape_penalty(r, a, q) {
            None => None,
            Some(s) => Some(c + s),
        },
    }
}

proof fn lemma_mul_le(a: int, b: int, c: int, d: int)
    requires
        0 <= a <= c,
        0 <= b <= d,
    ensures
        a * b <= c * d,
{
    assert(a * b <= c * d) by (nonlinear_arith)
        requires
            0 <= a <= c,
            0 <= b <= d,
    ;
}

proof fn lemma_div_le(x: int, d: int)
    requires
        0 <= x,
        1 <= d,
    ensures
        0 <= x / d <= x,
{
    lemma_div_is_ordered_by_denominator(x, 1, d);
    assert(x / 1 == x);
    assert(0 <= x / d) by (nonlinear_arith)
        requires
            0 <= x,
            1 <= d,
    ;
}

/// Allocating more than twice the request leaves the count penalty unbounded.
proof fn lemma_far_over_is_infinite(r: int, a: int, q: int)
    requires
        0 <= r,
        a > 2 * r,
    ensures
        count_penalty(r, a, q) is None,
{
    if r > 0 && q < PREFERENCE_SCALE {
        lemma_mul_le(2 * r - 1, r + 1, 2 * r - 1, a - r);
        assert((2 * r - 1) * (r + 1) == 2 * r * r + r - 1) by (nonlinear_arith);
    }
}

/// Above every request total: three slots of at most `u32::MAX` each.
const BOUND_R: u128 = 0x4_0000_0000;

/// Above each of the two parts of a finite penalty, so that their sum fits.
const PART_BOUND: u128 = 0x4_0000_0000_0000_0000_0000_0000_0000;

fn count_part(r: u128, a: u128, q: u128) -> (p: Penalty)
    requires
        r < BOUND_R,
        a <= 2 * r,
        q <= PREFERENCE_SCALE,
    ensures
        p@ == count_penalty(r as int, a as int, q as int),
        p@ matches Some(v) ==> v < PART_BOUND,
{
    if a == r {
        return Penalty::Finite(0);
    }
    if q >= PREFERENCE_SCALE as u128 {
        return Penalty::Infinite;
    }
    let cwn: u128 = 99 * q + PREFERENCE_SCALE as u128;
    let cwd: u128 = 100 * (PREFERENCE_SCALE as u128 - q);
    if a > r {
        if r == 0 {
            return Penalty::Infinite;
        }
        proof {
            lemma_mul_le(2 * r - 1, a - r, 2 * BOUND_R, BOUND_R as int);
            lemma_mul_le(r as int, r as int, BOUND_R as int, BOUND_R as int);
        }
        let num: u128 = (2 * r - 1) * (a - r);
        let sq: u128 = 2 * (r * r);
        assert(sq == 2 * r * r) by (nonlinear_arith)
            requires
                sq == 2 * (r * r),
        ;
        assert(sq <= 2 * BOUND_R * BOUND_R);
        if sq <= num {
            return Penalty::Infinite;
        }
        let den: u128 = sq - num;
        proof {
            lemma_mul_le(num as int, cwn as int, 2 * BOUND_R * BOUND_R, 100 * PREFERENCE_SCALE);
            lemma_mul_le(den as int, cwd as int, 2 * BOUND_R * BOUND_R, 100 * PREFERENCE_SCALE);
            assert(PENALTY_SCALE * num * cwn == PENALTY_SCALE * (num * cwn)) by (nonlinear_arith);
            assert(den * cwd >= 1) by (nonlinear_arith)
                requires
                    den >= 1,
                    cwd >= 1,
            ;
            lemma_div_le(PENALTY_SCALE * num * cwn, den * cwd);
        }
        let v = PENALTY_SCALE * num * cwn / (den * cwd);
        Penalty::Finite(v)
    } else {
        if a == 0 {
            return Penalty::Infinite;
        }
        proof {
            lemma_mul_le((r - a) as int, cwn as int, BOUND_R as int, 100 * PREFERENCE_SCALE);
            lemma_mul_le(a as int, cwd as int, BOUND_R as int, 100 * PREFERENCE_SCALE);
            assert(PENALTY_SCALE * (r - a) * cwn == PENALTY_SCALE * ((r - a) * cwn))
                by (nonlinear_arith);
            assert(a * cwd >= 1) by (nonlinear_arith)
                requires
                    a >= 1,
                    cwd >= 1,
            ;
            lemma_div_le(PENALTY_SCALE * (r - a) * cwn, a * cwd);
        }
        let v = PENALTY_SCALE * (r - a) * cwn / (a * cwd);
        Penalty::Finite(v)
    }
}

fn gap_of(x: u128, y: u128, rt1: u128, at1: u128) -> (g: u128)
    requires
        x < BOUND_R,
        y <= 2 * BOUND_R,
        1 <= rt1 < BOUND_R,
        1 <= at1 <= 2 * BOUND_R,
    ensures
        g as int == (if x * at1 >= y * rt1 {
            x * at1 - y * rt1
        } else {
            y * rt1 - x * at1
        }),
        g <= 2 * BOUND_R * BOUND_R,
{
    proof {
        lemma_mul_le(x as int, at1 as int, BOUND_R as int, 2 * BOUND_R);
        lemma_mul_le(y as int, rt1 as int, 2 * BOUND_R, BOUND_R as int);
    }
    let u = x * at1;
    let v = y * rt1;
    if u >= v {
        u - v
    } else {
        v - u
    }
}

fn shape_part(r: PizzaKindArray<OrderAmount>, a: Distribution, rt: u128, at: u128, q: u128) -> (p:
    Penalty)
    requires
        rt == amount_total(r),
        at == distribution_total(a),
        rt < BOUND_R,
        at <= 2 * rt,
        q <= PREFERENCE_SCALE,
    ensures
        p@ == shape_penalty(request_ints(r), distribution_ints(a), q as int),
        p@ matches Some(v) ==> v < PART_BOUND,
{
    let ghost ri = request_ints(r);
    let ghost ai = distribution_ints(a);
    assert(seq_total(ri) == rt && seq_total(ai) == at);
    let rt1: u128 = if rt == 0 {
        1
    } else {
        rt
    };
    let at1: u128 = if at == 0 {
        1
    } else {
        at
    };
    let g0 = gap_of(r.0[0] as u128, a.0[0] as u128, rt1, at1);
    let g1 = gap_of(r.0[1] as u128, a.0[1] as u128, rt1, at1);
    let g2 = gap_of(r.0[2] as u128, a.0[2] as u128, rt1, at1);
    assert(g0 == gap(ri, ai, 0) && g1 == gap(ri, ai, 1) && g2 == gap(ri, ai, 2));
    proof {
        lemma_mul_le(rt1 as int, at1 as int, BOUND_R as int, 2 * BOUND_R);
    }
    let prod: u128 = rt1 * at1;
    assert(prod >= 1) by (nonlinear_arith)
        requires
            prod == rt1 * at1,
            rt1 >= 1,
            at1 >= 1,
    ;
    let s0 = g0 * EPSILON_INVERSE < prod;
    let s1 = g1 * EPSILON_INVERSE < prod;
    let s2 = g2 * EPSILON_INVERSE < prod;
    let den: u128 = 3 * prod;
    assert(den == 3 * at_least_one(seq_total(ri)) * at_least_one(seq_total(ai)))
        by (nonlinear_arith)
        requires
            den == 3 * (rt1 * at1),
            rt1 == at_least_one(seq_total(ri)),
            at1 == at_least_one(seq_total(ai)),
    ;
    if q == 0 {
        if s0 && s1 && s2 {
            proof {
                lemma_div_le(PENALTY_SCALE * (g0 + g1 + g2), den as int);
            }
            Penalty::Finite(PENALTY_SCALE * (g0 + g1 + g2) / den)
        } else {
            Penalty::Infinite
        }
    } else {
        let wd: u128 = 100 * q;
        let wn: u128 = 100 * PREFERENCE_SCALE as u128 - 99 * q;
        proof {
            lemma_mul_le(g0 as int, wd as int, 2 * BOUND_R * BOUND_R, 100 * PREFERENCE_SCALE);
            lemma_mul_le(g1 as int, wd as int, 2 * BOUND_R * BOUND_R, 100 * PREFERENCE_SCALE);
            lemma_mul_le(g2 as int, wd as int, 2 * BOUND_R * BOUND_R, 100 * PREFERENCE_SCALE);
            lemma_mul_le(g0 as int, wn as int, 2 * BOUND_R * BOUND_R, 100 * PREFERENCE_SCALE);
            lemma_mul_le(g1 as int, wn as int, 2 * BOUND_R * BOUND_R, 100 * PREFERENCE_SCALE);
            lemma_mul_le(g2 as int, wn as int, 2 * BOUND_R * BOUND_R, 100 * PREFERENCE_SCALE);
            lemma_mul_le(den as int, wd as int, 6 * BOUND_R * BOUND_R, 100 * PREFERENCE_SCALE);
        }
        let t0: u128 = if s0 {
            g0 * wd
        } else {
            g0 * wn
        };
        let t1: u128 = if s1 {
            g1 * wd
        } else {
            g1 * wn
        };
        let t2: u128 = if s2 {
            g2 * wd
        } else {
            g2 * wn
        };
        assert(t0 == shape_term(ri, ai, 0, q as int) && t1 == shape_term(ri, ai, 1, q as int)
            && t2 == shape_term(ri, ai, 2, q as int));
        assert(den * wd >= 1) by (nonlinear_arith)
            requires
                den >= 1,
                wd >= 1,
        ;
        proof {
            lemma_div_le(PENALTY_SCALE * (t0 + t1 + t2), den * wd);
        }
        Penalty::Finite(PENALTY_SCALE * (t0 + t1 + t2) / (den * wd))
    }
}

/// The penalty of allocating `assigned` to a participant who placed `order`;
/// the order's preference is clamped first.
pub fn calculate_cost(order: &Order, assigned: Distribution) -> (p: Penalty)
    ensures
        p@ == cost(
            request_ints(order.amounts),
            distribution_ints(assigned),
            clamped(order.preference as int),
        ),
{
    let q = clamp_preference(order.preference) as u128;
    let rt = order.amounts.sum() as u128;
    let at = assigned.sum();
    let ghost ri = request_ints(order.amounts);
    let ghost ai = distribution_ints(assigned);
    assert(seq_total(ri) == rt && seq_total(ai) == at);
    if at > 2 * rt {
        proof {
            lemma_far_over_is_infinite(rt as int, at as int, q as int);
        }
        return Penalty::Infinite;
    }
    let count = count_part(rt, at, q);
    match count {
        Penalty::Infinite => Penalty::Infinite,
        Penalty::Finite(c) => {
            let shape = shape_part(order.amounts, assigned, rt, at, q);
            match shape {
                Penalty::Infinite => Penalty::Infinite,
                Penalty::Finite(s) => Penalty::Finite(c + s),
            }
        },
    }
}

/// `a < b` on penalties, an unbounded one being above every finite one.
pub open spec fn penalty_lt(a: Option<int>, b: Option<int>) -> bool {
    match (a, b) {
        (Some(x), Some(y)) => x < y,
        (Some(_), None) => true,
        _ => false,
    }
}

/// The penalty pair of a candidate solution: the worst single move and the
/// running sum of all moves (the sum saturates at `u128::MAX`).
#[derive(Clone, Copy)]
pub struct TotalPenalty {
    pub worst: Penalty,
    pub average: Penalty,
}

/// The pair's weighted total `0.9 * worst + 0.1 * average`, counted in tenths
/// of a millionth, that is `9 * worst + average` (saturating at `u128::MAX`).
pub open spec fn weighted_total(p: TotalPenalty) -> Option<int> {
    match (p.worst@, p.average@) {
        (Some(w), Some(m)) => Some(
            if 9 * w + m > u128::MAX {
                u128::MAX as int
            } else {
                9 * w + m
            },
        ),
        _ => None,
    }
}

/// `a` ranks strictly before `b`: a smaller weighted total, or an equal one
/// and a smaller sum.
pub open spec fn ranks_before(a: TotalPenalty, b: TotalPenalty) -> bool {
    penalty_lt(weighted_total(a), weighted_total(b)) || (weighted_total(a) == weighted_total(b)
        && penalty_lt(a.average@, b.average@))
}

/// `a` is at least as good as `b`.
pub open spec fn ranks_no_later(a: TotalPenalty, b: TotalPenalty) -> bool {
    !ranks_before(b, a)
}

impl TotalPenalty {
    /// The pair of a candidate that has made no move yet.
    pub fn zero() -> (r: Self)
        ensures
            r.worst@ == Some(0int),
            r.average@ == Some(0int),
    {
        TotalPenalty { worst: Penalty::Finite(0), average: Penalty::Finite(0) }
    }

    /// The pair that every feasible candidate beats.
    pub fn unbounded() -> (r: Self)
        ensures
            r.worst@ is None,
            r.average@ is None,
    {
        TotalPenalty { worst: Penalty::Infinite, average: Penalty::Infinite }
    }

    /// Records one move of the given penalty.
    pub fn add(&mut self, penalty: u128)
        ensures
            final(self).worst@ == (match old(self).worst@ {
                Some(w) => Some(if w < penalty {
                    penalty as int
                } else {
                    w
                }),
                None => None,
            }),
            final(self).average@ == (match old(self).average@ {
                Some(m) => Some(if m + penalty > u128::MAX {
                    u128::MAX as int
                } else {
                    m + penalty
                }),
                None => None,
            }),
    {
        self.worst = match self.worst {
            Penalty::Finite(w) => Penalty::Finite(
                if w < penalty {
                    penalty
                } else {
                    w
                },
            ),
            Penalty::Infinite => Penalty::Infinite,
        };
        self.average = match self.average {
            Penalty::Finite(m) => Penalty::Finite(m.saturating_add(penalty)),
            Penalty::Infinite => Penalty::Infinite,
        };
    }

    /// The weighted total `9 * worst + average` (tenfold `0.9 * worst + 0.1 * average`).
    pub fn total(&self) -> (r: Penalty)
        ensures
            r@ == weighted_total(*self),
    {
        match (self.worst, self.average) {
            (Penalty::Finite(w), Penalty::Finite(m)) => {
                let nine: u128 = if w <= u128::MAX / 9 {
                    9 * w
                } else {
                    u128::MAX
                };
                if nine > u128::MAX - m {
                    Penalty::Finite(u128::MAX)
                } else {
                    Penalty::Finite(nine + m)
                }
            },
            _ => Penalty::Infinite,
        }
    }

    /// Whether this pair ranks strictly before `that`.
    pub fn is_better_than(&self, that: &TotalPenalty) -> (r: bool)
        ensures
            r == ranks_before(*self, *that),
    {
        let a = self.total();
        let b = that.total();
        if less(a, b) {
            return true;
        }
        if less(b, a) {
            return false;
        }
        less(self.average, that.average)
    }
}

fn less(a: Penalty, b: Penalty) -> (r: bool)
    ensures
        r == penalty_lt(a@, b@),
{
    match (a, b) {
        (Penalty::Finite(x), Penalty::Finite(y)) => x < y,
        (Penalty::Finite(_), Penalty::Infinite) => true,
        _ => false,
    }
}

/// The order on penalty pairs is a total preorder: any two pairs compare,
/// every pair ranks no later than itself, and the order is transitive.
pub proof fn lemma_penalty_order_total(a: TotalPenalty, b: TotalPenalty, c: TotalPenalty)
    ensures
        ranks_no_later(a, b) || ranks_no_later(b, a),
        ranks_no_later(a, a),
        ranks_no_later(a, b) && ranks_no_later(b, c) ==> ranks_no_later(a, c),
        !(ranks_before(a, b) && ranks_before(b, a)),
{
}

/// A participant who is allocated exactly what they requested has penalty zero.
pub proof fn lemma_exact_allocation_costs_nothing(r: Seq<int>, q: int)
    requires
        r.len() == 3,
        r[0] >= 0,
        r[1] >= 0,
        r[2] >= 0,
        0 <= q <= PREFERENCE_SCALE,
    ensures
        cost(r, r, q) == Some(0int),
{
    let t = at_least_one(seq_total(r));
    assert(t * t >= 1) by (nonlinear_arith)
        requires
            t >= 1,
    ;
    assert(gap(r, r, 0) == 0 && gap(r, r, 1) == 0 && gap(r, r, 2) == 0);
    assert(below_epsilon(r, r, 0) && below_epsilon(r, r, 1) && below_epsilon(r, r, 2));
    let den = 3 * t * t;
    assert(den >= 3) by (nonlinear_arith)
        requires
            den == 3 * t * t,
            t * t >= 1,
    ;
    if q == 0 {
        assert(PENALTY_SCALE * (gap(r, r, 0) + gap(r, r, 1) + gap(r, r, 2)) / den == 0);
    } else {
        assert(shape_term(r, r, 0, q) == 0 && shape_term(r, r, 1, q) == 0 && shape_term(r, r, 2, q)
            == 0);
        assert(den * shape_weight_den(q) >= 1) by (nonlinear_arith)
            requires
                den >= 3,
                q >= 1,
        ;
    }
}

/// The shape penalty sees only how far each fraction is off, not in which
/// direction: swapping request and allocation leaves it unchanged.
pub proof fn lemma_shape_symmetric(r: Seq<int>, a: Seq<int>, q: int)
    requires
        r.len() == 3,
        a.len() == 3,
        0 <= q <= PREFERENCE_SCALE,
    ensures
        shape_penalty(r, a, q) == shape_penalty(a, r, q),
{
    let x = at_least_one(seq_total(r));
    let y = at_least_one(seq_total(a));
    assert(3 * x * y == 3 * y * x) by (nonlinear_arith);
    assert(x * y == y * x) by (nonlinear_arith);
    assert(gap(r, a, 0) == gap(a, r, 0));
    assert(gap(r, a, 1) == gap(a, r, 1));
    assert(gap(r, a, 2) == gap(a, r, 2));
}

/// The count penalty is not symmetric: one piece too many on a request of
/// two costs more than one piece too few on a request of three.
pub proof fn lemma_count_asymmetric(q: int)
    requires
        0 <= q < PREFERENCE_SCALE,
    ensures
        count_penalty(2, 3, q) != count_penalty(3, 2, q),
{
    let w = count_weight_num(q);
    let d = count_weight_den(q);
    let n = PENALTY_SCALE * 1 * w;
    let m = PENALTY_SCALE * 3 * w;
    assert(PENALTY_SCALE == 1_000_000);
    assert(w >= 1000);
    assert(n >= 1_000_000_000 && m == 3 * n) by (nonlinear_arith)
        requires
            n == PENALTY_SCALE * 1 * w,
            m == PENALTY_SCALE * 3 * w,
            PENALTY_SCALE == 1_000_000,
            w >= 1000,
    ;
    assert(count_penalty(2, 3, q) == Some(m / (5 * d)));
    assert(count_penalty(3, 2, q) == Some(n / (2 * d)));
    let u = (3 * n) / (5 * d);
    let v = n / (2 * d);
    lemma_fundamental_div_mod(3 * n, 5 * d);
    lemma_fundamental_div_mod(n, 2 * d);
    assert(n >= 1_000_000_000);
    assert(1 <= d <= 100_000);
    assert(u > v) by (nonlinear_arith)
        requires
            3 * n == (5 * d) * u + (3 * n) % (5 * d),
            0 <= (3 * n) % (5 * d) < 5 * d,
            n == (2 * d) * v + n % (2 * d),
            0 <= n % (2 * d) < 2 * d,
            n >= 1_000_000_000,
            1 <= d <= 100_000,
    ;
}

} // verus!
