//! Fixed-point trigonometry on angles in millidegrees.
//!
//! The sine is a rational half-turn approximation, exact at 0, 30, 90,
//! 150 and 180 degrees; the cosine is the sine shifted by a quarter turn;
//! the two-argument arctangent reduces to a polynomial approximation on
//! the first octant. Every executable function returns exactly what its spec
//! function defines; the approximation error against real trigonometry is
//! a property of the definitions themselves.

use vstd::prelude::*;
use vstd::arithmetic::div_mod::{
    lemma_div_is_ordered, lemma_div_multiples_vanish, lemma_div_pos_is_pos,
    lemma_mod_division_less_than_divisor, lemma_mod_sub_multiples_vanish, lemma_small_mod,
};
use crate::num::{
    div_q, tdiv, FULL_TURN, HALF_TURN, QUARTER_TURN, TRIG_ONE,
};

verus! {

/// First coefficient of the arctangent approximation, in millidegrees.
pub const ATAN_A: i64 = 14_020;

/// Second coefficient of the arctangent approximation, in millidegrees.
pub const ATAN_B: i64 = 3_799;

/// Upper bound of `atan_unit_spec` over its whole domain.
pub const ATAN_UNIT_MAX: i64 = 62_900;

/// The sine of `x` millidegrees for `x` in `[0, HALF_TURN]`, scaled by
/// `TRIG_ONE`: the rational half-turn approximation.
pub open spec fn bhaskara(x: int) -> int {
    let p = x * (HALF_TURN - x);
    (4 * p * TRIG_ONE) / (40_500_000_000 - p)
}

/// The sine of any angle in millidegrees, scaled by `TRIG_ONE`.
pub open spec fn sin_spec(a: int) -> int {
    let x = a % (FULL_TURN as int);
    if x < HALF_TURN {
        bhaskara(x)
    } else {
        -bhaskara(x - HALF_TURN)
    }
}

/// The cosine of any angle in millidegrees, scaled by `TRIG_ONE`.
pub open spec fn cos_spec(a: int) -> int {
    sin_spec(a + QUARTER_TURN)
}

/// On the half turn the approximation stays within `[0, TRIG_ONE]`.
pub proof fn lemma_bhaskara_range(x: int)
    requires
        0 <= x <= HALF_TURN,
    ensures
        0 <= bhaskara(x) <= TRIG_ONE,
        0 <= x * (HALF_TURN - x) <= 8_100_000_000,
{
    let p = x * (HALF_TURN - x);
    assert(0 <= x * (180_000 - x) <= 8_100_000_000) by (nonlinear_arith)
        requires
            0 <= x <= 180_000,
    ;
    assert(p == x * (180_000 - x));
    let num = 4 * p * TRIG_ONE;
    let den = 40_500_000_000 - p;
    lemma_div_pos_is_pos(num, den);
    assert(num <= TRIG_ONE * den) by (nonlinear_arith)
        requires
            0 <= p <= 8_100_000_000,
            num == 4 * p * TRIG_ONE,
            den == 40_500_000_000 - p,
    ;
    lemma_div_is_ordered(num, TRIG_ONE * den, den);
    lemma_div_multiples_vanish(TRIG_ONE as int, den);
    assert(TRIG_ONE * den == den * TRIG_ONE) by (nonlinear_arith);
}

/// The sine, hence also the cosine, lies within `[-TRIG_ONE, TRIG_ONE]`.
pub proof fn lemma_sin_spec_range(a: int)
    ensures
        -TRIG_ONE <= sin_spec(a) <= TRIG_ONE,
{
    let x = a % (FULL_TURN as int);
    lemma_mod_division_less_than_divisor(a, FULL_TURN as int);
    if x < HALF_TURN {
        lemma_bhaskara_range(x);
    } else {
        lemma_bhaskara_range(x - HALF_TURN);
    }
}

/// The sine over the first half turn.
fn sin_half(x: i64) -> (r: i64)
    requires
        0 <= x <= HALF_TURN,
    ensures
        r == bhaskara(x as int),
        0 <= r <= TRIG_ONE,
{
    proof {
        lemma_bhaskara_range(x as int);
    }
    let p: i64 = x * (HALF_TURN - x);
    let num: i64 = 4 * p * TRIG_ONE;
    let den: i64 = 40_500_000_000 - p;
    div_q(num, den)
}

/// The sine of a normalized angle in millidegrees, scaled by `TRIG_ONE`.
pub fn sin_md(a: i64) -> (r: i64)
    requires
        0 <= a < FULL_TURN,
    ensures
        r == sin_spec(a as int),
        -TRIG_ONE <= r <= TRIG_ONE,
{
    proof {
        lemma_small_mod(a as nat, FULL_TURN as nat);
    }
    if a < HALF_TURN {
        sin_half(a)
    } else {
        let r = sin_half(a - HALF_TURN);
        -r
    }
}

/// The cosine of a normalized angle in millidegrees, scaled by `TRIG_ONE`.
pub fn cos_md(a: i64) -> (r: i64)
    requires
        0 <= a < FULL_TURN,
    ensures
        r == cos_spec(a as int),
        -TRIG_ONE <= r <= TRIG_ONE,
{
    let b: i64 = if a + QUARTER_TURN < FULL_TURN {
        a + QUARTER_TURN
    } else {
        a + QUARTER_TURN - FULL_TURN
    };
    proof {
        if a + QUARTER_TURN >= FULL_TURN {
            lemma_mod_sub_multiples_vanish(a + QUARTER_TURN, FULL_TURN as int);
        }
        lemma_small_mod(b as nat, FULL_TURN as nat);
    }
    sin_md(b)
}

/// The arctangent of `u / TRIG_ONE` for `u` in `[0, TRIG_ONE]`, in
/// millidegrees: a cubic-style approximation on the first octant.
pub open spec fn atan_unit_spec(u: int) -> int {
    let t1 = (45_000 * u) / (TRIG_ONE as int);
    let c = ATAN_A + (ATAN_B * u) / (TRIG_ONE as int);
    let t2 = (u * (TRIG_ONE - u) * c) / 1_000_000_000_000;
    t1 + t2
}

/// On its domain the arctangent approximation stays in `[0, ATAN_UNIT_MAX]`.
pub proof fn lemma_atan_unit_range(u: int)
    requires
        0 <= u <= TRIG_ONE,
    ensures
        0 <= atan_unit_spec(u) <= ATAN_UNIT_MAX,
{
    let t1 = (45_000 * u) / (TRIG_ONE as int);
    lemma_div_pos_is_pos(45_000 * u, TRIG_ONE as int);
    lemma_quot_bound(45_000 * u, TRIG_ONE as int, 45_000);
    let cq = (ATAN_B * u) / (TRIG_ONE as int);
    lemma_div_pos_is_pos(ATAN_B * u, TRIG_ONE as int);
    lemma_quot_bound(ATAN_B * u, TRIG_ONE as int, ATAN_B as int);
    let c = ATAN_A + cq;
    let w = u * (TRIG_ONE - u) * c;
    assert(0 <= w <= 17_819_000_000_000_000) by (nonlinear_arith)
        requires
            0 <= u <= TRIG_ONE,
            ATAN_A <= c <= ATAN_A + ATAN_B,
            w == u * (TRIG_ONE - u) * c,
    ;
    lemma_div_pos_is_pos(w, 1_000_000_000_000);
    lemma_quot_bound(w, 1_000_000_000_000, 17_819);
}

/// A quotient of nonnegative `a` by positive `b` with `a <= m * b` is at
/// most `m`.
proof fn lemma_quot_bound(a: int, b: int, m: int)
    requires
        b > 0,
        0 <= a,
        a <= m * b,
    ensures
        a / b <= m,
{
    lemma_div_is_ordered(a, m * b, b);
    lemma_div_multiples_vanish(m, b);
    assert(m * b == b * m) by (nonlinear_arith);
}

/// The arctangent of `u / TRIG_ONE` in millidegrees, for the first octant.
fn atan_unit_md(u: i64) -> (r: i64)
    requires
        0 <= u <= TRIG_ONE,
    ensures
        r == atan_unit_spec(u as int),
        0 <= r <= ATAN_UNIT_MAX,
{
    proof {
        lemma_atan_unit_range(u as int);
        assert(0 <= u * (TRIG_ONE - u) <= 1_000_000_000_000) by (nonlinear_arith)
            requires
                0 <= u <= TRIG_ONE,
        ;
    }
    let t1: i64 = div_q(45_000 * u, TRIG_ONE);
    let c: i64 = ATAN_A + div_q(ATAN_B * u, TRIG_ONE);
    let w: i64 = u * (TRIG_ONE - u);
    proof {
        assert(0 <= w * c <= 17_819_000_000_000_000) by (nonlinear_arith)
            requires
                0 <= w <= 1_000_000_000_000,
                0 <= c <= 17_819,
        ;
        assert(w * c == (u as int) * (TRIG_ONE - u as int) * (c as int)) by (nonlinear_arith)
            requires
                w == (u as int) * (TRIG_ONE - u as int),
        ;
    }
    let t2: i64 = div_q(w * c, 1_000_000_000_000);
    t1 + t2
}

/// The counter-clockwise angle of the vector `(dx, dy)` from the positive
/// x-axis, in millidegrees within `[0, FULL_TURN)`; the zero vector maps
/// to zero, as the zero azimuth does.
pub open spec fn atan2_spec(dy: int, dx: int) -> int {
    let ax = if dx < 0 { -dx } else { dx };
    let ay = if dy < 0 { -dy } else { dy };
    let base = if ax == 0 && ay == 0 {
        0
    } else if ay <= ax {
        atan_unit_spec((ay * TRIG_ONE) / ax)
    } else {
        QUARTER_TURN - atan_unit_spec((ax * TRIG_ONE) / ay)
    };
    if dx >= 0 && dy >= 0 {
        base
    } else if dx < 0 && dy >= 0 {
        HALF_TURN - base
    } else if dx < 0 {
        HALF_TURN + base
    } else if base == 0 {
        0
    } else {
        FULL_TURN - base
    }
}

/// The azimuth always lands in one normalized turn.
pub proof fn lemma_atan2_range(dy: int, dx: int)
    ensures
        0 <= atan2_spec(dy, dx) < FULL_TURN,
{
    let ax = if dx < 0 { -dx } else { dx };
    let ay = if dy < 0 { -dy } else { dy };
    if ax == 0 && ay == 0 {
    } else if ay <= ax {
        lemma_octant_ratio(ay, ax);
        lemma_atan_unit_range((ay * TRIG_ONE) / ax);
    } else {
        lemma_octant_ratio(ax, ay);
        lemma_atan_unit_range((ax * TRIG_ONE) / ay);
    }
}

/// The scaled ratio of the two octant legs lies within the arctangent's
/// domain.
proof fn lemma_octant_ratio(small: int, large: int)
    requires
        0 <= small <= large,
        large > 0,
    ensures
        0 <= (small * TRIG_ONE) / large <= TRIG_ONE,
{
    lemma_div_pos_is_pos(small * TRIG_ONE, large);
    assert(small * TRIG_ONE <= TRIG_ONE * large) by (nonlinear_arith)
        requires
            0 <= small <= large,
    ;
    lemma_quot_bound(small * TRIG_ONE, large, TRIG_ONE as int);
}

/// The two-argument arctangent of a bounded vector, in millidegrees.
pub fn atan2_md(dy: i64, dx: i64) -> (r: i64)
    requires
        -2_000_000_000 <= dy <= 2_000_000_000,
        -2_000_000_000 <= dx <= 2_000_000_000,
    ensures
        r == atan2_spec(dy as int, dx as int),
        0 <= r < FULL_TURN,
{
    proof {
        lemma_atan2_range(dy as int, dx as int);
    }
    let ax: i64 = if dx < 0 { -dx } else { dx };
    let ay: i64 = if dy < 0 { -dy } else { dy };
    let base: i64 = if ax == 0 && ay == 0 {
        0
    } else if ay <= ax {
        proof {
            lemma_octant_ratio(ay as int, ax as int);
        }
        atan_unit_md(div_q(ay * TRIG_ONE, ax))
    } else {
        proof {
            lemma_octant_ratio(ax as int, ay as int);
        }
        QUARTER_TURN - atan_unit_md(div_q(ax * TRIG_ONE, ay))
    };
    if dx >= 0 && dy >= 0 {
        base
    } else if dx < 0 && dy >= 0 {
        HALF_TURN - base
    } else if dx < 0 {
        HALF_TURN + base
    } else if base == 0 {
        0
    } else {
        FULL_TURN - base
    }
}

} // verus!
