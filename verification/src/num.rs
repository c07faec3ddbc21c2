//! Fixed-point scalar arithmetic: the unit scales, truncating division,
//! integer square root, and normalization of angles to one full turn.

use vstd::prelude::*;
use vstd::arithmetic::div_mod::{
    lemma_div_is_ordered, lemma_div_multiples_vanish, lemma_div_pos_is_pos,
    lemma_fundamental_div_mod, lemma_fundamental_div_mod_converse,
    lemma_mod_division_less_than_divisor,
};

verus! {

/// Sub-units per world unit: every coordinate is stored in sub-units.
pub const SUBUNITS: i64 = 10_000;

/// Scale of trigonometric values: `TRIG_ONE` stands for the real number 1.
pub const TRIG_ONE: i64 = 1_000_000;

/// One full turn, in millidegrees.
pub const FULL_TURN: i64 = 360_000;

/// Half a turn, in millidegrees.
pub const HALF_TURN: i64 = 180_000;

/// A quarter turn, in millidegrees.
pub const QUARTER_TURN: i64 = 90_000;

/// Largest admissible length of a single segment, in sub-units.
pub const LEN_MAX: i64 = 100_000_000;

/// Largest admissible total length (reach) of a chain, in sub-units.
pub const REACH_MAX: i64 = 400_000_000;

/// Largest admissible coordinate of an anchor or of a target, in sub-units.
pub const ANCHOR_MAX: i64 = 500_000_000;

/// Largest coordinate a chain point can take: an anchor plus a full reach.
pub const POS_MAX: i64 = 900_000_000;

/// Largest coordinate any stored point may hold; leaves headroom above
/// `POS_MAX` for one extra segment length.
pub const PT_MAX: i64 = 1_000_000_000;

/// The step by which the anchor moves on one move command: 5 world units.
pub const MOVE_STEP: i64 = 50_000;

/// Division truncating toward zero, as machine division does, for a
/// positive divisor.
pub open spec fn tdiv(a: int, b: int) -> int {
    if a >= 0 {
        a / b
    } else {
        -((-a) / b)
    }
}

/// The integer square root: the largest `r` with `r * r <= n`.
pub open spec fn isqrt_spec(n: int) -> int
    decreases n,
{
    if n <= 0 {
        0
    } else {
        let r = isqrt_spec(n - 1);
        if (r + 1) * (r + 1) <= n {
            r + 1
        } else {
            r
        }
    }
}

/// The defining property of `isqrt_spec`.
pub proof fn lemma_isqrt_property(n: int)
    requires
        n >= 0,
    ensures
        0 <= isqrt_spec(n),
        isqrt_spec(n) * isqrt_spec(n) <= n,
        n < (isqrt_spec(n) + 1) * (isqrt_spec(n) + 1),
    decreases n,
{
    if n > 0 {
        lemma_isqrt_property(n - 1);
        let r = isqrt_spec(n - 1);
        if (r + 1) * (r + 1) <= n {
            assert((r + 1) * (r + 1) < (r + 2) * (r + 2)) by (nonlinear_arith)
                requires
                    r >= 0,
            ;
        }
    }
}

/// `isqrt_spec` is the only value in its defining window.
pub proof fn lemma_isqrt_unique(n: int, r: int)
    requires
        n >= 0,
        0 <= r,
        r * r <= n,
        n < (r + 1) * (r + 1),
    ensures
        r == isqrt_spec(n),
{
    lemma_isqrt_property(n);
    let s = isqrt_spec(n);
    if r < s {
        assert(r + 1 <= s);
        assert((r + 1) * (r + 1) <= s * s) by (nonlinear_arith)
            requires
                0 <= r + 1 <= s,
        ;
    }
    if s < r {
        assert(s + 1 <= r);
        assert((s + 1) * (s + 1) <= r * r) by (nonlinear_arith)
            requires
                0 <= s + 1 <= r,
        ;
    }
}

/// The magnitude of a product is bounded by the product of the bounds.
pub proof fn lemma_mul_bounds(a: int, b: int, am: int, bm: int)
    requires
        -am <= a <= am,
        -bm <= b <= bm,
        0 <= am,
        0 <= bm,
    ensures
        -(am * bm) <= a * b <= am * bm,
{
    assert(-(am * bm) <= a * b <= am * bm) by (nonlinear_arith)
        requires
            -am <= a <= am,
            -bm <= b <= bm,
            0 <= am,
            0 <= bm,
    ;
}

/// Truncating division by a positive divisor shrinks magnitudes: if
/// `|a| <= m * b` then `|tdiv(a, b)| <= m`.
pub proof fn lemma_tdiv_bound(a: int, b: int, m: int)
    requires
        b > 0,
        0 <= m,
        -(m * b) <= a <= m * b,
    ensures
        -m <= tdiv(a, b) <= m,
{
    assert(m * b == b * m) by (nonlinear_arith);
    if a >= 0 {
        lemma_div_pos_is_pos(a, b);
        lemma_div_is_ordered(a, m * b, b);
        lemma_div_multiples_vanish(m, b);
        assert((b * m) / b == m);
    } else {
        lemma_div_pos_is_pos(-a, b);
        lemma_div_is_ordered(-a, m * b, b);
        lemma_div_multiples_vanish(m, b);
        assert((b * m) / b == m);
    }
}

/// Truncating division leaves a remainder smaller than the divisor: the
/// quotient scaled back up lands within one divisor of the dividend.
pub proof fn lemma_tdiv_rem(a: int, b: int)
    requires
        b > 0,
    ensures
        -b < b * tdiv(a, b) - a < b,
{
    if a >= 0 {
        lemma_fundamental_div_mod(a, b);
        lemma_mod_division_less_than_divisor(a, b);
        assert(b * (a / b) - a == -(a % b));
    } else {
        lemma_fundamental_div_mod(-a, b);
        lemma_mod_division_less_than_divisor(-a, b);
        assert(b * -((-a) / b) == -(b * ((-a) / b))) by (nonlinear_arith);
        assert(b * tdiv(a, b) - a == (-a) % b);
    }
}

/// Truncating division, computed over magnitudes so the result is exactly
/// `tdiv` of the operands.
pub fn div_q(a: i64, b: i64) -> (r: i64)
    requires
        b > 0,
        a > i64::MIN,
    ensures
        r == tdiv(a as int, b as int),
{
    if a >= 0 {
        let q: u64 = (a as u64) / (b as u64);
        proof {
            lemma_div_pos_is_pos(a as int, b as int);
            lemma_div_is_ordered(a as int, i64::MAX as int, b as int);
            lemma_div_multiples_vanish(i64::MAX as int, 1);
            lemma_div_is_ordered_by_denominator_local(a as int, b as int);
        }
        q as i64
    } else {
        let n: i64 = -a;
        let q: u64 = (n as u64) / (b as u64);
        proof {
            lemma_div_pos_is_pos(n as int, b as int);
            lemma_div_is_ordered_by_denominator_local(n as int, b as int);
        }
        -(q as i64)
    }
}

/// A quotient by a positive divisor never exceeds its nonnegative dividend.
proof fn lemma_div_is_ordered_by_denominator_local(x: int, b: int)
    requires
        x >= 0,
        b >= 1,
    ensures
        x / b <= x,
{
    vstd::arithmetic::div_mod::lemma_div_is_ordered_by_denominator(x, 1, b);
    assert(x / 1 == x) by {
        lemma_div_multiples_vanish(x, 1);
    }
}

/// The integer square root of `n`, by binary search.
pub fn isqrt(n: u64) -> (r: u64)
    requires
        n < 9_000_000_000_000_000_000,
    ensures
        r == isqrt_spec(n as int),
        r * r <= n,
        r <= 3_000_000_000,
{
    let mut lo: u64 = 0;
    let mut hi: u64 = 3_000_000_000;
    proof {
        assert((3_000_000_000 + 1) * (3_000_000_000 + 1) > 9_000_000_000_000_000_000int)
            by (nonlinear_arith);
    }
    while lo < hi
        invariant
            lo <= hi <= 3_000_000_000,
            (lo * lo) as int <= n as int,
            (n as int) < (hi + 1) * (hi + 1),
        decreases hi - lo,
    {
        let mid: u64 = (lo + hi + 1) / 2;
        assert(lo < mid <= hi);
        proof {
            assert(mid * mid <= 9_000_000_000_000_000_000) by (nonlinear_arith)
                requires
                    mid <= 3_000_000_000,
            ;
        }
        if mid * mid <= n {
            lo = mid;
        } else {
            hi = mid - 1;
        }
    }
    proof {
        lemma_isqrt_unique(n as int, lo as int);
    }
    lo
}

/// Normalizes an angle in millidegrees into `[0, FULL_TURN)`; the result is
/// the Euclidean remainder of the angle by a full turn.
pub fn norm_md(a: i64) -> (r: i64)
    requires
        a > i64::MIN,
    ensures
        r == (a as int) % (FULL_TURN as int),
        0 <= r < FULL_TURN,
{
    proof {
        lemma_mod_division_less_than_divisor(a as int, FULL_TURN as int);
    }
    if a >= 0 {
        let r: u64 = (a as u64) % 360_000;
        proof {
            lemma_mod_division_less_than_divisor(a as int, 360_000);
        }
        r as i64
    } else {
        let m: i64 = -a;
        let r0: u64 = (m as u64) % 360_000;
        proof {
            lemma_mod_division_less_than_divisor(m as int, 360_000);
            let q = (m as int) / 360_000;
            lemma_fundamental_div_mod(m as int, 360_000);
            if r0 == 0 {
                lemma_fundamental_div_mod_converse(a as int, 360_000, -q, 0);
            } else {
                lemma_fundamental_div_mod_converse(
                    a as int,
                    360_000,
                    -q - 1,
                    360_000 - (r0 as int),
                );
            }
        }
        if r0 == 0 {
            0
        } else {
            360_000 - (r0 as i64)
        }
    }
}

} // verus!
