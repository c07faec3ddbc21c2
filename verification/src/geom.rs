//! Points in the fixed-point plane, squared distances, and the azimuth of
//! one point as seen from another.

use vstd::prelude::*;
use crate::num::{FULL_TURN, PT_MAX};
use crate::trig::{atan2_md, atan2_spec};

verus! {

/// A 2-D coordinate in sub-units: a value type with no identity.
#[derive(Clone, Copy, Debug, PartialEq, Eq, Structural)]
pub struct Point {
    pub x: i64,
    pub y: i64,
}

/// A single movable point the chain aims at.
#[derive(Clone, Copy, Debug, PartialEq, Eq, Structural)]
pub struct Target {
    pub position: Point,
}

/// Both coordinates of `p` lie within `[-bound, bound]`.
pub open spec fn in_range(p: Point, bound: int) -> bool {
    -bound <= p.x <= bound && -bound <= p.y <= bound
}

/// An optional point whose coordinates, when present, lie within
/// `[-bound, bound]`.
pub open spec fn opt_in_range(p: Option<Point>, bound: int) -> bool {
    match p {
        Some(q) => in_range(q, bound),
        None => true,
    }
}

/// The squared Euclidean distance between two points.
pub open spec fn dist2(p: Point, q: Point) -> int {
    (q.x - p.x) * (q.x - p.x) + (q.y - p.y) * (q.y - p.y)
}

/// The squared distance of two bounded points fits the machine word.
pub proof fn lemma_dist2_bound(p: Point, q: Point, bound: int)
    requires
        in_range(p, bound),
        in_range(q, bound),
        0 <= bound <= 1_000_000_000,
    ensures
        0 <= dist2(p, q) <= 8_000_000_000_000_000_000,
{
    let dx = q.x - p.x;
    let dy = q.y - p.y;
    assert(0 <= dx * dx <= 4_000_000_000_000_000_000 && 0 <= dy * dy
        <= 4_000_000_000_000_000_000) by (nonlinear_arith)
        requires
            -2_000_000_000 <= dx <= 2_000_000_000,
            -2_000_000_000 <= dy <= 2_000_000_000,
    ;
}

/// The squared Euclidean distance between two bounded points.
pub fn dist_squared(p: Point, q: Point) -> (d: i64)
    requires
        in_range(p, PT_MAX as int),
        in_range(q, PT_MAX as int),
    ensures
        d == dist2(p, q),
        d >= 0,
{
    proof {
        lemma_dist2_bound(p, q, PT_MAX as int);
        let dx = q.x - p.x;
        let dy = q.y - p.y;
        assert(0 <= dx * dx && 0 <= dy * dy && dx * dx + dy * dy <= 8_000_000_000_000_000_000)
            by (nonlinear_arith)
            requires
                -2_000_000_000 <= dx <= 2_000_000_000,
                -2_000_000_000 <= dy <= 2_000_000_000,
        ;
    }
    let dx: i64 = q.x - p.x;
    let dy: i64 = q.y - p.y;
    dx * dx + dy * dy
}

/// The angle of the vector from `point1` to `point2`, measured from the
/// positive x-axis, in millidegrees within `[0, FULL_TURN)`.
pub fn azimuth(point1: Point, point2: Point) -> (a: i64)
    requires
        in_range(point1, PT_MAX as int),
        in_range(point2, PT_MAX as int),
    ensures
        a == atan2_spec(point2.y - point1.y, point2.x - point1.x),
        0 <= a < FULL_TURN,
{
    let deltax: i64 = point2.x - point1.x;
    let deltay: i64 = point2.y - point1.y;
    atan2_md(deltay, deltax)
}

} // verus!
