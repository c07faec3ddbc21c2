//! A single rigid link of the chain: a fixed length, an orientation angle,
//! and optional endpoints. The two endpoint computations are the forward
//! placement of the end from the start and the orientation, and the rigid
//! re-projection of one endpoint toward the other used by the reaching
//! passes.

use vstd::prelude::*;
use crate::geom::{in_range, opt_in_range, Point};
use crate::num::{
    div_q, isqrt, isqrt_spec, lemma_isqrt_property, lemma_mul_bounds, lemma_tdiv_bound, tdiv,
    ANCHOR_MAX, FULL_TURN, LEN_MAX, PT_MAX, QUARTER_TURN, TRIG_ONE,
};
use crate::num::norm_md;
use crate::trig::{cos_md, cos_spec, lemma_sin_spec_range, sin_md, sin_spec};

verus! {

/// Which endpoint a reaching pass is solving for: the forward pass walks
/// from the anchor out and rewrites ends, the backward pass walks from the
/// free end in and rewrites starts.
#[derive(Clone, Debug)]
pub enum Fabrik {
    Forwards,
    Backwards,
}

/// A rigid link: `length` never changes after construction; `alpha` is the
/// orientation in millidegrees, normalized to one turn; the endpoints are
/// undefined until the chain anchors them.
#[derive(Clone, Copy, Debug)]
pub struct Segment {
    pub start_point: Option<Point>,
    pub end_point: Option<Point>,
    pub length: i64,
    pub alpha: i64,
}

/// A length scaled by a trigonometric value: the projection of `len` onto
/// one axis.
pub open spec fn scaled(len: int, trig: int) -> int {
    tdiv(len * trig, TRIG_ONE as int)
}

/// The end of a segment of length `len` and orientation `alpha` that
/// starts at `p`.
pub open spec fn end_of(p: Point, len: int, alpha: int) -> Point {
    Point {
        x: (p.x + scaled(len, cos_spec(alpha))) as i64,
        y: (p.y + scaled(len, sin_spec(alpha))) as i64,
    }
}

/// Basic well-formedness of a segment: an admissible positive length, a
/// normalized orientation, and bounded endpoints.
pub open spec fn seg_wf(s: Segment) -> bool {
    &&& 0 < s.length <= LEN_MAX
    &&& 0 <= s.alpha < FULL_TURN
    &&& opt_in_range(s.start_point, PT_MAX as int)
    &&& opt_in_range(s.end_point, PT_MAX as int)
}

/// A segment as construction delivers it: well-formed, with its start
/// within the anchor bound and its end derived from its start whenever the
/// start is defined.
pub open spec fn seg_formed(s: Segment) -> bool {
    &&& seg_wf(s)
    &&& opt_in_range(s.start_point, ANCHOR_MAX as int)
    &&& s.end_point == (match s.start_point {
        Some(p) => Some(end_of(p, s.length as int, s.alpha as int)),
        None => None::<Point>,
    })
}

/// The forward endpoint computation as a value transformation: if the
/// start is defined, the end becomes the point the length and orientation
/// dictate; otherwise the segment is untouched.
pub open spec fn recompute_end_spec(s: Segment) -> Segment {
    match s.start_point {
        Some(p) => (Segment {
            end_point: Some(end_of(p, s.length as int, s.alpha as int)),
            ..s
        }),
        None => s,
    }
}

/// The rigid re-projection: the solved endpoint is placed at distance
/// `len` from the pinned point `pin`, along the direction from the old
/// reference endpoint toward `pin`, reversed. When the two coincide the
/// direction degenerates to the positive x-axis, as a zero azimuth does.
pub open spec fn project(pin: Point, reference: Point, len: int) -> Point {
    let dx = pin.x - reference.x;
    let dy = pin.y - reference.y;
    let n = isqrt_spec(dx * dx + dy * dy);
    if n == 0 {
        Point { x: (pin.x - len) as i64, y: pin.y }
    } else {
        Point {
            x: (pin.x - tdiv(len * dx, n)) as i64,
            y: (pin.y - tdiv(len * dy, n)) as i64,
        }
    }
}

/// Both scaled direction components of a segment lie within its length.
pub proof fn lemma_dir_bounds(len: int, alpha: int)
    requires
        0 <= len <= LEN_MAX,
    ensures
        -len <= scaled(len, cos_spec(alpha)) <= len,
        -len <= scaled(len, sin_spec(alpha)) <= len,
        -(len * TRIG_ONE) <= len * cos_spec(alpha) <= len * TRIG_ONE,
        -(len * TRIG_ONE) <= len * sin_spec(alpha) <= len * TRIG_ONE,
{
    lemma_sin_spec_range(alpha);
    lemma_sin_spec_range(alpha + QUARTER_TURN);
    assert(cos_spec(alpha) == sin_spec(alpha + QUARTER_TURN));
    lemma_mul_bounds(len, cos_spec(alpha), len, TRIG_ONE as int);
    lemma_mul_bounds(len, sin_spec(alpha), len, TRIG_ONE as int);
    lemma_tdiv_bound(len * cos_spec(alpha), TRIG_ONE as int, len);
    lemma_tdiv_bound(len * sin_spec(alpha), TRIG_ONE as int, len);
}

/// The forward endpoint stays within one segment length of the start.
pub proof fn lemma_end_of_range(p: Point, len: int, alpha: int, bound: int)
    requires
        in_range(p, bound),
        0 < len <= LEN_MAX,
        0 <= bound <= PT_MAX,
    ensures
        in_range(end_of(p, len, alpha), bound + len),
        end_of(p, len, alpha).x == p.x + scaled(len, cos_spec(alpha)),
        end_of(p, len, alpha).y == p.y + scaled(len, sin_spec(alpha)),
{
    lemma_dir_bounds(len, alpha);
}

/// The projected endpoint stays within one segment length of the pin,
/// component by component, and no machine truncation occurs.
pub proof fn lemma_project_close(pin: Point, reference: Point, len: int, bound: int)
    requires
        in_range(pin, bound),
        in_range(reference, PT_MAX as int),
        0 < len <= LEN_MAX,
        0 <= bound <= PT_MAX,
    ensures
        in_range(project(pin, reference, len), bound + len),
        ({
            let dx = pin.x - reference.x;
            let dy = pin.y - reference.y;
            let n = isqrt_spec(dx * dx + dy * dy);
            if n == 0 {
                project(pin, reference, len).x == pin.x - len
                    && project(pin, reference, len).y == pin.y
            } else {
                project(pin, reference, len).x == pin.x - tdiv(len * dx, n)
                    && project(pin, reference, len).y == pin.y - tdiv(len * dy, n)
            }
        }),
{
    let dx = pin.x - reference.x;
    let dy = pin.y - reference.y;
    let n2 = dx * dx + dy * dy;
    assert(0 <= dx * dx && 0 <= dy * dy && n2 <= 8_000_000_000_000_000_000) by (nonlinear_arith)
        requires
            -2_000_000_000 <= dx <= 2_000_000_000,
            -2_000_000_000 <= dy <= 2_000_000_000,
            n2 == dx * dx + dy * dy,
    ;
    let n = isqrt_spec(n2);
    lemma_isqrt_property(n2);
    if n != 0 {
        // The norm dominates each component, so the scaled component is at
        // most the length.
        if dx > n {
            assert((n + 1) * (n + 1) <= dx * dx) by (nonlinear_arith)
                requires
                    0 <= n,
                    n + 1 <= dx,
            ;
            assert(dx * dx <= n2);
            assert(false);
        }
        if -dx > n {
            assert((n + 1) * (n + 1) <= dx * dx) by (nonlinear_arith)
                requires
                    0 <= n,
                    n + 1 <= -dx,
            ;
            assert(dx * dx <= n2);
            assert(false);
        }
        if dy > n {
            assert((n + 1) * (n + 1) <= dy * dy) by (nonlinear_arith)
                requires
                    0 <= n,
                    n + 1 <= dy,
            ;
            assert(dy * dy <= n2);
            assert(false);
        }
        if -dy > n {
            assert((n + 1) * (n + 1) <= dy * dy) by (nonlinear_arith)
                requires
                    0 <= n,
                    n + 1 <= -dy,
            ;
            assert(dy * dy <= n2);
            assert(false);
        }
        lemma_mul_bounds(len, dx, len, n);
        lemma_mul_bounds(len, dy, len, n);
        lemma_tdiv_bound(len * dx, n, len);
        lemma_tdiv_bound(len * dy, n, len);
    }
}

/// The forward endpoint is exact up to the fixed-point grain: scaled by
/// `TRIG_ONE`, the computed displacement differs from the length times
/// the trigonometric direction by less than one trigonometric unit per
/// axis. All remaining deviation from real geometry lives in the sine and
/// cosine definitions themselves.
pub proof fn lemma_end_of_grain(p: Point, len: int, alpha: int, bound: int)
    requires
        in_range(p, bound),
        0 < len <= LEN_MAX,
        0 <= bound <= PT_MAX,
    ensures
        ({
            let e = end_of(p, len, alpha);
            &&& -TRIG_ONE < TRIG_ONE * (e.x - p.x) - len * cos_spec(alpha) < TRIG_ONE
            &&& -TRIG_ONE < TRIG_ONE * (e.y - p.y) - len * sin_spec(alpha) < TRIG_ONE
        }),
{
    lemma_end_of_range(p, len, alpha, bound);
    crate::num::lemma_tdiv_rem(len * cos_spec(alpha), TRIG_ONE as int);
    crate::num::lemma_tdiv_rem(len * sin_spec(alpha), TRIG_ONE as int);
}

/// The rigid re-projection preserves the segment's length, up to the
/// fixed-point grain: scaled by the norm `n` of the offset vector, the
/// projected displacement differs from the ideal displacement of exact
/// length `len` by less than one norm unit per axis, and `n` itself
/// brackets the true offset norm. The solved endpoint therefore sits at
/// distance `len` from the pin, within the rounding of one coordinate
/// sub-unit: a rigid constraint, never a free translation.
pub proof fn lemma_project_rigid(pin: Point, reference: Point, len: int)
    requires
        in_range(pin, PT_MAX as int),
        in_range(reference, PT_MAX as int),
        0 < len <= LEN_MAX,
    ensures
        ({
            let dx = pin.x - reference.x;
            let dy = pin.y - reference.y;
            let n = isqrt_spec(dx * dx + dy * dy);
            let r = project(pin, reference, len);
            n != 0 ==> {
                &&& n * n <= dx * dx + dy * dy < (n + 1) * (n + 1)
                &&& -n < n * (pin.x - r.x) - len * dx < n
                &&& -n < n * (pin.y - r.y) - len * dy < n
            }
        }),
{
    let dx = pin.x - reference.x;
    let dy = pin.y - reference.y;
    let n2 = dx * dx + dy * dy;
    assert(0 <= dx * dx && 0 <= dy * dy) by (nonlinear_arith);
    lemma_isqrt_property(n2);
    let n = isqrt_spec(n2);
    if n != 0 {
        lemma_project_close(pin, reference, len, PT_MAX as int);
        crate::num::lemma_tdiv_rem(len * dx, n);
        crate::num::lemma_tdiv_rem(len * dy, n);
    }
}

impl Segment {
    /// Builds a segment from an optional anchored start, a fixed length in
    /// sub-units, and an initial orientation in millidegrees; the end is
    /// derived at once, exactly as a later recomputation would derive it.
    pub fn new(start_point: Option<Point>, length: i64, alpha: i64) -> (s: Segment)
        requires
            0 < length <= LEN_MAX,
            alpha > i64::MIN,
            opt_in_range(start_point, ANCHOR_MAX as int),
        ensures
            s.start_point == start_point,
            s.length == length,
            s.alpha == (alpha as int) % (FULL_TURN as int),
            seg_formed(s),
    {
        let mut segment = Segment {
            start_point,
            end_point: None,
            length,
            alpha: norm_md(alpha),
        };
        segment.calculate_b();
        proof {
            match start_point {
                Some(p) => {
                    lemma_end_of_range(p, length as int, segment.alpha as int, ANCHOR_MAX as int);
                },
                None => {},
            }
        }
        segment
    }

    /// Recomputes the end from the start, the length and the orientation;
    /// an undefined start is a normal transient state and leaves the
    /// segment untouched.
    pub fn calculate_b(&mut self)
        requires
            0 < old(self).length <= LEN_MAX,
            0 <= old(self).alpha < FULL_TURN,
            opt_in_range(old(self).start_point, PT_MAX as int),
        ensures
            *final(self) == recompute_end_spec(*old(self)),
    {
        match self.start_point {
            Some(point) => {
                proof {
                    lemma_dir_bounds(self.length as int, self.alpha as int);
                }
                let c: i64 = cos_md(self.alpha);
                let s: i64 = sin_md(self.alpha);
                let ex: i64 = point.x + div_q(self.length * c, TRIG_ONE);
                let ey: i64 = point.y + div_q(self.length * s, TRIG_ONE);
                self.end_point = Some(Point { x: ex, y: ey });
            },
            None => {},
        }
    }

    /// Solves the endpoint the given pass direction asks for, by the rigid
    /// re-projection: the backward pass pins the end and rewrites the
    /// start, the forward pass pins the start and rewrites the end; in
    /// both the direction is read from the segment's own previous position
    /// of the solved endpoint. The unit direction is taken directly from
    /// the offset vector and its norm, which realizes the cosine and sine
    /// of the azimuth between the two points.
    pub fn calculate_a(&mut self, direction: Fabrik)
        requires
            0 < old(self).length <= LEN_MAX,
            old(self).start_point is Some,
            old(self).end_point is Some,
            opt_in_range(old(self).start_point, PT_MAX as int),
            opt_in_range(old(self).end_point, PT_MAX as int),
        ensures
            final(self).length == old(self).length,
            final(self).alpha == old(self).alpha,
            (direction matches Fabrik::Backwards ==> {
                &&& final(self).end_point == old(self).end_point
                &&& final(self).start_point == Some(
                    project(
                        old(self).end_point->Some_0,
                        old(self).start_point->Some_0,
                        old(self).length as int,
                    ),
                )
            }),
            (direction matches Fabrik::Forwards ==> {
                &&& final(self).start_point == old(self).start_point
                &&& final(self).end_point == Some(
                    project(
                        old(self).start_point->Some_0,
                        old(self).end_point->Some_0,
                        old(self).length as int,
                    ),
                )
            }),
    {
        match direction {
            Fabrik::Backwards => {
                match self.end_point {
                    Some(point) => {
                        let original = self.start_point.unwrap();
                        let solved = project_exec(point, original, self.length);
                        self.start_point = Some(solved);
                    },
                    None => {},
                }
            },
            Fabrik::Forwards => {
                match self.start_point {
                    Some(point) => {
                        let original = self.end_point.unwrap();
                        let solved = project_exec(point, original, self.length);
                        self.end_point = Some(solved);
                    },
                    None => {},
                }
            },
        }
    }
}

/// The rigid re-projection, executed: places the solved point at distance
/// `len` from `pin` along the direction from `reference` toward `pin`,
/// reversed.
fn project_exec(pin: Point, reference: Point, len: i64) -> (r: Point)
    requires
        in_range(pin, PT_MAX as int),
        in_range(reference, PT_MAX as int),
        0 < len <= LEN_MAX,
    ensures
        r == project(pin, reference, len as int),
        in_range(r, PT_MAX as int + LEN_MAX as int),
{
    proof {
        lemma_project_close(pin, reference, len as int, PT_MAX as int);
    }
    let dx: i64 = pin.x - reference.x;
    let dy: i64 = pin.y - reference.y;
    proof {
        assert(0 <= dx * dx && 0 <= dy * dy && dx * dx + dy * dy
            <= 8_000_000_000_000_000_000) by (nonlinear_arith)
            requires
                -2_000_000_000 <= dx <= 2_000_000_000,
                -2_000_000_000 <= dy <= 2_000_000_000,
        ;
    }
    let n2: i64 = dx * dx + dy * dy;
    let n: u64 = isqrt(n2 as u64);
    if n == 0 {
        Point { x: pin.x - len, y: pin.y }
    } else {
        let nn: i64 = n as i64;
        proof {
            lemma_mul_bounds(len as int, dx as int, LEN_MAX as int, 2_000_000_000);
            lemma_mul_bounds(len as int, dy as int, LEN_MAX as int, 2_000_000_000);
        }
        let tx: i64 = div_q(len * dx, nn);
        let ty: i64 = div_q(len * dy, nn);
        Point { x: pin.x - tx, y: pin.y - ty }
    }
}

} // verus!
