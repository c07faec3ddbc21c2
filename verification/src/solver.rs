//! The reaching solver: the policy that chooses between folding toward an
//! in-reach target and straightening toward an out-of-reach one, and the
//! iterative two-pass relaxation itself.

use vstd::prelude::*;
use crate::geom::{dist2, dist_squared, in_range, azimuth, Point, Target};
use crate::num::{ANCHOR_MAX, REACH_MAX};
use crate::trig::atan2_spec;
use crate::segment::{project, Fabrik, Segment};
use crate::limb::{
    all_defined, all_pos_ok, all_wf, anchored, chain_wf, lemma_prefix_bounds,
    lemma_prefix_congruence, lemma_settle_congruence, limb_wf, pos_ok, prefix_total, rotate_map,
    settle_spec, total_len, Limb,
};
use crate::limb::{lemma_rotate_map_props, lemma_settle_from_props, lemma_settle_total};

verus! {

/// The backward step on one segment: its end pinned to `pin`, its start
/// re-projected rigidly, the direction read from its own previous start.
pub open spec fn project_back_seg(seg: Segment, pin: Point) -> Segment {
    Segment {
        start_point: Some(project(pin, seg.start_point->Some_0, seg.length as int)),
        end_point: Some(pin),
        ..seg
    }
}

/// The forward step on one segment: its start pinned to `pin`, its end
/// re-projected rigidly, the direction read from its own previous end.
pub open spec fn project_fwd_seg(seg: Segment, pin: Point) -> Segment {
    Segment {
        start_point: Some(pin),
        end_point: Some(project(pin, seg.end_point->Some_0, seg.length as int)),
        ..seg
    }
}

/// The backward pass from index `i` toward the anchor, with `pin` the
/// point the end of segment `i` is pinned to.
pub open spec fn backward_from(s: Seq<Segment>, i: int, pin: Point) -> Seq<Segment>
    decreases i + 1,
{
    if i < 0 || i >= s.len() {
        s
    } else {
        let u = s.update(i, project_back_seg(s[i], pin));
        backward_from(u, i - 1, u[i].start_point->Some_0)
    }
}

/// The backward pass: free end toward anchor, the last end pinned to the
/// target.
pub open spec fn backward_pass(s: Seq<Segment>, target: Point) -> Seq<Segment> {
    backward_from(s, s.len() - 1, target)
}

/// The forward pass from index `i` toward the free end, with `pin` the
/// point the start of segment `i` is pinned to.
pub open spec fn forward_from(s: Seq<Segment>, i: int, pin: Point) -> Seq<Segment>
    decreases s.len() - i,
{
    if i < 0 || i >= s.len() {
        s
    } else {
        let u = s.update(i, project_fwd_seg(s[i], pin));
        forward_from(u, i + 1, u[i].end_point->Some_0)
    }
}

/// The forward pass: anchor toward free end, the first start pinned back
/// to the origin.
pub open spec fn forward_pass(s: Seq<Segment>, origin: Point) -> Seq<Segment> {
    forward_from(s, 0, origin)
}

/// One relaxation iteration: the backward pass, then the forward pass.
pub open spec fn fold_iter(s: Seq<Segment>, origin: Point, target: Point) -> Seq<Segment> {
    forward_pass(backward_pass(s, target), origin)
}

/// `k` relaxation iterations.
pub open spec fn fold_n(s: Seq<Segment>, origin: Point, target: Point, k: int) -> Seq<Segment>
    decreases k,
{
    if k <= 0 {
        s
    } else {
        fold_iter(fold_n(s, origin, target, k - 1), origin, target)
    }
}

/// Every segment's orientation zeroed; positions and lengths untouched.
pub open spec fn zero_alphas(s: Seq<Segment>) -> Seq<Segment> {
    Seq::new(s.len(), |j: int| Segment { alpha: 0, ..s[j] })
}

/// The out-of-reach policy as a value transformation: every orientation
/// zeroed, then the whole chain rotated to the azimuth and settled; the
/// chain becomes a straight line of its full reach pointed at the target.
pub open spec fn straighten_model(s: Seq<Segment>, angle: int) -> Seq<Segment> {
    settle_spec(rotate_map(zero_alphas(s), angle, 0))
}

/// The backward pass touches no length and no orientation.
pub proof fn lemma_backward_lengths(s: Seq<Segment>, i: int, pin: Point)
    ensures
        backward_from(s, i, pin).len() == s.len(),
        forall|j: int| 0 <= j < s.len() ==> (#[trigger] backward_from(s, i, pin)[j]).length
            == s[j].length && backward_from(s, i, pin)[j].alpha == s[j].alpha,
        forall|j: int| i < j < s.len() ==> #[trigger] backward_from(s, i, pin)[j] == s[j],
    decreases i + 1,
{
    if 0 <= i < s.len() {
        let u = s.update(i, project_back_seg(s[i], pin));
        lemma_backward_lengths(u, i - 1, u[i].start_point->Some_0);
    }
}

/// The forward pass touches no length and no orientation.
pub proof fn lemma_forward_lengths(s: Seq<Segment>, i: int, pin: Point)
    ensures
        forward_from(s, i, pin).len() == s.len(),
        forall|j: int| 0 <= j < s.len() ==> (#[trigger] forward_from(s, i, pin)[j]).length
            == s[j].length && forward_from(s, i, pin)[j].alpha == s[j].alpha,
        forall|j: int| 0 <= j < i ==> #[trigger] forward_from(s, i, pin)[j] == s[j],
    decreases s.len() - i,
{
    if 0 <= i < s.len() {
        let u = s.update(i, project_fwd_seg(s[i], pin));
        lemma_forward_lengths(u, i + 1, u[i].end_point->Some_0);
    }
}

/// The whole relaxation touches no length and no orientation: the reach
/// of the chain is invariant under the solver.
pub proof fn lemma_fold_lengths(s: Seq<Segment>, origin: Point, target: Point, k: int)
    ensures
        fold_n(s, origin, target, k).len() == s.len(),
        forall|j: int| 0 <= j < s.len() ==> (#[trigger] fold_n(s, origin, target, k)[j]).length
            == s[j].length && fold_n(s, origin, target, k)[j].alpha == s[j].alpha,
        total_len(fold_n(s, origin, target, k)) == total_len(s),
    decreases k,
{
    if k <= 0 {
        lemma_prefix_congruence(fold_n(s, origin, target, k), s, s.len() as int);
    } else {
        let prev = fold_n(s, origin, target, k - 1);
        lemma_fold_lengths(s, origin, target, k - 1);
        lemma_backward_lengths(prev, prev.len() - 1, target);
        let b = backward_pass(prev, target);
        lemma_forward_lengths(b, 0, origin);
        lemma_prefix_congruence(fold_n(s, origin, target, k), s, s.len() as int);
    }
}

/// Straightening touches no length: the reach of the chain is invariant
/// under the out-of-reach policy as well.
pub proof fn lemma_straighten_total(s: Seq<Segment>, angle: int)
    requires
        chain_wf(s),
    ensures
        total_len(straighten_model(s, angle)) == total_len(s),
{
    lemma_zero_alphas_wf(s);
    lemma_rotate_map_props(zero_alphas(s), angle, 0);
    lemma_settle_total(rotate_map(zero_alphas(s), angle, 0));
    lemma_prefix_congruence(zero_alphas(s), s, s.len() as int);
}

/// Zeroing the orientations keeps the chain well-formed.
pub proof fn lemma_zero_alphas_wf(s: Seq<Segment>)
    requires
        chain_wf(s),
    ensures
        chain_wf(zero_alphas(s)),
        total_len(zero_alphas(s)) == total_len(s),
        forall|j: int| 0 <= j < s.len() ==> (#[trigger] zero_alphas(s)[j]).length == s[j].length
            && zero_alphas(s)[j].start_point == s[j].start_point && zero_alphas(s)[j].end_point
            == s[j].end_point,
{
    let z = zero_alphas(s);
    assert forall|j: int| 0 <= j < z.len() implies crate::segment::seg_wf(#[trigger] z[j])
        && pos_ok(z, j) by {
        assert(crate::segment::seg_wf(s[j]));
        assert(pos_ok(s, j));
        lemma_prefix_congruence(z, s, j);
        lemma_prefix_congruence(z, s, j + 1);
    }
    lemma_prefix_congruence(z, s, s.len() as int);
}

/// After the out-of-reach policy every segment carries the same
/// orientation, the normalized azimuth toward the target: the chain is a
/// straight line.
pub proof fn lemma_straighten_alphas(s: Seq<Segment>, angle: int)
    requires
        chain_wf(s),
    ensures
        forall|j: int| 0 <= j < s.len() ==> (#[trigger] straighten_model(s, angle)[j]).alpha
            == angle % (crate::num::FULL_TURN as int),
{
    lemma_zero_alphas_wf(s);
    let r = rotate_map(zero_alphas(s), angle, 0);
    lemma_rotate_map_props(zero_alphas(s), angle, 0);
    lemma_settle_from_props(r, 1);
}

/// The out-of-reach policy is exactly idempotent: straightening an
/// already straightened chain toward the same azimuth changes nothing,
/// because the anchor, the lengths and the azimuth are all unchanged.
pub proof fn lemma_straighten_idempotent(s: Seq<Segment>, angle: int)
    requires
        chain_wf(s),
        s[0].start_point is Some,
    ensures
        straighten_model(straighten_model(s, angle), angle) == straighten_model(s, angle),
{
    let z1 = zero_alphas(s);
    lemma_zero_alphas_wf(s);
    let r1 = rotate_map(z1, angle, 0);
    lemma_rotate_map_props(z1, angle, 0);
    let m1 = settle_spec(r1);
    lemma_settle_from_props(r1, 1);
    lemma_settle_total(r1);
    let z2 = zero_alphas(m1);
    lemma_zero_alphas_wf(m1);
    let r2 = rotate_map(z2, angle, 0);
    lemma_rotate_map_props(z2, angle, 0);
    assert(m1[0].start_point == s[0].start_point);
    assert(r2[0] == r1[0]);
    assert(forall|j: int| 0 <= j < r1.len() ==> (#[trigger] r2[j]).length == r1[j].length
        && r2[j].alpha == r1[j].alpha);
    assert(r1[0].end_point is Some);
    lemma_settle_congruence(r2, r1, 1);
}

impl Limb {
    /// The reach policy: measures the anchor-to-target distance against
    /// the chain's total reach and either folds (within reach) or
    /// straightens (out of reach). Distances are compared by their
    /// squares, which orders them exactly as the distances themselves. On
    /// the boundary both policies produce the same fully extended chain;
    /// folding is chosen there. An unanchored chain cannot aim: no-op.
    pub fn aim_target(&mut self, target: &Target)
        requires
            limb_wf(*old(self)),
            in_range(target.position, ANCHOR_MAX as int),
        ensures
            limb_wf(*final(self)),
            !anchored(*old(self)) ==> *final(self) == *old(self),
            anchored(*old(self)) ==> ({
                let o = old(self).origin->Some_0;
                let d2 = dist2(o, target.position);
                let reach = total_len(old(self).limbs@);
                &&& (d2 <= reach * reach ==> final(self).limbs@ == fold_n(
                    old(self).limbs@,
                    o,
                    target.position,
                    10,
                ))
                &&& (d2 > reach * reach ==> final(self).limbs@ == straighten_model(
                    old(self).limbs@,
                    atan2_spec(target.position.y - o.y, target.position.x - o.x) as int,
                ))
                &&& final(self).origin == old(self).origin
                &&& final(self).length == old(self).length
            }),
    {
        let reach: i64 = match self.length {
            Some(value) => value,
            None => {
                proof {
                    assert(false);
                }
                return ;
            },
        };
        proof {
            assert(pos_ok(self.limbs@, 0));
            lemma_prefix_bounds(self.limbs@, 0, 1);
            lemma_prefix_bounds(self.limbs@, 0, self.limbs@.len() as int);
        }
        if let Some(origin) = self.origin {
            let target_d2: i64 = dist_squared(origin, target.position);
            proof {
                crate::num::lemma_mul_bounds(
                    reach as int,
                    reach as int,
                    REACH_MAX as int,
                    REACH_MAX as int,
                );
            }
            let reach2: i64 = reach * reach;
            if target_d2 <= reach2 {
                self.fabrik(target);
            } else {
                let theta: i64 = azimuth(origin, target.position);
                self.straight_point(theta);
            }
        }
    }

    /// The iterative relaxation: ten fixed iterations, each a backward
    /// pass pinning the free end to the target followed by a forward pass
    /// pinning the anchor back to the origin. A fixed cost, not an
    /// adaptive one: there is no early convergence exit. Every pass
    /// preserves each segment's length by rigid re-projection.
    pub fn fabrik(&mut self, target: &Target)
        requires
            limb_wf(*old(self)),
            anchored(*old(self)),
            in_range(target.position, ANCHOR_MAX as int),
        ensures
            final(self).limbs@ == fold_n(
                old(self).limbs@,
                old(self).origin->Some_0,
                target.position,
                10,
            ),
            final(self).origin == old(self).origin,
            final(self).length == old(self).length,
            limb_wf(*final(self)),
    {
        let ghost orig = self.limbs@;
        let ghost opoint = old(self).origin->Some_0;
        proof {
            assert(pos_ok(orig, 0));
            lemma_prefix_bounds(orig, 0, 1);
        }
        let mut k: usize = 0;
        while k < 10
            invariant
                0 <= k <= 10,
                limb_wf(*old(self)),
                anchored(*old(self)),
                orig == old(self).limbs@,
                in_range(target.position, ANCHOR_MAX as int),
                in_range(opoint, ANCHOR_MAX as int),
                self.origin == old(self).origin,
                self.origin == Some(opoint),
                self.length == old(self).length,
                self.limbs@.len() == orig.len(),
                orig.len() >= 1,
                self.limbs@ == fold_n(orig, opoint, target.position, k as int),
                all_wf(self.limbs@),
                all_defined(self.limbs@),
                all_pos_ok(self.limbs@),
                self.limbs@[0].start_point == Some(opoint),
                forall|j: int| 0 <= j < self.limbs@.len() ==> (#[trigger] self.limbs@[j]).length
                    == orig[j].length && self.limbs@[j].alpha == orig[j].alpha,
                total_len(self.limbs@) == total_len(orig),
            decreases 10 - k,
        {
            let ghost pre = self.limbs@;
            let origin: Point = match self.origin {
                Some(val) => val,
                None => {
                    proof {
                        assert(false);
                    }
                    return ;
                },
            };
            let n: usize = self.limbs.len();
            // Backward pass: free end toward anchor.
            let mut pin: Point = target.position;
            let mut idx: usize = n;
            proof {
                lemma_prefix_bounds(pre, n as int, n as int);
            }
            while idx > 0
                invariant
                    idx <= n,
                    n == self.limbs@.len(),
                    n == pre.len(),
                    n >= 1,
                    all_wf(pre),
                    all_defined(pre),
                    total_len(pre) <= REACH_MAX,
                    in_range(target.position, ANCHOR_MAX as int),
                    all_wf(self.limbs@),
                    all_defined(self.limbs@),
                    forall|j: int| 0 <= j < idx ==> #[trigger] self.limbs@[j] == pre[j],
                    forall|j: int| 0 <= j < n ==> (#[trigger] self.limbs@[j]).length
                        == pre[j].length && self.limbs@[j].alpha == pre[j].alpha,
                    in_range(pin, ANCHOR_MAX + (total_len(pre) - prefix_total(pre, idx as int))),
                    backward_pass(pre, target.position) == backward_from(
                        self.limbs@,
                        idx as int - 1,
                        pin,
                    ),
                    self.origin == old(self).origin,
                    self.length == old(self).length,
                decreases idx,
            {
                let i: usize = idx - 1;
                let ghost cur = self.limbs@;
                proof {
                    assert(crate::segment::seg_wf(cur[i as int]));
                    lemma_prefix_bounds(pre, i as int, idx as int);
                    lemma_prefix_bounds(pre, 0, i as int);
                    lemma_prefix_congruence(cur, pre, i as int);
                    lemma_prefix_congruence(cur, pre, idx as int);
                }
                let mut seg = self.limbs[i];
                seg.end_point = Some(pin);
                seg.calculate_a(Fabrik::Backwards);
                self.limbs.set(i, seg);
                pin = seg.start_point.unwrap();
                idx = i;
                proof {
                    assert(self.limbs@ =~= cur.update(
                        i as int,
                        project_back_seg(cur[i as int], seg.end_point->Some_0),
                    ));
                    crate::segment::lemma_project_close(
                        seg.end_point->Some_0,
                        cur[i as int].start_point->Some_0,
                        cur[i as int].length as int,
                        (ANCHOR_MAX + (total_len(pre) - prefix_total(pre, idx as int + 1))) as int,
                    );
                }
            }
            // Forward pass: anchor toward free end.
            let ghost mid = self.limbs@;
            let mut pin2: Point = origin;
            let mut idx2: usize = 0;
            proof {
                assert(backward_from(mid, -1, pin) == mid);
                assert(mid == backward_pass(pre, target.position));
                lemma_prefix_bounds(mid, 0, 0);
                lemma_prefix_congruence(mid, pre, n as int);
            }
            while idx2 < n
                invariant
                    idx2 <= n,
                    n == self.limbs@.len(),
                    n == mid.len(),
                    all_wf(mid),
                    all_defined(mid),
                    total_len(mid) <= REACH_MAX,
                    all_wf(self.limbs@),
                    all_defined(self.limbs@),
                    forall|j: int| idx2 <= j < n ==> #[trigger] self.limbs@[j] == mid[j],
                    forall|j: int| 0 <= j < n ==> (#[trigger] self.limbs@[j]).length
                        == mid[j].length && self.limbs@[j].alpha == mid[j].alpha,
                    forall|j: int| 0 <= j < idx2 ==> #[trigger] pos_ok(self.limbs@, j),
                    idx2 > 0 ==> self.limbs@[0].start_point == Some(opoint),
                    idx2 == 0 ==> pin2 == opoint,
                    in_range(pin2, ANCHOR_MAX + prefix_total(mid, idx2 as int)),
                    forward_pass(mid, opoint) == forward_from(self.limbs@, idx2 as int, pin2),
                    self.origin == old(self).origin,
                    self.length == old(self).length,
                decreases n - idx2,
            {
                let i: usize = idx2;
                let ghost cur = self.limbs@;
                proof {
                    assert(crate::segment::seg_wf(cur[i as int]));
                    lemma_prefix_bounds(mid, i as int, i as int + 1);
                    lemma_prefix_bounds(mid, 0, i as int);
                    lemma_prefix_bounds(mid, i as int + 1, n as int);
                }
                let mut seg = self.limbs[i];
                seg.start_point = Some(pin2);
                seg.calculate_a(Fabrik::Forwards);
                self.limbs.set(i, seg);
                pin2 = seg.end_point.unwrap();
                idx2 = idx2 + 1;
                proof {
                    assert(self.limbs@ =~= cur.update(
                        i as int,
                        project_fwd_seg(cur[i as int], seg.start_point->Some_0),
                    ));
                    crate::segment::lemma_project_close(
                        seg.start_point->Some_0,
                        cur[i as int].end_point->Some_0,
                        cur[i as int].length as int,
                        (ANCHOR_MAX + prefix_total(mid, i as int)) as int,
                    );
                    lemma_prefix_congruence(self.limbs@, mid, i as int);
                    lemma_prefix_congruence(self.limbs@, mid, i as int + 1);
                    assert forall|j: int| 0 <= j < idx2 implies #[trigger] pos_ok(
                        self.limbs@,
                        j,
                    ) by {
                        if j < i {
                            assert(pos_ok(cur, j));
                            lemma_prefix_congruence(self.limbs@, cur, j);
                            lemma_prefix_congruence(self.limbs@, cur, j + 1);
                        }
                    }
                }
            }
            proof {
                assert(forward_from(self.limbs@, n as int, pin2) == self.limbs@);
                assert(self.limbs@ == fold_iter(pre, opoint, target.position));
                lemma_prefix_congruence(self.limbs@, pre, n as int);
                assert(all_pos_ok(self.limbs@));
            }
            k = k + 1;
        }
        proof {
            assert(all_pos_ok(self.limbs@));
            assert(chain_wf(self.limbs@));
            assert(anchored(*self));
        }
    }

    /// The out-of-reach policy: straightens every segment to the neutral
    /// orientation and rotates the whole chain toward the given azimuth,
    /// in millidegrees. The chain ends up fully extended toward the
    /// target, short of it by the distance beyond the reach.
    pub fn straight_point(&mut self, angle: i64)
        requires
            limb_wf(*old(self)),
            angle > i64::MIN,
        ensures
            final(self).limbs@ == straighten_model(old(self).limbs@, angle as int),
            final(self).origin == old(self).origin,
            final(self).length == old(self).length,
            limb_wf(*final(self)),
    {
        let ghost orig = self.limbs@;
        proof {
            lemma_zero_alphas_wf(orig);
        }
        let n: usize = self.limbs.len();
        let mut i: usize = 0;
        while i < n
            invariant
                0 <= i <= n,
                n == self.limbs@.len(),
                n == orig.len(),
                forall|j: int| 0 <= j < i ==> #[trigger] self.limbs@[j] == zero_alphas(orig)[j],
                forall|j: int| i <= j < n ==> #[trigger] self.limbs@[j] == orig[j],
                self.origin == old(self).origin,
                self.length == old(self).length,
            decreases n - i,
        {
            let mut seg = self.limbs[i];
            seg.alpha = 0;
            self.limbs.set(i, seg);
            i = i + 1;
        }
        proof {
            assert(self.limbs@ =~= zero_alphas(orig));
            lemma_prefix_congruence(self.limbs@, orig, n as int);
        }
        self.rotate(angle, None);
    }
}

} // verus!
