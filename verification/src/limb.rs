//! The chain of rigid segments: construction, forward-kinematics
//! propagation (the settle pass), rotation from an index, anchor
//! translation, and the cached total reach, together with the laws the
//! propagation obeys.

use vstd::prelude::*;
use vstd::arithmetic::div_mod::{
    lemma_add_mod_noop_right, lemma_mod_division_less_than_divisor, lemma_small_mod,
    lemma_mod_sub_multiples_vanish,
};
use crate::geom::{in_range, opt_in_range, Point};
use crate::num::{norm_md, ANCHOR_MAX, FULL_TURN, MOVE_STEP, REACH_MAX};
use crate::segment::{end_of, recompute_end_spec, seg_formed, seg_wf, Segment};
use crate::segment::lemma_end_of_range;

verus! {

/// One of the four cardinal directions the anchor can be nudged in.
#[derive(Clone, Debug)]
pub enum Direction {
    Left,
    Right,
    Up,
    Down,
}

/// Constructing a chain from an empty segment list fails with this error.
#[derive(Clone, Copy, Debug, PartialEq, Eq, Structural)]
pub struct EmptyChainError;

/// An ordered chain of rigid segments sharing one anchor. `origin` caches
/// the first segment's start; `length` caches the total reach.
#[derive(Clone, Debug)]
pub struct Limb {
    pub origin: Option<Point>,
    pub limbs: Vec<Segment>,
    pub length: Option<i64>,
}

/// The summed lengths of the segments before index `i`.
pub open spec fn prefix_total(s: Seq<Segment>, i: int) -> int
    decreases i,
{
    if i <= 0 {
        0
    } else {
        prefix_total(s, i - 1) + s[i - 1].length
    }
}

/// The summed lengths of all segments: the chain's reach.
pub open spec fn total_len(s: Seq<Segment>) -> int {
    prefix_total(s, s.len() as int)
}

/// Every segment of the sequence is well-formed.
pub open spec fn all_wf(s: Seq<Segment>) -> bool {
    forall|j: int| 0 <= j < s.len() ==> seg_wf(#[trigger] s[j])
}

/// The positions of segment `i` stay within the anchor bound extended by
/// the lengths of the segments up to it.
pub open spec fn pos_ok(s: Seq<Segment>, i: int) -> bool {
    &&& opt_in_range(s[i].start_point, ANCHOR_MAX + prefix_total(s, i))
    &&& opt_in_range(s[i].end_point, ANCHOR_MAX + prefix_total(s, i + 1))
}

/// Every segment's positions are bounded as `pos_ok` asks.
pub open spec fn all_pos_ok(s: Seq<Segment>) -> bool {
    forall|j: int| 0 <= j < s.len() ==> #[trigger] pos_ok(s, j)
}

/// The chain-level well-formedness of a segment sequence.
pub open spec fn chain_wf(s: Seq<Segment>) -> bool {
    &&& s.len() >= 1
    &&& all_wf(s)
    &&& total_len(s) <= REACH_MAX
    &&& all_pos_ok(s)
}

/// Every segment has both endpoints defined.
pub open spec fn all_defined(s: Seq<Segment>) -> bool {
    forall|j: int| 0 <= j < s.len() ==> (#[trigger] s[j]).start_point is Some
        && s[j].end_point is Some
}

/// Continuity: each segment starts where its predecessor ends, whenever
/// the predecessor's end is defined.
pub open spec fn continuity(s: Seq<Segment>) -> bool {
    forall|j: int| 1 <= j < s.len() ==> ((#[trigger] s[j - 1]).end_point is Some
        ==> s[j].start_point == s[j - 1].end_point)
}

/// Consistency: each segment with a defined start has the end its start,
/// length and orientation dictate.
pub open spec fn consistent(s: Seq<Segment>) -> bool {
    forall|j: int| 0 <= j < s.len() ==> ((#[trigger] s[j]).start_point is Some
        ==> s[j].end_point == Some(
        end_of(s[j].start_point->Some_0, s[j].length as int, s[j].alpha as int),
    ))
}

/// The chain is anchored: the first segment's start is defined.
pub open spec fn anchored(l: Limb) -> bool {
    l.limbs@.len() >= 1 && l.limbs@[0].start_point is Some
}

/// The whole-structure well-formedness of a chain value: a well-formed
/// segment sequence, the origin cache equal to the first start, the reach
/// cache equal to the summed lengths, and, once anchored, every endpoint
/// defined.
pub open spec fn limb_wf(l: Limb) -> bool {
    &&& chain_wf(l.limbs@)
    &&& l.origin == l.limbs@[0].start_point
    &&& l.length == Some(total_len(l.limbs@) as i64)
    &&& (anchored(l) ==> all_defined(l.limbs@))
}

/// The settle pass from index `i` on: each segment in turn takes its
/// predecessor's end as its start, when that end is defined, and then
/// recomputes its own end.
pub open spec fn settle_from(s: Seq<Segment>, i: int) -> Seq<Segment>
    decreases s.len() - i,
{
    if i < 1 || i >= s.len() {
        s
    } else {
        let s1 = if s[i - 1].end_point is Some {
            s.update(i, Segment { start_point: s[i - 1].end_point, ..s[i] })
        } else {
            s
        };
        let s2 = s1.update(i, recompute_end_spec(s1[i]));
        settle_from(s2, i + 1)
    }
}

/// The settle pass over the whole chain after the first segment; the
/// first segment's end is maintained by the operation that edited it.
pub open spec fn settle_spec(s: Seq<Segment>) -> Seq<Segment> {
    settle_from(s, 1)
}

/// Prefix sums depend only on the segments' lengths.
pub proof fn lemma_prefix_congruence(s: Seq<Segment>, t: Seq<Segment>, i: int)
    requires
        s.len() == t.len(),
        i <= s.len(),
        forall|j: int| 0 <= j < s.len() ==> (#[trigger] s[j]).length == t[j].length,
    ensures
        prefix_total(s, i) == prefix_total(t, i),
    decreases i,
{
    if i > 0 {
        lemma_prefix_congruence(s, t, i - 1);
    }
}

/// Prefix sums of a well-formed chain grow with the index.
pub proof fn lemma_prefix_mono(s: Seq<Segment>, i: int, j: int)
    requires
        all_wf(s),
        0 <= i <= j <= s.len(),
    ensures
        prefix_total(s, i) <= prefix_total(s, j),
    decreases j - i,
{
    if i < j {
        lemma_prefix_mono(s, i, j - 1);
        assert(seg_wf(s[j - 1]));
    }
}

/// Prefix sums of well-formed chains are nonnegative and grow toward the
/// total.
pub proof fn lemma_prefix_bounds(s: Seq<Segment>, i: int, j: int)
    requires
        all_wf(s),
        0 <= i <= j <= s.len(),
    ensures
        0 <= prefix_total(s, i) <= prefix_total(s, j) <= total_len(s),
{
    lemma_prefix_mono(s, 0, i);
    lemma_prefix_mono(s, i, j);
    lemma_prefix_mono(s, j, s.len() as int);
}

/// The shape, bounds, continuity and consistency of the settle pass, all
/// at once, by induction over its recursion.
pub proof fn lemma_settle_from_props(s: Seq<Segment>, i: int)
    requires
        1 <= i <= s.len(),
        all_wf(s),
        all_pos_ok(s),
        total_len(s) <= REACH_MAX,
    ensures
        ({
            let t = settle_from(s, i);
            &&& t.len() == s.len()
            &&& (forall|j: int| 0 <= j < i ==> t[j] == s[j])
            &&& (forall|j: int| 0 <= j < s.len() ==> (#[trigger] t[j]).length == s[j].length
                && t[j].alpha == s[j].alpha)
            &&& all_wf(t)
            &&& all_pos_ok(t)
            &&& (forall|j: int| i <= j < s.len() ==> ((#[trigger] t[j - 1]).end_point is Some
                ==> t[j].start_point == t[j - 1].end_point))
            &&& (forall|j: int| i <= j < s.len() ==> ((#[trigger] t[j]).start_point is Some
                ==> t[j].end_point == Some(
                end_of(t[j].start_point->Some_0, t[j].length as int, t[j].alpha as int),
            )))
            &&& (forall|j: int| i <= j < s.len() ==> ((#[trigger] t[j - 1]).end_point is Some
                ==> t[j].start_point is Some && t[j].end_point is Some))
        }),
    decreases s.len() - i,
{
    let t = settle_from(s, i);
    if i >= s.len() {
    } else {
        let s1 = if s[i - 1].end_point is Some {
            s.update(i, Segment { start_point: s[i - 1].end_point, ..s[i] })
        } else {
            s
        };
        let s2 = s1.update(i, recompute_end_spec(s1[i]));
        assert(forall|j: int| 0 <= j < s.len() ==> (#[trigger] s2[j]).length == s[j].length
            && s2[j].alpha == s[j].alpha);
        lemma_prefix_congruence(s, s2, i);
        lemma_prefix_congruence(s, s2, i + 1);
        assert(forall|j: int| 0 <= j <= s.len() ==> prefix_total(s, j) == #[trigger] prefix_total(
            s2,
            j,
        )) by {
            assert forall|j: int| 0 <= j <= s.len() implies prefix_total(s, j)
                == #[trigger] prefix_total(s2, j) by {
                lemma_prefix_congruence(s, s2, j);
            }
        }
        // The updated segment keeps the chain bounds.
        lemma_prefix_bounds(s, 0, i);
        lemma_prefix_bounds(s, i, i + 1);
        lemma_prefix_bounds(s, i + 1, s.len() as int);
        assert(seg_wf(s[i]));
        assert(seg_wf(s[i - 1]));
        assert(pos_ok(s, i));
        assert(pos_ok(s, i - 1));
        match s1[i].start_point {
            Some(p) => {
                lemma_end_of_range(
                    p,
                    s1[i].length as int,
                    s1[i].alpha as int,
                    ANCHOR_MAX + prefix_total(s, i),
                );
            },
            None => {},
        }
        assert(seg_wf(s2[i]));
        assert(pos_ok(s2, i));
        assert(all_wf(s2));
        assert forall|j: int| 0 <= j < s2.len() implies #[trigger] pos_ok(s2, j) by {
            if j != i {
                assert(pos_ok(s, j));
            }
        }
        lemma_settle_from_props(s2, i + 1);
    }
}

/// After the settle pass the continuity law holds of every adjacent pair.
pub proof fn lemma_settle_continuity(s: Seq<Segment>)
    requires
        chain_wf(s),
    ensures
        continuity(settle_spec(s)),
{
    if s.len() > 1 {
        lemma_settle_from_props(s, 1);
    }
}

/// After the settle pass every segment beyond the first with a defined
/// start carries the end its start, length and orientation dictate; the
/// first segment keeps the consistency it was given.
pub proof fn lemma_settle_consistent(s: Seq<Segment>)
    requires
        chain_wf(s),
        s[0].start_point is Some ==> s[0].end_point == Some(
            end_of(s[0].start_point->Some_0, s[0].length as int, s[0].alpha as int),
        ),
    ensures
        consistent(settle_spec(s)),
{
    if s.len() > 1 {
        lemma_settle_from_props(s, 1);
    }
}

/// An anchored chain whose first end is defined comes out of the settle
/// pass with every endpoint defined.
pub proof fn lemma_settle_defined(s: Seq<Segment>)
    requires
        chain_wf(s),
        s[0].end_point is Some,
    ensures
        all_defined(settle_spec(s)) <== s[0].start_point is Some,
    decreases s.len(),
{
    let t = settle_spec(s);
    if s[0].start_point is Some {
        if s.len() > 1 {
            lemma_settle_from_props(s, 1);
            assert forall|j: int| 0 <= j < t.len() implies (#[trigger] t[j]).start_point is Some
                && t[j].end_point is Some by {
                lemma_settle_defined_chain(s, j);
            }
        }
    }
}

/// Definedness propagates down the settled chain, segment by segment.
proof fn lemma_settle_defined_chain(s: Seq<Segment>, j: int)
    requires
        chain_wf(s),
        s[0].start_point is Some,
        s[0].end_point is Some,
        0 <= j < s.len(),
    ensures
        settle_spec(s)[j].start_point is Some,
        settle_spec(s)[j].end_point is Some,
    decreases j,
{
    lemma_settle_from_props(s, 1);
    if j > 0 {
        lemma_settle_defined_chain(s, j - 1);
    }
}

/// An anchored settled chain determines the settle pass's outcome: two
/// chains that agree on their first segment and on every length and
/// orientation settle to the same chain.
pub proof fn lemma_settle_congruence(s: Seq<Segment>, t: Seq<Segment>, i: int)
    requires
        s.len() == t.len(),
        1 <= i <= s.len(),
        forall|j: int| 0 <= j < s.len() ==> (#[trigger] s[j]).length == t[j].length
            && s[j].alpha == t[j].alpha,
        forall|j: int| 0 <= j < i ==> s[j] == t[j],
        s[i - 1].end_point is Some,
    ensures
        settle_from(s, i) == settle_from(t, i),
    decreases s.len() - i,
{
    if i >= s.len() {
        assert(s =~= t);
    } else {
        let pin = s[i - 1].end_point;
        assert(t[i - 1] == s[i - 1]);
        let s1 = s.update(i, Segment { start_point: pin, ..s[i] });
        let s2 = s1.update(i, recompute_end_spec(s1[i]));
        let t1 = t.update(i, Segment { start_point: pin, ..t[i] });
        let t2 = t1.update(i, recompute_end_spec(t1[i]));
        assert(s2[i] == t2[i]);
        assert(forall|j: int| 0 <= j < i + 1 ==> s2[j] == t2[j]);
        assert(forall|j: int| 0 <= j < s.len() ==> (#[trigger] s2[j]).length == t2[j].length
            && s2[j].alpha == t2[j].alpha);
        assert(s2[i].end_point is Some);
        lemma_settle_congruence(s2, t2, i + 1);
    }
}

/// A chain that already satisfies continuity and consistency is a fixed
/// point of the settle pass.
pub proof fn lemma_settled_fixed(s: Seq<Segment>, i: int)
    requires
        1 <= i <= s.len(),
        continuity(s),
        consistent(s),
    ensures
        settle_from(s, i) == s,
    decreases s.len() - i,
{
    if i < s.len() {
        let s1 = if s[i - 1].end_point is Some {
            s.update(i, Segment { start_point: s[i - 1].end_point, ..s[i] })
        } else {
            s
        };
        if s[i - 1].end_point is Some {
            assert(s[i].start_point == s[i - 1].end_point);
            assert((Segment { start_point: s[i - 1].end_point, ..s[i] }) == s[i]);
            assert(s1 =~= s);
        }
        let s2 = s1.update(i, recompute_end_spec(s1[i]));
        assert(recompute_end_spec(s[i]) == s[i]);
        assert(s2 =~= s);
        lemma_settled_fixed(s, i + 1);
    }
}

/// One segment of a rotation: the orientation advanced by the delta and
/// normalized, and the end recomputed from the unchanged start.
pub open spec fn rotate_seg(s: Segment, delta: int) -> Segment {
    recompute_end_spec(
        Segment { alpha: ((s.alpha + delta) % (FULL_TURN as int)) as i64, ..s },
    )
}

/// A rotation from `from` on: every segment at or beyond the index turns
/// by the delta and recomputes its end; the ones before are untouched.
pub open spec fn rotate_map(s: Seq<Segment>, delta: int, from: int) -> Seq<Segment> {
    Seq::new(s.len(), |j: int| if from <= j { rotate_seg(s[j], delta) } else { s[j] })
}

/// One rotated segment keeps the chain bounds.
proof fn lemma_rotate_seg_at(s: Seq<Segment>, delta: int, from: int, j: int)
    requires
        chain_wf(s),
        0 <= from,
        0 <= j < s.len(),
    ensures
        ({
            let r = rotate_map(s, delta, from);
            &&& seg_wf(r[j])
            &&& pos_ok(r, j)
            &&& (from <= j ==> r[j].alpha == ((s[j].alpha + delta) % (FULL_TURN as int)))
            &&& (s[j].start_point is Some && s[j].end_point is Some ==> r[j].start_point is Some
                && r[j].end_point is Some)
        }),
{
    let r = rotate_map(s, delta, from);
    assert(seg_wf(s[j]));
    assert(pos_ok(s, j));
    lemma_prefix_congruence(r, s, j);
    lemma_prefix_congruence(r, s, j + 1);
    lemma_prefix_bounds(s, 0, j);
    lemma_prefix_bounds(s, j, j + 1);
    lemma_prefix_bounds(s, j + 1, s.len() as int);
    if from <= j {
        lemma_mod_division_less_than_divisor(s[j].alpha + delta, FULL_TURN as int);
        match s[j].start_point {
            Some(p) => {
                lemma_end_of_range(
                    p,
                    s[j].length as int,
                    ((s[j].alpha + delta) % (FULL_TURN as int)),
                    ANCHOR_MAX + prefix_total(s, j),
                );
            },
            None => {},
        }
    }
}

/// Shape and bounds of the rotation map.
#[verifier::rlimit(100)]
pub proof fn lemma_rotate_map_props(s: Seq<Segment>, delta: int, from: int)
    requires
        chain_wf(s),
        0 <= from,
    ensures
        ({
            let r = rotate_map(s, delta, from);
            &&& r.len() == s.len()
            &&& (forall|j: int| 0 <= j < s.len() ==> (#[trigger] r[j]).length == s[j].length
                && r[j].start_point == s[j].start_point)
            &&& (forall|j: int| 0 <= j < from && j < s.len() ==> #[trigger] r[j] == s[j])
            &&& (forall|j: int|
                from <= j < s.len() ==> (#[trigger] r[j]).alpha == ((s[j].alpha + delta) % (
                FULL_TURN as int)))
            &&& (forall|j: int|
                0 <= j < s.len() && (#[trigger] s[j]).start_point is Some
                    && s[j].end_point is Some ==> r[j].start_point is Some
                    && r[j].end_point is Some)
            &&& chain_wf(r)
            &&& total_len(r) == total_len(s)
        }),
{
    let r = rotate_map(s, delta, from);
    assert forall|j: int| 0 <= j < s.len() implies seg_wf(#[trigger] r[j]) && pos_ok(r, j)
        && (from <= j ==> r[j].alpha == ((s[j].alpha + delta) % (FULL_TURN as int)))
        && (s[j].start_point is Some && s[j].end_point is Some ==> r[j].start_point is Some
        && r[j].end_point is Some) by {
        lemma_rotate_seg_at(s, delta, from, j);
    }
    lemma_prefix_congruence(r, s, s.len() as int);
    assert(r.len() == s.len());
    assert(forall|j: int| 0 <= j < s.len() ==> (#[trigger] r[j]).length == s[j].length
        && r[j].start_point == s[j].start_point);
    assert(forall|j: int| 0 <= j < from && j < s.len() ==> #[trigger] r[j] == s[j]);
    assert(all_wf(r));
    assert(all_pos_ok(r));
    assert(total_len(r) == total_len(s));
    assert(chain_wf(r));
}

/// The settle pass leaves the summed lengths unchanged: the reach of a
/// chain is unaffected by propagation.
pub proof fn lemma_settle_total(s: Seq<Segment>)
    requires
        chain_wf(s),
    ensures
        total_len(settle_spec(s)) == total_len(s),
{
    if s.len() > 1 {
        lemma_settle_from_props(s, 1);
        lemma_prefix_congruence(settle_spec(s), s, s.len() as int);
    }
}

/// Rotation round-trip: rotating a settled chain by a delta from some
/// index and then by the negated delta from the same index restores the
/// chain exactly — every orientation, normalized to one turn, and every
/// position, the free end included.
pub proof fn lemma_rotate_round_trip(s: Seq<Segment>, delta: int, from: int)
    requires
        chain_wf(s),
        continuity(s),
        consistent(s),
        all_defined(s),
        0 <= from,
    ensures
        settle_spec(rotate_map(settle_spec(rotate_map(s, delta, from)), -delta, from)) == s,
{
    let r1 = rotate_map(s, delta, from);
    lemma_rotate_map_props(s, delta, from);
    let m1 = settle_spec(r1);
    lemma_settle_from_props(r1, 1);
    lemma_settle_total(r1);
    let r2 = rotate_map(m1, -delta, from);
    lemma_rotate_map_props(m1, -delta, from);
    assert forall|j: int| 0 <= j < s.len() implies (#[trigger] r2[j]).alpha == s[j].alpha by {
        assert(seg_wf(s[j]));
        if from <= j {
            let x = s[j].alpha + delta;
            assert(m1[j].alpha == x % (FULL_TURN as int));
            assert(r2[j].alpha == ((x % (FULL_TURN as int)) + (-delta)) % (FULL_TURN as int));
            lemma_add_mod_noop_right(-delta, x, FULL_TURN as int);
            assert(((-delta) + x % (FULL_TURN as int)) % (FULL_TURN as int) == ((-delta) + x) % (
            FULL_TURN as int));
            lemma_small_mod(s[j].alpha as nat, FULL_TURN as nat);
        } else {
            assert(r2[j] == m1[j]);
            assert(m1[j].alpha == r1[j].alpha);
        }
    }
    // The first segment is restored exactly, so the settle pass restores
    // the rest.
    assert(r1[0].start_point == s[0].start_point);
    assert(m1[0] == r1[0]);
    assert(r2[0].start_point == s[0].start_point);
    assert(s[0].start_point is Some);
    if from == 0 {
        assert(r2[0].end_point == Some(
            end_of(s[0].start_point->Some_0, s[0].length as int, r2[0].alpha as int),
        ));
        assert(s[0].end_point == Some(
            end_of(s[0].start_point->Some_0, s[0].length as int, s[0].alpha as int),
        ));
    } else {
        assert(r2[0] == m1[0]);
        assert(r1[0] == s[0]);
    }
    assert(r2[0] == s[0]);
    assert(r2[0].end_point is Some);
    assert(forall|j: int| 0 <= j < s.len() ==> (#[trigger] r2[j]).length == s[j].length
        && r2[j].alpha == s[j].alpha);
    lemma_settle_congruence(r2, s, 1);
    lemma_settled_fixed(s, 1);
}

/// One step of the settle pass: its effect on the sequence, and that it
/// keeps every chain bound.
#[verifier::rlimit(60)]
pub proof fn lemma_settle_step(s: Seq<Segment>, i: int)
    requires
        1 <= i < s.len(),
        all_wf(s),
        all_pos_ok(s),
        total_len(s) <= REACH_MAX,
    ensures
        ({
            let s1 = if s[i - 1].end_point is Some {
                s.update(i, Segment { start_point: s[i - 1].end_point, ..s[i] })
            } else {
                s
            };
            let s2 = s1.update(i, recompute_end_spec(s1[i]));
            &&& settle_from(s, i) == settle_from(s2, i + 1)
            &&& s2.len() == s.len()
            &&& (forall|j: int| 0 <= j < s.len() && j != i ==> s2[j] == s[j])
            &&& (forall|j: int| 0 <= j < s.len() ==> (#[trigger] s2[j]).length == s[j].length
                && s2[j].alpha == s[j].alpha)
            &&& all_wf(s2)
            &&& all_pos_ok(s2)
            &&& total_len(s2) == total_len(s)
        }),
{
    let s1 = if s[i - 1].end_point is Some {
        s.update(i, Segment { start_point: s[i - 1].end_point, ..s[i] })
    } else {
        s
    };
    let s2 = s1.update(i, recompute_end_spec(s1[i]));
    assert(forall|j: int| 0 <= j < s.len() ==> (#[trigger] s2[j]).length == s[j].length
        && s2[j].alpha == s[j].alpha);
    assert forall|j: int| 0 <= j <= s.len() implies prefix_total(s, j) == #[trigger] prefix_total(
        s2,
        j,
    ) by {
        lemma_prefix_congruence(s, s2, j);
    }
    lemma_prefix_bounds(s, 0, i);
    lemma_prefix_bounds(s, i, i + 1);
    lemma_prefix_bounds(s, i + 1, s.len() as int);
    assert(seg_wf(s[i]));
    assert(seg_wf(s[i - 1]));
    assert(pos_ok(s, i));
    assert(pos_ok(s, i - 1));
    match s1[i].start_point {
        Some(p) => {
            lemma_end_of_range(
                p,
                s1[i].length as int,
                s1[i].alpha as int,
                ANCHOR_MAX + prefix_total(s, i),
            );
        },
        None => {},
    }
    assert(seg_wf(s2[i]));
    assert(pos_ok(s2, i));
    assert forall|j: int| 0 <= j < s2.len() implies #[trigger] pos_ok(s2, j) by {
        if j != i {
            assert(pos_ok(s, j));
        }
    }
}

/// A list of freshly constructed segments with a bounded total length is
/// a well-formed chain.
pub proof fn lemma_formed_chain_wf(s: Seq<Segment>)
    requires
        s.len() >= 1,
        forall|j: int| 0 <= j < s.len() ==> seg_formed(#[trigger] s[j]),
        total_len(s) <= REACH_MAX,
    ensures
        chain_wf(s),
{
    assert(all_wf(s));
    assert forall|j: int| 0 <= j < s.len() implies #[trigger] pos_ok(s, j) by {
        lemma_prefix_bounds(s, 0, j);
        lemma_prefix_bounds(s, j, j + 1);
        lemma_prefix_bounds(s, j + 1, s.len() as int);
        assert(seg_formed(s[j]));
        match s[j].start_point {
            Some(p) => {
                lemma_end_of_range(p, s[j].length as int, s[j].alpha as int, ANCHOR_MAX as int);
            },
            None => {},
        }
    }
}

/// The point one anchor step away in a cardinal direction; the vertical
/// axis grows downward, as screen coordinates do.
pub open spec fn shift_point(p: Point, direction: Direction) -> Point {
    match direction {
        Direction::Up => Point { x: p.x, y: (p.y - MOVE_STEP) as i64 },
        Direction::Down => Point { x: p.x, y: (p.y + MOVE_STEP) as i64 },
        Direction::Right => Point { x: (p.x + MOVE_STEP) as i64, y: p.y },
        Direction::Left => Point { x: (p.x - MOVE_STEP) as i64, y: p.y },
    }
}

/// The anchor translation as a value transformation: the first segment's
/// start shifts one step and its end is recomputed.
pub open spec fn move_map(s: Seq<Segment>, direction: Direction) -> Seq<Segment> {
    s.update(
        0,
        recompute_end_spec(
            Segment {
                start_point: Some(shift_point(s[0].start_point->Some_0, direction)),
                ..s[0]
            },
        ),
    )
}

/// Shape and bounds of the anchor translation.
pub proof fn lemma_move_map_props(s: Seq<Segment>, direction: Direction)
    requires
        chain_wf(s),
        s[0].start_point is Some,
        in_range(s[0].start_point->Some_0, ANCHOR_MAX - MOVE_STEP),
    ensures
        ({
            let m = move_map(s, direction);
            &&& m.len() == s.len()
            &&& chain_wf(m)
            &&& (forall|j: int| 1 <= j < s.len() ==> #[trigger] m[j] == s[j])
            &&& (forall|j: int| 0 <= j < s.len() ==> (#[trigger] m[j]).length == s[j].length
                && m[j].alpha == s[j].alpha)
            &&& m[0].start_point == Some(shift_point(s[0].start_point->Some_0, direction))
            &&& m[0].end_point is Some
            &&& total_len(m) == total_len(s)
        }),
{
    let m = move_map(s, direction);
    let p = shift_point(s[0].start_point->Some_0, direction);
    assert(in_range(p, ANCHOR_MAX as int));
    assert(forall|j: int| 0 <= j < s.len() ==> (#[trigger] m[j]).length == s[j].length
        && m[j].alpha == s[j].alpha);
    assert forall|j: int| 0 <= j <= s.len() implies prefix_total(s, j) == #[trigger] prefix_total(
        m,
        j,
    ) by {
        lemma_prefix_congruence(s, m, j);
    }
    assert(seg_wf(s[0]));
    lemma_prefix_bounds(s, 0, 1);
    lemma_prefix_bounds(s, 1, s.len() as int);
    lemma_end_of_range(p, s[0].length as int, s[0].alpha as int, ANCHOR_MAX as int);
    assert(seg_wf(m[0]));
    assert(pos_ok(m, 0));
    assert forall|j: int| 0 <= j < m.len() implies #[trigger] pos_ok(m, j) by {
        if j != 0 {
            assert(pos_ok(s, j));
        }
    }
}

/// The starting index a rotation command selects: the given index, or the
/// whole chain when none is given.
pub open spec fn from_index(segment_id: Option<usize>) -> int {
    match segment_id {
        Some(i) => i as int,
        None => 0,
    }
}

impl Limb {
    /// Builds a chain from a list of freshly constructed segments: fails
    /// on an empty list, otherwise settles the chain, caches the origin
    /// and computes the total reach.
    pub fn new(limbs: Vec<Segment>) -> (r: Result<Limb, EmptyChainError>)
        requires
            forall|i: int| 0 <= i < limbs@.len() ==> seg_formed(#[trigger] limbs@[i]),
            total_len(limbs@) <= REACH_MAX,
        ensures
            limbs@.len() == 0 <==> r is Err,
            r is Err ==> r == Err::<Limb, EmptyChainError>(EmptyChainError),
            r is Ok ==> ({
                let l = r->Ok_0;
                &&& l.limbs@ == settle_spec(limbs@)
                &&& l.limbs@.len() == limbs@.len()
                &&& total_len(l.limbs@) == total_len(limbs@)
                &&& l.origin == limbs@[0].start_point
                &&& l.length == Some(total_len(limbs@) as i64)
                &&& limb_wf(l)
            }),
    {
        if limbs.len() == 0 {
            return Err(EmptyChainError);
        }
        proof {
            lemma_formed_chain_wf(limbs@);
            lemma_settle_from_props(limbs@, 1);
            lemma_settle_total(limbs@);
            lemma_prefix_bounds(limbs@, 0, limbs@.len() as int);
            if limbs@[0].start_point is Some {
                lemma_settle_defined(limbs@);
            }
        }
        let ghost input = limbs@;
        let mut limb = Limb { origin: None, limbs, length: None };
        limb.update_children();
        limb.update_origin();
        limb.get_total_length();
        proof {
            assert(limb.limbs@ == settle_spec(input));
            assert(limb.limbs@[0] == input[0]);
        }
        Ok(limb)
    }

    /// The settle pass: restores the start/end continuity of the chain
    /// after any edit, walking from the second segment to the free end.
    pub fn update_children(&mut self)
        requires
            chain_wf(old(self).limbs@),
        ensures
            final(self).limbs@ == settle_spec(old(self).limbs@),
            final(self).origin == old(self).origin,
            final(self).length == old(self).length,
            chain_wf(final(self).limbs@),
    {
        let ghost orig = self.limbs@;
        let n: usize = self.limbs.len();
        let mut i: usize = 1;
        proof {
            lemma_settle_from_props(orig, 1);
        }
        while i < n
            invariant
                1 <= i,
                i <= n || i == 1,
                n == self.limbs@.len(),
                n == orig.len(),
                all_wf(self.limbs@),
                all_pos_ok(self.limbs@),
                total_len(self.limbs@) == total_len(orig),
                total_len(orig) <= REACH_MAX,
                settle_from(orig, 1) == settle_from(self.limbs@, i as int),
                self.origin == old(self).origin,
                self.length == old(self).length,
            decreases n - i,
        {
            let ghost pre = self.limbs@;
            proof {
                lemma_settle_step(pre, i as int);
                assert(pos_ok(pre, i - 1));
                assert(pos_ok(pre, i as int));
                assert(seg_wf(pre[i as int]));
                lemma_prefix_bounds(pre, 0, i as int);
                lemma_prefix_bounds(pre, i as int, i + 1);
                lemma_prefix_bounds(pre, i + 1, pre.len() as int);
            }
            let prev_end = self.limbs[i - 1].end_point;
            let mut seg = self.limbs[i];
            if prev_end.is_some() {
                seg.start_point = prev_end;
            }
            seg.calculate_b();
            self.limbs.set(i, seg);
            proof {
                let s1 = if pre[i - 1].end_point is Some {
                    pre.update(
                        i as int,
                        Segment { start_point: pre[i - 1].end_point, ..pre[i as int] },
                    )
                } else {
                    pre
                };
                let s2 = s1.update(i as int, recompute_end_spec(s1[i as int]));
                assert(self.limbs@ =~= s2);
            }
            i = i + 1;
        }
        proof {
            assert(settle_from(self.limbs@, i as int) == self.limbs@);
            assert(self.limbs@ == settle_spec(orig));
        }
    }

    /// Refreshes the cached origin from the first segment's start, when
    /// that start is defined.
    pub fn update_origin(&mut self)
        requires
            old(self).limbs@.len() >= 1,
        ensures
            final(self).limbs == old(self).limbs,
            final(self).length == old(self).length,
            final(self).origin == (if old(self).limbs@[0].start_point is Some {
                old(self).limbs@[0].start_point
            } else {
                old(self).origin
            }),
    {
        let first = self.limbs[0];
        if let Some(start_point) = first.start_point {
            self.origin = Some(start_point);
        }
    }

    /// Recomputes and caches the total reach: the sum of every segment's
    /// length.
    pub fn get_total_length(&mut self)
        requires
            chain_wf(old(self).limbs@),
        ensures
            final(self).limbs == old(self).limbs,
            final(self).origin == old(self).origin,
            final(self).length == Some(total_len(old(self).limbs@) as i64),
    {
        let n: usize = self.limbs.len();
        let mut sum: i64 = 0;
        let mut i: usize = 0;
        while i < n
            invariant
                0 <= i <= n,
                n == self.limbs@.len(),
                chain_wf(self.limbs@),
                self.limbs == old(self).limbs,
                self.origin == old(self).origin,
                self.length == old(self).length,
                sum == prefix_total(self.limbs@, i as int),
            decreases n - i,
        {
            proof {
                assert(seg_wf(self.limbs@[i as int]));
                lemma_prefix_bounds(self.limbs@, 0, i as int);
                lemma_prefix_bounds(self.limbs@, i + 1, n as int);
            }
            sum = sum + self.limbs[i].length;
            i = i + 1;
        }
        self.length = Some(sum);
    }

    /// Rotates every segment at or beyond the selected index by the given
    /// delta in millidegrees, then settles the chain: an upstream joint
    /// rotation carries the whole downstream chain with it.
    pub fn rotate(&mut self, rotation: i64, segment_id: Option<usize>)
        requires
            limb_wf(*old(self)),
            rotation > i64::MIN,
        ensures
            final(self).limbs@ == settle_spec(
                rotate_map(old(self).limbs@, rotation as int, from_index(segment_id)),
            ),
            final(self).origin == old(self).origin,
            final(self).length == old(self).length,
            limb_wf(*final(self)),
            anchored(*final(self)) == anchored(*old(self)),
    {
        let ghost orig = self.limbs@;
        let ghost from = from_index(segment_id);
        proof {
            lemma_rotate_map_props(orig, rotation as int, from);
        }
        let start_point: usize = match segment_id {
            Some(i) => i,
            None => 0,
        };
        let alpha: i64 = norm_md(rotation);
        let n: usize = self.limbs.len();
        let mut i: usize = start_point;
        while i < n
            invariant
                start_point <= i,
                i <= n || i == start_point,
                n == self.limbs@.len(),
                n == orig.len(),
                from == start_point as int,
                0 <= alpha < FULL_TURN,
                alpha == (rotation as int) % (FULL_TURN as int),
                all_wf(orig),
                all_pos_ok(orig),
                total_len(orig) <= REACH_MAX,
                forall|j: int| 0 <= j < n && !(from <= j < i as int) ==> #[trigger] self.limbs@[j]
                    == orig[j],
                forall|j: int| from <= j < i as int && j < n ==> #[trigger] self.limbs@[j]
                    == rotate_map(orig, rotation as int, from)[j],
                self.origin == old(self).origin,
                self.length == old(self).length,
            decreases n - i,
        {
            proof {
                assert(self.limbs@[i as int] == orig[i as int]);
                assert(seg_wf(orig[i as int]));
                assert(pos_ok(orig, i as int));
                lemma_prefix_bounds(orig, 0, i as int);
                lemma_prefix_bounds(orig, i as int, i + 1);
                lemma_prefix_bounds(orig, i + 1, n as int);
            }
            let mut seg = self.limbs[i];
            let na: i64 = seg.alpha + alpha;
            seg.alpha = if na >= FULL_TURN {
                na - FULL_TURN
            } else {
                na
            };
            proof {
                lemma_add_mod_noop_right(orig[i as int].alpha as int, rotation as int, FULL_TURN as int);
                if na >= FULL_TURN {
                    lemma_mod_sub_multiples_vanish(na as int, FULL_TURN as int);
                    lemma_small_mod((na - FULL_TURN) as nat, FULL_TURN as nat);
                } else {
                    lemma_small_mod(na as nat, FULL_TURN as nat);
                }
                assert(seg.alpha == (orig[i as int].alpha + rotation as int) % (FULL_TURN as int));
            }
            seg.calculate_b();
            self.limbs.set(i, seg);
            proof {
                assert(self.limbs@[i as int] == rotate_map(orig, rotation as int, from)[i as int]);
            }
            i = i + 1;
        }
        proof {
            assert(self.limbs@ =~= rotate_map(orig, rotation as int, from));
            lemma_settle_from_props(self.limbs@, 1);
            lemma_settle_total(self.limbs@);
            if anchored(*old(self)) {
                assert(orig[0].start_point is Some && orig[0].end_point is Some);
                lemma_settle_defined(self.limbs@);
            }
        }
        self.update_children();
    }

    /// Nudges the anchor one step in a cardinal direction and settles the
    /// chain; an unanchored chain cannot be translated, so the call is a
    /// no-op until an anchor has been given.
    pub fn move_origin(&mut self, direction: Direction)
        requires
            limb_wf(*old(self)),
            anchored(*old(self)) ==> in_range(
                old(self).limbs@[0].start_point->Some_0,
                ANCHOR_MAX - MOVE_STEP,
            ),
        ensures
            limb_wf(*final(self)),
            !anchored(*old(self)) ==> *final(self) == *old(self),
            anchored(*old(self)) ==> ({
                &&& final(self).limbs@ == settle_spec(move_map(old(self).limbs@, direction))
                &&& final(self).origin == Some(
                    shift_point(old(self).limbs@[0].start_point->Some_0, direction),
                )
                &&& final(self).length == old(self).length
            }),
    {
        let ghost orig = self.limbs@;
        let first = self.limbs[0];
        match first.start_point {
            Some(start_point) => {
                proof {
                    lemma_move_map_props(orig, direction);
                    lemma_settle_from_props(move_map(orig, direction), 1);
                    lemma_settle_total(move_map(orig, direction));
                    lemma_settle_defined(move_map(orig, direction));
                    assert(seg_wf(orig[0]));
                    assert(pos_ok(orig, 0));
                }
                let shifted: Point = match direction {
                    Direction::Up => Point { x: start_point.x, y: start_point.y - MOVE_STEP },
                    Direction::Down => Point { x: start_point.x, y: start_point.y + MOVE_STEP },
                    Direction::Right => Point { x: start_point.x + MOVE_STEP, y: start_point.y },
                    Direction::Left => Point { x: start_point.x - MOVE_STEP, y: start_point.y },
                };
                let mut seg = first;
                seg.start_point = Some(shifted);
                seg.calculate_b();
                self.limbs.set(0, seg);
                proof {
                    assert(self.limbs@ =~= move_map(orig, direction));
                }
                self.update_children();
                self.update_origin();
            },
            None => {},
        }
    }
}

} // verus!
