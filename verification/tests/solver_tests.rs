use fabrik::geom::{Point, Target};
use fabrik::limb::Limb;
use fabrik::segment::Segment;

fn demo_chain() -> Limb {
    let segments = vec![
        Segment::new(Some(Point { x: 5_000_000, y: 3_000_000 }), 1_000_000, 30_000),
        Segment::new(None, 1_000_000, 0),
        Segment::new(None, 500_000, 30_000),
    ];
    Limb::new(segments).unwrap()
}

fn dist(a: Point, b: Point) -> f64 {
    let dx = (b.x - a.x) as f64;
    let dy = (b.y - a.y) as f64;
    (dx * dx + dy * dy).sqrt()
}

fn free_end(l: &Limb) -> Point {
    l.limbs[l.limbs.len() - 1].end_point.unwrap()
}

fn assert_length_invariant(l: &Limb, tolerance: f64) {
    for seg in l.limbs.iter() {
        let d = dist(seg.start_point.unwrap(), seg.end_point.unwrap());
        assert!(
            (d - seg.length as f64).abs() < tolerance,
            "segment length drifted: {} vs {}",
            d,
            seg.length
        );
    }
}

#[test]
fn fold_reaches_a_target_within_reach() {
    let mut l = demo_chain();
    let target = Target { position: Point { x: 5_000_000, y: 3_000_000 } };
    l.aim_target(&target);
    let d = dist(free_end(&l), target.position);
    assert!(d < 10_000.0, "free end is {} sub-units from the target", d);
    assert_length_invariant(&l, 2_500.0);
    assert_eq!(l.origin, Some(Point { x: 5_000_000, y: 3_000_000 }));
    assert_eq!(l.limbs[0].start_point, Some(Point { x: 5_000_000, y: 3_000_000 }));
}

#[test]
fn fold_reaches_a_nearby_off_axis_target() {
    let mut l = demo_chain();
    let target = Target { position: Point { x: 6_200_000, y: 2_100_000 } };
    l.aim_target(&target);
    let d = dist(free_end(&l), target.position);
    assert!(d < 10_000.0, "free end is {} sub-units from the target", d);
    assert_length_invariant(&l, 2_500.0);
}

#[test]
fn straighten_points_the_chain_at_an_out_of_reach_target() {
    let mut l = demo_chain();
    let target = Target { position: Point { x: 10_000_000, y: 3_000_000 } };
    l.aim_target(&target);
    assert_eq!(l.limbs[0].alpha, 0);
    assert_eq!(l.limbs[1].alpha, 0);
    assert_eq!(l.limbs[2].alpha, 0);
    assert_eq!(l.limbs[0].start_point, Some(Point { x: 5_000_000, y: 3_000_000 }));
    assert_eq!(l.limbs[0].end_point, Some(Point { x: 6_000_000, y: 3_000_000 }));
    assert_eq!(l.limbs[1].end_point, Some(Point { x: 7_000_000, y: 3_000_000 }));
    assert_eq!(l.limbs[2].end_point, Some(Point { x: 7_500_000, y: 3_000_000 }));
}

#[test]
fn straighten_falls_short_by_the_distance_beyond_reach() {
    let mut l = demo_chain();
    let target = Target { position: Point { x: 10_000_000, y: 3_000_000 } };
    l.aim_target(&target);
    let origin = l.origin.unwrap();
    let d_end = dist(free_end(&l), origin);
    assert_eq!(d_end, 2_500_000.0);
    let short = dist(free_end(&l), target.position);
    assert_eq!(short, 2_500_000.0);
}

#[test]
fn aim_twice_out_of_reach_is_exactly_idempotent() {
    let mut l = demo_chain();
    let target = Target { position: Point { x: 1_000_000, y: -6_000_000 } };
    l.aim_target(&target);
    let snapshot: Vec<(Option<Point>, Option<Point>, i64, i64)> = l
        .limbs
        .iter()
        .map(|s| (s.start_point, s.end_point, s.length, s.alpha))
        .collect();
    l.aim_target(&target);
    for (i, seg) in l.limbs.iter().enumerate() {
        assert_eq!(seg.start_point, snapshot[i].0, "start of segment {}", i);
        assert_eq!(seg.end_point, snapshot[i].1, "end of segment {}", i);
        assert_eq!(seg.alpha, snapshot[i].3);
    }
}

#[test]
fn aim_twice_in_reach_barely_moves_a_converged_end() {
    let mut l = demo_chain();
    let target = Target { position: Point { x: 5_700_000, y: 2_200_000 } };
    l.aim_target(&target);
    let end_first = free_end(&l);
    l.aim_target(&target);
    let end_second = free_end(&l);
    let moved = dist(end_first, end_second);
    assert!(moved < 10_000.0, "second aim moved the free end by {}", moved);
}

#[test]
fn fold_keeps_every_length_through_direct_calls() {
    let mut l = demo_chain();
    let target = Target { position: Point { x: 4_000_000, y: 4_000_000 } };
    l.fabrik(&target);
    assert_length_invariant(&l, 2_500.0);
    assert_eq!(l.length, Some(2_500_000));
    let d = dist(free_end(&l), target.position);
    assert!(d < 10_000.0);
}

#[test]
fn straighten_by_a_raw_angle() {
    let mut l = demo_chain();
    l.straight_point(90_000);
    assert_eq!(l.limbs[0].alpha, 90_000);
    assert_eq!(l.limbs[2].end_point, Some(Point { x: 5_000_000, y: 5_500_000 }));
}

#[test]
fn a_target_exactly_at_the_reach_boundary_is_folded_to() {
    let segments = vec![Segment::new(Some(Point { x: 0, y: 0 }), 1_000_000, 0)];
    let mut l = Limb::new(segments).unwrap();
    let target = Target { position: Point { x: 1_000_000, y: 0 } };
    l.aim_target(&target);
    assert_eq!(free_end(&l), Point { x: 1_000_000, y: 0 });
}

#[test]
fn a_long_chain_folds_to_its_target() {
    let mut segments = Vec::new();
    for i in 0..20 {
        let start = if i == 0 { Some(Point { x: 0, y: 0 }) } else { None };
        segments.push(Segment::new(start, 100_000, (i as i64) * 17_000));
    }
    let mut l = Limb::new(segments).unwrap();
    assert_eq!(l.length, Some(2_000_000));
    let target = Target { position: Point { x: 600_000, y: -400_000 } };
    l.aim_target(&target);
    let d = dist(free_end(&l), target.position);
    assert!(d < 10_000.0, "free end is {} sub-units from the target", d);
    assert_length_invariant(&l, 2_500.0);
}

#[test]
fn aiming_an_unanchored_chain_is_a_no_op() {
    let segments = vec![
        Segment::new(None, 1_000_000, 0),
        Segment::new(None, 500_000, 0),
    ];
    let mut l = Limb::new(segments).unwrap();
    let target = Target { position: Point { x: 0, y: 0 } };
    l.aim_target(&target);
    assert_eq!(l.limbs[0].start_point, None);
    assert_eq!(l.origin, None);
}
