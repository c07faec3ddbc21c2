use fabrik::geom::Point;
use fabrik::limb::{Direction, EmptyChainError, Limb};
use fabrik::segment::Segment;

fn demo_chain() -> Limb {
    let segments = vec![
        Segment::new(Some(Point { x: 5_000_000, y: 3_000_000 }), 1_000_000, 30_000),
        Segment::new(None, 1_000_000, 0),
        Segment::new(None, 500_000, 30_000),
    ];
    Limb::new(segments).unwrap()
}

fn dist(a: Point, b: Point) -> f64 {
    let dx = (b.x - a.x) as f64;
    let dy = (b.y - a.y) as f64;
    (dx * dx + dy * dy).sqrt()
}

fn assert_continuity(l: &Limb) {
    for i in 1..l.limbs.len() {
        assert_eq!(
            l.limbs[i].start_point,
            l.limbs[i - 1].end_point,
            "segment {} does not start where its predecessor ends",
            i
        );
    }
}

fn assert_length_invariant(l: &Limb, tolerance: f64) {
    for seg in l.limbs.iter() {
        if let (Some(start), Some(end)) = (seg.start_point, seg.end_point) {
            let d = dist(start, end);
            assert!(
                (d - seg.length as f64).abs() < tolerance,
                "segment length drifted: {} vs {}",
                d,
                seg.length
            );
        }
    }
}

#[test]
fn empty_construction_fails() {
    let r = Limb::new(Vec::new());
    assert_eq!(r.err(), Some(EmptyChainError));
}

#[test]
fn construction_settles_the_chain() {
    let l = demo_chain();
    assert_continuity(&l);
    assert_length_invariant(&l, 2_500.0);
    assert_eq!(l.origin, Some(Point { x: 5_000_000, y: 3_000_000 }));
    assert_eq!(l.length, Some(2_500_000));
    assert_eq!(l.limbs[0].end_point, l.limbs[1].start_point);
}

#[test]
fn reach_is_the_sum_of_lengths() {
    let mut l = demo_chain();
    assert_eq!(l.length, Some(2_500_000));
    l.rotate(123_000, None);
    l.get_total_length();
    assert_eq!(l.length, Some(2_500_000));
    l.move_origin(Direction::Left);
    l.get_total_length();
    assert_eq!(l.length, Some(2_500_000));
}

#[test]
fn rotation_carries_the_downstream_chain() {
    let mut l = demo_chain();
    l.rotate(45_000, None);
    assert_eq!(l.limbs[0].alpha, 75_000);
    assert_eq!(l.limbs[1].alpha, 45_000);
    assert_eq!(l.limbs[2].alpha, 75_000);
    assert_continuity(&l);
    assert_length_invariant(&l, 2_500.0);
    assert_eq!(l.origin, Some(Point { x: 5_000_000, y: 3_000_000 }));
}

#[test]
fn rotation_from_an_index_leaves_the_upstream_alone() {
    let mut l = demo_chain();
    let first_before = (l.limbs[0].alpha, l.limbs[0].start_point, l.limbs[0].end_point);
    l.rotate(90_000, Some(1));
    assert_eq!(l.limbs[0].alpha, first_before.0);
    assert_eq!(l.limbs[0].start_point, first_before.1);
    assert_eq!(l.limbs[0].end_point, first_before.2);
    assert_eq!(l.limbs[1].alpha, 90_000);
    assert_eq!(l.limbs[2].alpha, 120_000);
    assert_continuity(&l);
}

#[test]
fn rotation_round_trip_restores_the_chain() {
    let mut l = demo_chain();
    let before: Vec<(Option<Point>, Option<Point>, i64, i64)> = l
        .limbs
        .iter()
        .map(|s| (s.start_point, s.end_point, s.length, s.alpha))
        .collect();
    l.rotate(37_123, Some(1));
    l.rotate(-37_123, Some(1));
    for (i, seg) in l.limbs.iter().enumerate() {
        assert_eq!(seg.start_point, before[i].0, "start of segment {}", i);
        assert_eq!(seg.end_point, before[i].1, "end of segment {}", i);
        assert_eq!(seg.length, before[i].2);
        assert_eq!(seg.alpha, before[i].3, "alpha of segment {}", i);
    }
}

#[test]
fn full_turn_rotation_restores_the_chain() {
    let mut l = demo_chain();
    let end_before = l.limbs[2].end_point;
    l.rotate(360_000, None);
    assert_eq!(l.limbs[0].alpha, 30_000);
    assert_eq!(l.limbs[2].end_point, end_before);
}

#[test]
fn moving_the_anchor_shifts_the_whole_chain() {
    let mut l = demo_chain();
    let end_before = l.limbs[2].end_point.unwrap();
    l.move_origin(Direction::Right);
    assert_eq!(l.origin, Some(Point { x: 5_050_000, y: 3_000_000 }));
    let end_after = l.limbs[2].end_point.unwrap();
    assert_eq!(end_after, Point { x: end_before.x + 50_000, y: end_before.y });
    assert_continuity(&l);
    l.move_origin(Direction::Up);
    assert_eq!(l.origin, Some(Point { x: 5_050_000, y: 2_950_000 }));
    l.move_origin(Direction::Down);
    l.move_origin(Direction::Left);
    assert_eq!(l.origin, Some(Point { x: 5_000_000, y: 3_000_000 }));
}

#[test]
fn moving_an_unanchored_chain_is_a_no_op() {
    let segments = vec![
        Segment::new(None, 1_000_000, 0),
        Segment::new(None, 500_000, 0),
    ];
    let mut l = Limb::new(segments).unwrap();
    assert_eq!(l.origin, None);
    l.move_origin(Direction::Right);
    assert_eq!(l.origin, None);
    assert_eq!(l.limbs[0].start_point, None);
}
