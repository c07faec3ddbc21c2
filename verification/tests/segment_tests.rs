use fabrik::geom::Point;
use fabrik::segment::{Fabrik, Segment};

fn dist(a: Point, b: Point) -> f64 {
    let dx = (b.x - a.x) as f64;
    let dy = (b.y - a.y) as f64;
    (dx * dx + dy * dy).sqrt()
}

#[test]
fn new_segment_derives_its_end() {
    let s = Segment::new(Some(Point { x: 0, y: 0 }), 1_000_000, 0);
    assert_eq!(s.end_point, Some(Point { x: 1_000_000, y: 0 }));
    let s = Segment::new(Some(Point { x: 0, y: 0 }), 1_000_000, 90_000);
    assert_eq!(s.end_point, Some(Point { x: 0, y: 1_000_000 }));
}

#[test]
fn new_segment_at_thirty_degrees() {
    let s = Segment::new(Some(Point { x: 0, y: 0 }), 1_000_000, 30_000);
    let end = s.end_point.unwrap();
    assert_eq!(end.y, 500_000);
    assert!((end.x - 866_025).abs() < 2_000);
}

#[test]
fn new_segment_normalizes_the_orientation() {
    let s = Segment::new(None, 1_000_000, -30_000);
    assert_eq!(s.alpha, 330_000);
    let s = Segment::new(None, 1_000_000, 390_000);
    assert_eq!(s.alpha, 30_000);
}

#[test]
fn unanchored_segment_has_no_end() {
    let mut s = Segment::new(None, 1_000_000, 45_000);
    assert_eq!(s.end_point, None);
    s.calculate_b();
    assert_eq!(s.end_point, None);
}

#[test]
fn backward_projection_pins_the_end() {
    let mut s = Segment::new(Some(Point { x: 0, y: 0 }), 1_000_000, 0);
    s.end_point = Some(Point { x: 2_000_000, y: 0 });
    s.calculate_a(Fabrik::Backwards);
    assert_eq!(s.end_point, Some(Point { x: 2_000_000, y: 0 }));
    assert_eq!(s.start_point, Some(Point { x: 1_000_000, y: 0 }));
}

#[test]
fn forward_projection_pins_the_start() {
    let mut s = Segment::new(Some(Point { x: 0, y: 0 }), 1_000_000, 0);
    s.start_point = Some(Point { x: -3_000_000, y: 0 });
    s.calculate_a(Fabrik::Forwards);
    assert_eq!(s.start_point, Some(Point { x: -3_000_000, y: 0 }));
    let end = s.end_point.unwrap();
    assert_eq!(end, Point { x: -2_000_000, y: 0 });
}

#[test]
fn projection_is_rigid_on_a_diagonal() {
    let mut s = Segment::new(Some(Point { x: 100_000, y: 250_000 }), 700_000, 10_000);
    s.end_point = Some(Point { x: 4_000_000, y: -1_500_000 });
    s.calculate_a(Fabrik::Backwards);
    let d = dist(s.start_point.unwrap(), s.end_point.unwrap());
    assert!((d - 700_000.0).abs() < 5.0, "length drifted to {}", d);
}

#[test]
fn projection_of_a_degenerate_offset_points_east() {
    let p = Point { x: 42, y: 17 };
    let mut s = Segment::new(Some(p), 1_000_000, 0);
    s.start_point = Some(p);
    s.end_point = Some(p);
    s.calculate_a(Fabrik::Backwards);
    assert_eq!(s.start_point, Some(Point { x: 42 - 1_000_000, y: 17 }));
}
