use fabrik::geom::{Point, Target};
use fabrik::limb::Direction;
use fabrik::model::{Hello, Message};

fn dist(a: Point, b: Point) -> f64 {
    let dx = (b.x - a.x) as f64;
    let dy = (b.y - a.y) as f64;
    (dx * dx + dy * dy).sqrt()
}

#[test]
fn the_demonstration_chain() {
    let h = Hello::new();
    assert!(!h.show_grid);
    assert!(h.state.target.is_none());
    assert_eq!(h.state.limbs.limbs.len(), 3);
    assert_eq!(h.state.limbs.origin, Some(Point { x: 5_000_000, y: 3_000_000 }));
    assert_eq!(h.state.limbs.length, Some(2_500_000));
    assert_eq!(h.state.limbs.limbs[0].length, 1_000_000);
    assert_eq!(h.state.limbs.limbs[1].length, 1_000_000);
    assert_eq!(h.state.limbs.limbs[2].length, 500_000);
    assert_eq!(h.state.limbs.limbs[0].alpha, 30_000);
    assert_eq!(h.state.limbs.limbs[1].alpha, 0);
    assert_eq!(h.state.limbs.limbs[2].alpha, 30_000);
}

#[test]
fn the_title() {
    let h = Hello::new();
    assert_eq!(h.title(), "Hello");
}

#[test]
fn move_target_creates_and_updates_the_target() {
    let mut h = Hello::new();
    h.update(Message::MoveTarget(Point { x: 1_000, y: 2_000 }));
    assert_eq!(
        h.state.target,
        Some(Target { position: Point { x: 1_000, y: 2_000 } })
    );
    h.update(Message::MoveTarget(Point { x: -5, y: 7 }));
    assert_eq!(h.state.target, Some(Target { position: Point { x: -5, y: 7 } }));
}

#[test]
fn move_command_nudges_the_anchor() {
    let mut h = Hello::new();
    h.update(Message::Move(Direction::Down));
    assert_eq!(h.state.limbs.origin, Some(Point { x: 5_000_000, y: 3_050_000 }));
}

#[test]
fn rotate_command_turns_the_whole_chain() {
    let mut h = Hello::new();
    h.update(Message::RotateLimb(60_000));
    assert_eq!(h.state.limbs.limbs[0].alpha, 90_000);
    assert_eq!(h.state.limbs.limbs[1].alpha, 60_000);
    assert_eq!(h.state.limbs.limbs[2].alpha, 90_000);
}

#[test]
fn get_length_refreshes_the_cache() {
    let mut h = Hello::new();
    h.update(Message::GetLength);
    assert_eq!(h.state.limbs.length, Some(2_500_000));
}

#[test]
fn aim_command_sets_the_target_and_reaches_it() {
    let mut h = Hello::new();
    let p = Point { x: 6_000_000, y: 3_600_000 };
    h.update(Message::Aim(p));
    assert_eq!(h.state.target, Some(Target { position: p }));
    let last = h.state.limbs.limbs[2].end_point.unwrap();
    assert!(dist(last, p) < 10_000.0);
}

#[test]
fn aim_command_straightens_when_out_of_reach() {
    let mut h = Hello::new();
    let p = Point { x: 5_000_000, y: -3_000_000 };
    h.update(Message::Aim(p));
    assert_eq!(h.state.limbs.limbs[0].alpha, 270_000);
    let last = h.state.limbs.limbs[2].end_point.unwrap();
    assert_eq!(last, Point { x: 5_000_000, y: 500_000 });
}
