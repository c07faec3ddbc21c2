use fabrik::num::{isqrt, norm_md, FULL_TURN, TRIG_ONE};
use fabrik::trig::{atan2_md, cos_md, sin_md};

#[test]
fn sine_exact_points() {
    assert_eq!(sin_md(0), 0);
    assert_eq!(sin_md(30_000), 500_000);
    assert_eq!(sin_md(90_000), TRIG_ONE);
    assert_eq!(sin_md(150_000), 500_000);
    assert_eq!(sin_md(180_000), 0);
    assert_eq!(sin_md(210_000), -500_000);
    assert_eq!(sin_md(270_000), -TRIG_ONE);
}

#[test]
fn cosine_exact_points() {
    assert_eq!(cos_md(0), TRIG_ONE);
    assert_eq!(cos_md(90_000), 0);
    assert_eq!(cos_md(180_000), -TRIG_ONE);
    assert_eq!(cos_md(270_000), 0);
}

#[test]
fn sine_tracks_the_real_sine() {
    let mut a: i64 = 0;
    while a < FULL_TURN {
        let approx = sin_md(a) as f64 / TRIG_ONE as f64;
        let exact = (a as f64 / 1000.0).to_radians().sin();
        assert!(
            (approx - exact).abs() < 0.002,
            "sin {} millidegrees: {} vs {}",
            a,
            approx,
            exact
        );
        a += 1_379;
    }
}

#[test]
fn cosine_tracks_the_real_cosine() {
    let mut a: i64 = 0;
    while a < FULL_TURN {
        let approx = cos_md(a) as f64 / TRIG_ONE as f64;
        let exact = (a as f64 / 1000.0).to_radians().cos();
        assert!((approx - exact).abs() < 0.002);
        a += 2_111;
    }
}

#[test]
fn azimuth_on_the_axes() {
    assert_eq!(atan2_md(0, 1_000), 0);
    assert_eq!(atan2_md(1_000, 0), 90_000);
    assert_eq!(atan2_md(0, -1_000), 180_000);
    assert_eq!(atan2_md(-1_000, 0), 270_000);
    assert_eq!(atan2_md(0, 0), 0);
}

#[test]
fn azimuth_tracks_the_real_arctangent() {
    let samples: [(i64, i64); 8] = [
        (3, 4),
        (4, 3),
        (-3, 4),
        (4, -3),
        (-4, -3),
        (7, -1),
        (-1, 7),
        (123_456, 654_321),
    ];
    for (dy, dx) in samples {
        let approx = atan2_md(dy, dx) as f64 / 1000.0;
        let mut exact = (dy as f64).atan2(dx as f64).to_degrees();
        if exact < 0.0 {
            exact += 360.0;
        }
        let mut diff = (approx - exact).abs();
        if diff > 180.0 {
            diff = 360.0 - diff;
        }
        assert!(diff < 0.15, "atan2({}, {}): {} vs {}", dy, dx, approx, exact);
    }
}

#[test]
fn integer_square_roots() {
    assert_eq!(isqrt(0), 0);
    assert_eq!(isqrt(1), 1);
    assert_eq!(isqrt(3), 1);
    assert_eq!(isqrt(4), 2);
    assert_eq!(isqrt(8), 2);
    assert_eq!(isqrt(1_000_000_000_000_000_000), 1_000_000_000);
    assert_eq!(isqrt(999_999_999_999_999_999), 999_999_999);
    assert_eq!(isqrt(25_000_000_000_000), 5_000_000);
}

#[test]
fn angle_normalization() {
    assert_eq!(norm_md(0), 0);
    assert_eq!(norm_md(359_999), 359_999);
    assert_eq!(norm_md(360_000), 0);
    assert_eq!(norm_md(720_001), 1);
    assert_eq!(norm_md(-1), 359_999);
    assert_eq!(norm_md(-30_000), 330_000);
    assert_eq!(norm_md(-720_000), 0);
}
