//! Exact values of the fixed-point math the simulation runs on.

use growth::fixmath::{
    atan2_brad_x, cos_fp_x, dist_sq_x, isqrt, pow19_fp_x, sin_fp_x, HALF_TURN, QUARTER_TURN, SCALE,
};

#[test]
fn sine_hits_the_cardinal_points() {
    assert_eq!(sin_fp_x(0), 0);
    assert_eq!(sin_fp_x(QUARTER_TURN), SCALE);
    assert_eq!(sin_fp_x(HALF_TURN), 0);
    assert_eq!(sin_fp_x(HALF_TURN + QUARTER_TURN), -SCALE);
}

#[test]
fn cosine_hits_the_cardinal_points() {
    assert_eq!(cos_fp_x(0), SCALE);
    assert_eq!(cos_fp_x(QUARTER_TURN), 0);
    assert_eq!(cos_fp_x(HALF_TURN), -SCALE);
    assert_eq!(cos_fp_x(HALF_TURN + QUARTER_TURN), 0);
}

#[test]
fn sine_is_close_to_the_real_function() {
    // Bhaskara's approximation stays within about two percent of unity.
    for k in 0..64i64 {
        let a = k * 1024;
        let got = sin_fp_x(a) as f64 / 65536.0;
        let want = (a as f64 / 65536.0 * std::f64::consts::TAU).sin();
        assert!((got - want).abs() < 0.02, "angle {}: {} vs {}", a, got, want);
    }
}

#[test]
fn atan2_hits_the_axes_and_diagonal() {
    assert_eq!(atan2_brad_x(0, 0), 0);
    assert_eq!(atan2_brad_x(100, 0), 0);
    assert_eq!(atan2_brad_x(0, 100), QUARTER_TURN);
    assert_eq!(atan2_brad_x(-100, 0), HALF_TURN);
    assert_eq!(atan2_brad_x(0, -100), HALF_TURN + QUARTER_TURN);
    assert_eq!(atan2_brad_x(100, 100), QUARTER_TURN / 2);
}

#[test]
fn integer_square_root_is_exact() {
    assert_eq!(isqrt(0), 0);
    assert_eq!(isqrt(1), 1);
    assert_eq!(isqrt(15), 3);
    assert_eq!(isqrt(16), 4);
    assert_eq!(isqrt(1 << 40), 1 << 20);
    let n: u64 = (1 << 62) - 1;
    let r = isqrt(n);
    assert!(r * r <= n);
    assert!((r + 1).checked_mul(r + 1).map_or(true, |s| s > n));
}

#[test]
fn heavy_tail_bias_keeps_sign_and_flattens_the_middle() {
    assert_eq!(pow19_fp_x(SCALE), SCALE);
    assert_eq!(pow19_fp_x(-SCALE), -SCALE);
    assert_eq!(pow19_fp_x(0), 0);
    // One half to the nineteenth power rounds to zero in this resolution.
    assert_eq!(pow19_fp_x(SCALE / 2), 0);
    assert_eq!(pow19_fp_x(-SCALE / 2), 0);
}

#[test]
fn squared_distance_is_exact() {
    assert_eq!(dist_sq_x(3, 4, 0, 0), 25);
    assert_eq!(dist_sq_x(-3, 4, 3, -4), 100);
    assert_eq!(dist_sq_x(7, 7, 7, 7), 0);
}
