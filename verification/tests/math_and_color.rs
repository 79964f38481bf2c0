use core_of_color::color::Color;
use core_of_color::math::{clamp_i64, cos_milli, div_floor_i64, div_trunc_i64, isqrt64, sin_milli};
use core_of_color::Vec2;

#[test]
fn integer_square_roots_are_floors() {
    assert_eq!(isqrt64(0), 0);
    assert_eq!(isqrt64(1), 1);
    assert_eq!(isqrt64(3), 1);
    assert_eq!(isqrt64(4), 2);
    assert_eq!(isqrt64(999_999), 999);
    assert_eq!(isqrt64(1_000_000), 1000);
    assert_eq!(isqrt64(u64::MAX), 4_294_967_295);
}

#[test]
fn floor_and_trunc_division_differ_below_zero() {
    assert_eq!(div_floor_i64(7, 2), 3);
    assert_eq!(div_floor_i64(-7, 2), -4);
    assert_eq!(div_trunc_i64(7, 2), 3);
    assert_eq!(div_trunc_i64(-7, 2), -3);
    assert_eq!(div_floor_i64(-3, 2), -2);
    assert_eq!(div_trunc_i64(-3, 2), -1);
}

#[test]
fn clamping_pins_the_ends() {
    assert_eq!(clamp_i64(5, -10, 10), 5);
    assert_eq!(clamp_i64(-50, -10, 10), -10);
    assert_eq!(clamp_i64(50, -10, 10), 10);
}

#[test]
fn sine_hits_the_cardinal_points() {
    assert_eq!(sin_milli(0), 0);
    assert_eq!(sin_milli(500_000), 0);
    assert_eq!(sin_milli(250_000), 1000);
    assert_eq!(sin_milli(750_000), -1000);
    assert_eq!(cos_milli(0), 1000);
    assert_eq!(cos_milli(250_000), 0);
    assert_eq!(cos_milli(500_000), -1000);
    // The approximation stays within the unit amplitude everywhere.
    let mut t = 0i64;
    while t < 1_000_000 {
        let s = sin_milli(t);
        assert!((-1000..=1000).contains(&s));
        t += 12_345;
    }
}

#[test]
fn hue_difference_folds_around_the_circle() {
    let a = Color { hue: 10_000, sat: 0, light: 0 };
    let b = Color { hue: 350_000, sat: 0, light: 0 };
    assert_eq!(a.hue_diff(&b), 20_000);
    assert_eq!(b.hue_diff(&a), 20_000);
    let c = Color { hue: 190_000, sat: 0, light: 0 };
    assert_eq!(a.hue_diff(&c), 180_000);
    assert_eq!(a.hue_diff(&a), 0);
}

#[test]
fn squared_distance_is_exact() {
    let a = Vec2 { x: 3000, y: 4000 };
    let o = Vec2 { x: 0, y: 0 };
    assert_eq!(o.dist_sq(a), 25_000_000);
    assert_eq!(isqrt64(o.dist_sq(a)), 5000);
}
