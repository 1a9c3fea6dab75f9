//! Vector algebra on concrete fixed-point values.

use pathtracer::geom::Vec3;
use pathtracer::num::{div_floor, isqrt_u128, wide_mul, ONE};

#[test]
fn test_cross() {
    let x = Vec3::new(ONE, 0, 0);
    let y = Vec3::new(0, ONE, 0);
    let z = Vec3::new(0, 0, ONE);
    assert_eq!(x.cross(&y), z);
}

#[test]
fn cross_anticommutes() {
    let x = Vec3::new(ONE, 0, 0);
    let y = Vec3::new(0, ONE, 0);
    assert_eq!(y.cross(&x), Vec3::new(0, 0, -ONE));
}

#[test]
fn dot_and_length() {
    let v = Vec3::new(3 * ONE, 4 * ONE, 0);
    assert_eq!(v.dot(&v), 25 * ONE * ONE);
    assert_eq!(v.length_squared(), 25 * ONE * ONE);
    assert_eq!(v.length(), 5 * ONE);
}

#[test]
fn unit_norm_of_axis() {
    let v = Vec3::new(0, 7 * ONE, 0);
    assert_eq!(v.unit_norm(), Vec3::new(0, ONE, 0));
    let zero = Vec3::new(0, 0, 0);
    assert_eq!(zero.unit_norm(), zero);
}

#[test]
fn reflect_preserves_magnitude_on_axis() {
    // d = (1, -1, 0), n = (0, 1, 0): the reflection is (1, 1, 0).
    let d = Vec3::new(ONE, -ONE, 0);
    let n = Vec3::new(0, ONE, 0);
    let r = d.reflect(&n);
    assert_eq!(r, Vec3::new(ONE, ONE, 0));
    assert_eq!(r.length_squared(), d.length_squared());
    // r . n == -(d . n)
    assert_eq!(r.dot(&n), -(d.dot(&n)));
}

#[test]
fn refract_with_unit_ratio_is_identity() {
    // Normal incidence through a matching medium: the direction passes
    // through unchanged.
    let u = Vec3::new(0, 0, -ONE);
    let n = Vec3::new(0, 0, ONE);
    let out = u.refract(&n, ONE);
    assert_eq!(out, u);
}

#[test]
fn near_zero_only_for_zero() {
    assert!(Vec3::new(0, 0, 0).is_near_zero());
    assert!(!Vec3::new(1, 0, 0).is_near_zero());
    assert!(!Vec3::new(0, -1, 0).is_near_zero());
}

#[test]
fn scalar_ops() {
    let v = Vec3::new(2 * ONE, -3 * ONE, ONE / 2);
    assert_eq!(v.scalar_mul(2 * ONE), Vec3::new(4 * ONE, -6 * ONE, ONE));
    assert_eq!(v.index_wise_mul(&Vec3::new(ONE / 2, ONE, 0)), Vec3::new(ONE, -3 * ONE, 0));
    assert_eq!(v.as_slice(), [2 * ONE, -3 * ONE, ONE / 2]);
    assert_eq!(v.get(0), 2 * ONE);
    assert_eq!(v.get(1), -3 * ONE);
    assert_eq!(v.get(2), ONE / 2);
}

#[test]
fn integer_square_root_brackets() {
    assert_eq!(isqrt_u128(0), 0);
    assert_eq!(isqrt_u128(15), 3);
    assert_eq!(isqrt_u128(16), 4);
    assert_eq!(isqrt_u128(1 << 62), 1 << 31);
}

#[test]
fn floor_division_rounds_down() {
    assert_eq!(div_floor(7, 2), 3);
    assert_eq!(div_floor(-7, 2), -4);
    assert_eq!(wide_mul(1 << 40, 1 << 40), 1i128 << 80);
}
