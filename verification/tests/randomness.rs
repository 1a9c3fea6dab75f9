//! The seedable random source and the rejection samplers.

use pathtracer::geom::Vec3;
use pathtracer::num::{ONE, ONE_SQ};
use pathtracer::random::Random;

#[test]
fn equal_seeds_give_equal_sequences() {
    let mut a = Random::with_seed(99);
    let mut b = Random::with_seed(99);
    for _ in 0..100 {
        assert_eq!(a.random_double(), b.random_double());
    }
}

#[test]
fn unit_samples_stay_in_range() {
    let mut r = Random::with_seed(1);
    for _ in 0..200 {
        let u = r.random_double();
        assert!(0 <= u && u < ONE);
        let v = r.random_double_in(-ONE, ONE);
        assert!(-ONE <= v && v <= ONE);
        let k = r.random_int_in(0, 2);
        assert!(k <= 2);
    }
}

#[test]
fn zero_seed_is_replaced() {
    let mut z = Random::with_seed(0);
    let mut one = Random::with_seed(1);
    // The zero state would be a fixed point of the generator; seeding with
    // zero silently picks a nonzero state instead.
    assert!(z.random_double() != 0 || z.random_double() != 0 || z.random_double() != 0);
    let _ = one.random_double();
}

#[test]
fn sphere_samples_land_inside_the_unit_ball() {
    let mut r = Random::with_seed(31);
    for _ in 0..50 {
        let p = Vec3::random_in_unit_sphere(&mut r);
        assert!(p.length_squared() < ONE_SQ);
        // Candidates too short to normalize meaningfully are re-rolled.
        assert!(p.length_squared() >= 268435456);
    }
}

#[test]
fn disk_samples_land_inside_the_unit_disk() {
    let mut r = Random::with_seed(32);
    for _ in 0..50 {
        let p = Vec3::random_in_unit_disk(&mut r);
        assert!(p.length_squared() < ONE_SQ);
        assert_eq!(p.z, 0);
    }
}

#[test]
fn unit_vectors_have_unit_length_up_to_rounding() {
    let mut r = Random::with_seed(33);
    for _ in 0..50 {
        let v = Vec3::random_unit_vector(&mut r);
        assert!(-ONE <= v.x && v.x <= ONE);
        assert!(-ONE <= v.y && v.y <= ONE);
        assert!(-ONE <= v.z && v.z <= ONE);
        // The proved normalization band.
        assert!(v.length_squared() >= ONE_SQ - 6 * ONE);
        assert!(v.length_squared() <= ONE_SQ + 15 * ONE);
    }
}

#[test]
fn normalizing_a_solid_vector_is_accurate() {
    // (3, 4, 0) normalizes to (3/5, 4/5, 0) up to floor rounding.
    let v = Vec3::new(3 * ONE, 4 * ONE, 0);
    let u = v.unit_norm();
    assert_eq!(u, Vec3::new(39321, 52428, 0));
    let n2 = u.length_squared();
    assert!(n2 <= ONE_SQ);
    assert!(n2 >= ONE_SQ - 8 * ONE);
}

#[test]
fn range_vectors_respect_their_bounds() {
    let mut r = Random::with_seed(34);
    for _ in 0..50 {
        let v = Vec3::random_in(&mut r, -2 * ONE, 3 * ONE);
        assert!(-2 * ONE <= v.x && v.x <= 3 * ONE);
        assert!(-2 * ONE <= v.y && v.y <= 3 * ONE);
        assert!(-2 * ONE <= v.z && v.z <= 3 * ONE);
        let w = Vec3::random(&mut r);
        assert!(0 <= w.x && w.x < ONE);
    }
}
