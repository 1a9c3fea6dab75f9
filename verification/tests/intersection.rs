//! The intersection protocol on concrete spheres, lists and boxes.

use pathtracer::aabb::AaBoundingBox;
use pathtracer::color::Color;
use pathtracer::geom::{Point, Vec3};
use pathtracer::material::Material;
use pathtracer::num::ONE;
use pathtracer::object::{HittableList, MovingComponent, Object};
use pathtracer::rat::Rat;
use pathtracer::ray::Ray;

fn gray() -> Material {
    Material::new_lambertian(Color::new_rgb(ONE / 2, ONE / 2, ONE / 2)).unwrap()
}

fn sphere_at(z: i64, radius: i64) -> Object {
    Object::Sphere {
        center: Point(Vec3::new(0, 0, z)),
        radius,
        material: gray(),
        moving_component: None,
    }
}

fn window() -> (Rat, Rat) {
    (Rat::new(1, 1000), Rat::new(1 << 40, 1))
}

#[test]
fn sphere_hit_takes_the_smaller_root() {
    // Unit-radius-half sphere one unit down the axis, ray from the origin:
    // the entry point is at exactly t = 1/2.
    let s = sphere_at(-ONE, ONE / 2);
    let ray = Ray::new(Point(Vec3::new(0, 0, 0)), Vec3::new(0, 0, -ONE), 0);
    let (tmin, tmax) = window();
    let rec = s.hit(&ray, &tmin, &tmax).expect("the ray points at the sphere");
    assert!(rec.t.eq_rat(&Rat::new(1, 2)));
    assert!(rec.front_face);
    assert_eq!(rec.normal.0, Vec3::new(0, 0, ONE));
    assert_eq!(rec.p.0, Vec3::new(0, 0, -ONE / 2));
}

#[test]
fn sphere_inside_hit_flips_the_normal() {
    // From the center of a sphere the hit is a back face.
    let s = sphere_at(0, ONE);
    let ray = Ray::new(Point(Vec3::new(0, 0, 0)), Vec3::new(0, 0, -ONE), 0);
    let (tmin, tmax) = window();
    let rec = s.hit(&ray, &tmin, &tmax).expect("the ray leaves through the shell");
    assert!(rec.t.eq_rat(&Rat::new(1, 1)));
    assert!(!rec.front_face);
    assert_eq!(rec.normal.0, Vec3::new(0, 0, ONE));
}

#[test]
fn sphere_miss_returns_nothing() {
    let s = sphere_at(-4 * ONE, ONE / 2);
    let ray = Ray::new(Point(Vec3::new(0, 0, 0)), Vec3::new(0, ONE, 0), 0);
    let (tmin, tmax) = window();
    assert!(s.hit(&ray, &tmin, &tmax).is_none());
}

#[test]
fn list_returns_the_nearest_hit() {
    let mut world = HittableList::new();
    world.add(sphere_at(-3 * ONE, ONE / 2));
    world.add(sphere_at(-ONE, ONE / 4));
    let ray = Ray::new(Point(Vec3::new(0, 0, 0)), Vec3::new(0, 0, -ONE), 0);
    let (tmin, tmax) = window();
    let rec = world.hit(&ray, &tmin, &tmax).expect("both spheres are on the axis");
    assert!(rec.t.eq_rat(&Rat::new(3, 4)));
}

#[test]
fn moving_sphere_center_interpolates() {
    let mc = MovingComponent {
        center_0: Point(Vec3::new(0, 0, 0)),
        center_1: Point(Vec3::new(2 * ONE, 0, 0)),
        time_0: 0,
        time_1: 2 * ONE,
    };
    assert_eq!(mc.center_at(0).0, Vec3::new(0, 0, 0));
    assert_eq!(mc.center_at(ONE).0, Vec3::new(ONE, 0, 0));
    assert_eq!(mc.center_at(2 * ONE).0, Vec3::new(2 * ONE, 0, 0));
}

#[test]
fn box_union_laws_on_values() {
    let a = AaBoundingBox::new(Point(Vec3::new(0, 0, 0)), Point(Vec3::new(ONE, ONE, ONE)));
    let b = AaBoundingBox::new(Point(Vec3::new(-ONE, 0, 0)), Point(Vec3::new(0, 2 * ONE, ONE)));
    let c = AaBoundingBox::new(Point(Vec3::new(0, -ONE, 0)), Point(Vec3::new(ONE, 0, 3 * ONE)));
    assert_eq!(a.surrounding_box(&b), b.surrounding_box(&a));
    assert_eq!(a.surrounding_box(&b).surrounding_box(&c), a.surrounding_box(
        &b.surrounding_box(&c)));
    assert_eq!(a.surrounding_box(&a), a);
    let u = a.surrounding_box(&b);
    assert_eq!(u.minimum.0, Vec3::new(-ONE, 0, 0));
    assert_eq!(u.maximum.0, Vec3::new(ONE, 2 * ONE, ONE));
}

#[test]
fn slab_test_accepts_and_rejects() {
    let b = AaBoundingBox::new(Point(Vec3::new(-ONE, -ONE, -2 * ONE)), Point(
        Vec3::new(ONE, ONE, -ONE)));
    let (tmin, tmax) = window();
    let toward = Ray::new(Point(Vec3::new(0, 0, 0)), Vec3::new(0, 0, -ONE), 0);
    assert!(b.hit(&toward, &tmin, &tmax));
    let away = Ray::new(Point(Vec3::new(0, 0, 0)), Vec3::new(0, 0, ONE), 0);
    assert!(!b.hit(&away, &tmin, &tmax));
    let sideways = Ray::new(Point(Vec3::new(2 * ONE, 0, 0)), Vec3::new(0, 0, -ONE), 0);
    assert!(!b.hit(&sideways, &tmin, &tmax));
    // Zero direction component: inside the slab exactly when the origin is.
    let flat = Ray::new(Point(Vec3::new(0, 0, -3 * ONE / 2)), Vec3::new(ONE, 0, 0), 0);
    assert!(b.hit(&flat, &tmin, &tmax));
}

#[test]
fn bounding_boxes_of_primitives() {
    let s = sphere_at(-ONE, ONE / 2);
    let bb = s.bounding_box(0, ONE).unwrap();
    assert_eq!(bb.minimum.0, Vec3::new(-ONE / 2, -ONE / 2, -3 * ONE / 2));
    assert_eq!(bb.maximum.0, Vec3::new(ONE / 2, ONE / 2, -ONE / 2));
    let empty = Object::HittableList { hittables: Vec::new() };
    assert!(empty.bounding_box(0, ONE).is_none());
}
