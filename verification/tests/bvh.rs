//! The hierarchy agrees with the plain list on every tried query.

use pathtracer::color::Color;
use pathtracer::geom::{Point, Vec3};
use pathtracer::material::Material;
use pathtracer::num::ONE;
use pathtracer::object::Object;
use pathtracer::rat::Rat;
use pathtracer::ray::Ray;
use pathtracer::BuildError;

fn gray() -> Material {
    Material::new_lambertian(Color::new_rgb(ONE / 2, ONE / 2, ONE / 2)).unwrap()
}

fn sphere(x: i64, y: i64, z: i64, radius: i64) -> Object {
    Object::Sphere {
        center: Point(Vec3::new(x, y, z)),
        radius,
        material: gray(),
        moving_component: None,
    }
}

fn scene_objects() -> Vec<Object> {
    vec![
        sphere(0, 0, -2 * ONE, ONE / 2),
        sphere(ONE, 0, -3 * ONE, ONE / 2),
        sphere(-ONE, 0, -4 * ONE, ONE),
        sphere(0, ONE, -5 * ONE, ONE / 2),
        sphere(0, -ONE, -6 * ONE, ONE),
        sphere(2 * ONE, 0, -2 * ONE, ONE / 4),
        sphere(-2 * ONE, ONE, -3 * ONE, ONE / 4),
    ]
}

#[test]
fn bvh_matches_list_on_many_rays() {
    let bvh = Object::new_bvh_node(scene_objects(), 0, ONE).unwrap();
    let list = Object::HittableList { hittables: scene_objects() };
    let tmin = Rat::new(1, 1000);
    let tmax = Rat::new(1 << 40, 1);
    let mut checked = 0;
    for ix in -4i64..5 {
        for iy in -4i64..5 {
            let origin = Point(Vec3::new(0, 0, ONE));
            let dir = Vec3::new(ix * ONE / 4, iy * ONE / 4, -ONE);
            let ray = Ray::new(origin, dir, 0);
            let from_bvh = bvh.hit(&ray, &tmin, &tmax);
            let from_list = list.hit(&ray, &tmin, &tmax);
            match (from_bvh, from_list) {
                (None, None) => {},
                (Some(a), Some(b)) => {
                    assert!(a.t.eq_rat(&b.t));
                    checked += 1;
                },
                _ => panic!("one traversal hit and the other missed"),
            }
        }
    }
    assert!(checked > 0);
}

#[test]
fn bvh_of_one_object_behaves_like_it() {
    let bvh = Object::new_bvh_node(vec![sphere(0, 0, -2 * ONE, ONE / 2)], 0, ONE).unwrap();
    let tmin = Rat::new(1, 1000);
    let tmax = Rat::new(1 << 40, 1);
    let ray = Ray::new(Point(Vec3::new(0, 0, 0)), Vec3::new(0, 0, -ONE), 0);
    let rec = bvh.hit(&ray, &tmin, &tmax).unwrap();
    assert!(rec.t.eq_rat(&Rat::new(3, 2)));
}

#[test]
fn empty_scene_is_rejected() {
    let res = Object::new_bvh_node(Vec::new(), 0, ONE);
    assert_eq!(res.unwrap_err(), BuildError::EmptyScene);
}

#[test]
fn bvh_of_two_objects_orders_children() {
    let bvh = Object::new_bvh_node(
        vec![sphere(0, 0, -2 * ONE, ONE / 2), sphere(0, 0, -4 * ONE, ONE / 2)],
        0,
        ONE,
    ).unwrap();
    let tmin = Rat::new(1, 1000);
    let tmax = Rat::new(1 << 40, 1);
    let ray = Ray::new(Point(Vec3::new(0, 0, 0)), Vec3::new(0, 0, -ONE), 0);
    let rec = bvh.hit(&ray, &tmin, &tmax).unwrap();
    assert!(rec.t.eq_rat(&Rat::new(3, 2)));
}

#[test]
fn list_duplicate_of_primitive_is_equal() {
    let s = sphere(0, 0, -2 * ONE, ONE / 2);
    let d = s.duplicate();
    let tmin = Rat::new(1, 1000);
    let tmax = Rat::new(1 << 40, 1);
    let ray = Ray::new(Point(Vec3::new(0, 0, 0)), Vec3::new(0, 0, -ONE), 0);
    let a = s.hit(&ray, &tmin, &tmax).unwrap();
    let b = d.hit(&ray, &tmin, &tmax).unwrap();
    assert!(a.t.eq_rat(&b.t));
}

#[test]
fn nested_bvh_still_matches() {
    let inner = Object::new_bvh_node(scene_objects(), 0, ONE).unwrap();
    let outer = Object::new_bvh_node(vec![inner, sphere(0, 0, -8 * ONE, ONE)], 0, ONE)
        .unwrap();
    let mut all = scene_objects();
    all.push(sphere(0, 0, -8 * ONE, ONE));
    let list = Object::HittableList { hittables: all };
    let tmin = Rat::new(1, 1000);
    let tmax = Rat::new(1 << 40, 1);
    for iy in -3i64..4 {
        let ray = Ray::new(Point(Vec3::new(0, 0, ONE)), Vec3::new(0, iy * ONE / 8, -ONE), 0);
        let a = outer.hit(&ray, &tmin, &tmax);
        let b = list.hit(&ray, &tmin, &tmax);
        match (a, b) {
            (None, None) => {},
            (Some(x), Some(y)) => assert!(x.t.eq_rat(&y.t)),
            _ => panic!("one traversal hit and the other missed"),
        }
    }
}
