//! End-to-end behaviour of the path evaluator, camera and pixel encoding.

use pathtracer::camera::Camera;
use pathtracer::color::Color;
use pathtracer::geom::{Point, Vec3};
use pathtracer::material::Material;
use pathtracer::num::ONE;
use pathtracer::object::{HittableList, Object};
use pathtracer::random::Random;
use pathtracer::ray::Ray;
use pathtracer::scene;

fn single_sphere_world() -> HittableList {
    let albedo = Color::new_rgb(ONE / 2, ONE / 2, ONE / 2);
    let material = Material::new_lambertian(albedo).unwrap();
    let mut world = HittableList::new();
    world.add(Object::Sphere {
        center: Point(Vec3::new(0, 0, -ONE)),
        radius: ONE / 2,
        material,
        moving_component: None,
    });
    world
}

fn ninety_degree_camera() -> Camera {
    // tan(45 degrees) == 1: a 90-degree vertical field of view.
    Camera::new(Point(Vec3::new(0, 0, 0)), Point(Vec3::new(0, 0, -ONE)), Point(
        Vec3::new(0, ONE, 0)), ONE, ONE, 0, ONE)
}

#[test]
fn center_pixel_is_shaded_darker_than_the_sky() {
    let world = single_sphere_world();
    let cam = ninety_degree_camera();
    let mut rng = Random::with_seed(5);
    // One sample through the image center; enough bounce budget for the
    // scattered ray to reach the sky once.
    let center_ray = cam.ray(ONE / 2, ONE / 2, &mut rng);
    let center = center_ray.color(&world, 2, &mut rng);
    let top_ray = cam.ray(ONE / 2, ONE, &mut rng);
    let top = top_ray.color(&world, 2, &mut rng);
    assert!(center.rgb.x > 0 || center.rgb.y > 0 || center.rgb.z > 0);
    assert!(center.rgb.x < top.rgb.x);
    assert!(center.rgb.y < top.rgb.y);
    assert!(center.rgb.z < top.rgb.z);
}

#[test]
fn depth_zero_is_black_and_misses_are_sky() {
    let world = single_sphere_world();
    let down_the_axis = Ray::new(Point(Vec3::new(0, 0, 0)), Vec3::new(0, 0, -ONE), 0);
    let mut rng = Random::with_seed(5);
    let black = down_the_axis.color(&world, 0, &mut rng);
    assert_eq!(black, Color::zero());
    let up = Ray::new(Point(Vec3::new(0, 0, 0)), Vec3::new(0, ONE, 0), 0);
    let sky = up.color(&world, 4, &mut rng);
    // Straight up: the gradient is the full sky blue.
    assert_eq!(sky.rgb, Vec3::new(32768, 45875, ONE));
}

#[test]
fn vacuum_glass_sphere_passes_the_axis_ray() {
    // A dielectric with index one in front of a diffuse sphere changes
    // nothing about where the ray ends up on the axis.
    let albedo = Color::new_rgb(ONE / 2, ONE / 2, ONE / 2);
    let diffuse = Material::new_lambertian(albedo).unwrap();
    let vacuum_glass = Material::new_dielectric(ONE).unwrap();
    let mut with_glass = HittableList::new();
    with_glass.add(Object::Sphere {
        center: Point(Vec3::new(0, 0, -ONE)),
        radius: ONE / 4,
        material: vacuum_glass,
        moving_component: None,
    });
    with_glass.add(Object::Sphere {
        center: Point(Vec3::new(0, 0, -3 * ONE)),
        radius: ONE / 2,
        material: diffuse,
        moving_component: None,
    });
    let ray = Ray::new(Point(Vec3::new(0, 0, 0)), Vec3::new(0, 0, -ONE), 0);
    let tmin = pathtracer::rat::Rat::new(1, 1000);
    let tmax = pathtracer::rat::Rat::new(1 << 40, 1);
    let mut rng = Random::with_seed(9);
    // The first hit enters the vacuum shell; its scatter keeps the
    // direction exactly.
    let rec = with_glass.hit(&ray, &tmin, &tmax).unwrap();
    assert_eq!(rec.material, vacuum_glass);
    let (_, out) = rec.material.scatter(&ray, &rec, &mut rng).unwrap();
    assert_eq!(out.direction, Vec3::new(0, 0, -ONE));
    // The next hit leaves the shell through its back face, again without
    // bending the ray.
    let rec2 = with_glass.hit(&out, &tmin, &tmax).unwrap();
    assert_eq!(rec2.material, vacuum_glass);
    assert!(!rec2.front_face);
    let (_, out2) = rec2.material.scatter(&out, &rec2, &mut rng).unwrap();
    assert_eq!(out2.direction, Vec3::new(0, 0, -ONE));
    // The undeviated ray finally reaches the diffuse sphere behind.
    let rec3 = with_glass.hit(&out2, &tmin, &tmax).unwrap();
    assert_eq!(rec3.material, diffuse);
}

#[test]
fn renders_with_equal_seeds_are_byte_identical() {
    let world = single_sphere_world();
    let cam = ninety_degree_camera();
    let render = |seed: u64| -> Vec<[u8; 3]> {
        let mut rng = Random::with_seed(seed);
        let mut pixels = Vec::new();
        for j in 0..4i64 {
            for i in 0..4i64 {
                let mut acc = Color::zero();
                for _ in 0..3 {
                    let u = (i * ONE / 3).clamp(0, ONE);
                    let v = (j * ONE / 3).clamp(0, ONE);
                    let ray = cam.ray(u, v, &mut rng);
                    let c = ray.color(&world, 6, &mut rng);
                    acc = acc.add(c);
                }
                pixels.push(acc.write(3));
            }
        }
        pixels
    };
    let first = render(123456789);
    let second = render(123456789);
    assert_eq!(first, second);
}

#[test]
fn showcase_scene_builds_and_renders_a_pixel() {
    let mut rng = Random::with_seed(42);
    let world = scene::random_world(&mut rng);
    assert!(world.hittables.len() >= 4);
    let cam = scene::init_camera();
    let ray = cam.ray(ONE / 2, ONE / 2, &mut rng);
    let c = ray.color(&world, 4, &mut rng);
    assert!(0 <= c.rgb.x && c.rgb.x <= ONE);
    assert!(0 <= c.rgb.y && c.rgb.y <= ONE);
    assert!(0 <= c.rgb.z && c.rgb.z <= ONE);
}
