//! Scattering behaviour of the three surfaces.

use pathtracer::color::Color;
use pathtracer::geom::{Point, Vec3};
use pathtracer::material::Material;
use pathtracer::num::ONE;
use pathtracer::random::Random;
use pathtracer::rat::Rat;
use pathtracer::ray::{HitRecord, Ray};
use pathtracer::BuildError;

fn sample_record(material: Material) -> HitRecord {
    HitRecord {
        p: Point(Vec3::new(0, 0, -ONE)),
        normal: Point(Vec3::new(0, 0, ONE)),
        material,
        t: Rat::new(1, 2),
        front_face: true,
    }
}

fn incoming() -> Ray {
    Ray::new(Point(Vec3::new(0, 0, 0)), Vec3::new(0, 0, -ONE), 0)
}

#[test]
fn lambertian_always_scatters() {
    let albedo = Color::new_rgb(ONE / 2, ONE / 2, ONE / 2);
    let material = Material::new_lambertian(albedo).unwrap();
    let rec = sample_record(material);
    let ray = incoming();
    let mut rng = Random::with_seed(7);
    for _ in 0..20 {
        let res = material.scatter(&ray, &rec, &mut rng);
        let (att, out) = res.expect("a diffuse surface always scatters");
        assert_eq!(att, albedo);
        assert_eq!(out.origin, rec.p);
    }
}

#[test]
fn metal_absorbs_rays_scattered_into_the_surface() {
    let albedo = Color::new_rgb(ONE / 2, ONE / 2, ONE / 2);
    let material = Material::new_metal(albedo, 0).unwrap();
    // An incoming ray along the outward normal reflects to the inside:
    // its dot product with the normal is negative, so it is absorbed.
    let rec = sample_record(material);
    let ray = Ray::new(Point(Vec3::new(0, 0, 0)), Vec3::new(0, 0, ONE), 0);
    let mut rng = Random::with_seed(7);
    let res = material.scatter(&ray, &rec, &mut rng);
    assert!(res.is_none());
    // A mirror reflection away from the surface is kept.
    let ray2 = incoming();
    let res2 = material.scatter(&ray2, &rec, &mut rng);
    let (_, out) = res2.expect("an outward reflection scatters");
    assert!(out.direction.dot(&rec.normal.0) > 0);
    assert_eq!(out.direction, Vec3::new(0, 0, ONE));
}

#[test]
fn dielectric_always_scatters() {
    let material = Material::new_dielectric(3 * ONE / 2).unwrap();
    let rec = sample_record(material);
    let ray = incoming();
    let mut rng = Random::with_seed(11);
    for _ in 0..20 {
        let res = material.scatter(&ray, &rec, &mut rng);
        let (att, _) = res.expect("a refractive surface always scatters");
        assert_eq!(att, Color::new_rgb(ONE, ONE, ONE));
    }
}

#[test]
fn vacuum_dielectric_passes_rays_straight_through() {
    // Refractive index one, normal incidence: the outgoing direction is
    // exactly the incoming unit direction.
    let material = Material::new_dielectric(ONE).unwrap();
    let rec = sample_record(material);
    let ray = incoming();
    let mut rng = Random::with_seed(3);
    let (_, out) = material.scatter(&ray, &rec, &mut rng).unwrap();
    assert_eq!(out.direction, Vec3::new(0, 0, -ONE));
}

#[test]
fn reflectance_grows_toward_grazing() {
    let eta = 3 * ONE / 2;
    let steep = Material::reflectance(eta, ONE);
    let mid = Material::reflectance(eta, ONE / 2);
    let grazing = Material::reflectance(eta, 0);
    assert!(steep <= mid);
    assert!(mid <= grazing);
    assert!(steep >= 0);
}

#[test]
fn constructors_reject_out_of_range_parameters() {
    assert_eq!(Material::new_metal(Color::new_rgb(0, 0, 0), -1).unwrap_err(),
        BuildError::InvalidParameter);
    assert_eq!(Material::new_metal(Color::new_rgb(0, 0, 0), ONE + 1).unwrap_err(),
        BuildError::InvalidParameter);
    assert_eq!(Material::new_dielectric(0).unwrap_err(), BuildError::InvalidParameter);
    assert_eq!(Material::new_dielectric(-ONE).unwrap_err(), BuildError::InvalidParameter);
    assert_eq!(Material::new_lambertian(Color::new_rgb(-1, 0, 0)).unwrap_err(),
        BuildError::InvalidParameter);
    assert!(Material::new_metal(Color::new_rgb(ONE, ONE, ONE), ONE).is_ok());
}
