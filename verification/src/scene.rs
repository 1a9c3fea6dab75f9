//! The showcase scene: a large ground sphere, a grid of small random
//! spheres, and three feature spheres, with the matching camera.

use vstd::prelude::*;

use crate::camera::{cross_vec, Camera};
use crate::color::Color;
use crate::geom::{in_bound, Point, Vec3};
use crate::material::Material;
use crate::num::{div_floor, lemma_div_bounds, lemma_div_range, lemma_mul_bound, sqrt_spec,
    wide_mul, ONE};
use crate::object::{time_in_range_list, wf_list, HittableList, Object, SPHERE_BOUND};
use crate::random::Random;

verus! {

/// `tan(10 degrees)` in fixed point: the half height of a 20-degree
/// vertical field of view.
pub const HALF_HEIGHT_20_DEG: i64 = 11556;

/// The showcase camera: from (13, 2, 3) toward the origin, 20-degree
/// vertical field of view, 3:2 aspect, slight aperture, focus at 10.
///
/// The postconditions restate the camera constructor's at the showcase
/// parameters, so every stored field is pinned.
pub fn init_camera() -> (c: Camera)
    ensures
        c.wf(),
        c.origin == Point(Vec3 { x: 851968, y: 131072, z: 196608 }),
        c.lens_radius == 327,
        crate::geom::v3(c.w.0) == crate::geom::spec_unit_norm(
            Vec3 { x: 851968, y: 131072, z: 196608 },
        ),
        crate::geom::v3(c.u.0) == crate::geom::spec_unit_norm(
            cross_vec(Vec3 { x: 0, y: 65536, z: 0 }, c.w.0),
        ),
        c.v.0 == cross_vec(c.w.0, c.u.0),
        ({
            let vh = 2 * HALF_HEIGHT_20_DEG;
            let vw = (98304 * vh) / (ONE as int);
            let hl = (vw * 655360) / (ONE as int);
            let vl = (vh * 655360) / (ONE as int);
            c.horizontal.0.x == (c.u.0.x * hl) / (ONE as int) && c.horizontal.0.y == (c.u.0.y
                * hl) / (ONE as int) && c.horizontal.0.z == (c.u.0.z * hl) / (ONE as int)
                && c.vertical.0.x == (c.v.0.x * vl) / (ONE as int) && c.vertical.0.y == (
            c.v.0.y * vl) / (ONE as int) && c.vertical.0.z == (c.v.0.z * vl) / (ONE as int)
        }),
        c.lower_left_corner.0.x == 851968 - (c.horizontal.0.x * ONE) / (2 * ONE as int) - (
        c.vertical.0.x * ONE) / (2 * ONE as int) - (c.w.0.x * 655360) / (ONE as int),
        c.lower_left_corner.0.y == 131072 - (c.horizontal.0.y * ONE) / (2 * ONE as int) - (
        c.vertical.0.y * ONE) / (2 * ONE as int) - (c.w.0.y * 655360) / (ONE as int),
        c.lower_left_corner.0.z == 196608 - (c.horizontal.0.z * ONE) / (2 * ONE as int) - (
        c.vertical.0.z * ONE) / (2 * ONE as int) - (c.w.0.z * 655360) / (ONE as int),
{
    let look_from = Point(Vec3 { x: 13 * ONE, y: 2 * ONE, z: 3 * ONE });
    let look_at = Point(Vec3 { x: 0, y: 0, z: 0 });
    let view_up = Point(Vec3 { x: 0, y: ONE, z: 0 });
    let focus_dist: i64 = 10 * ONE;
    let aperture: i64 = 655;
    Camera::new(look_from, look_at, view_up, HALF_HEIGHT_20_DEG, 98304, aperture, focus_dist)
}

/// The large diffuse ground sphere of the showcase scene.
pub open spec fn ground_sphere() -> Object {
    Object::Sphere {
        center: Point(Vec3 { x: 0, y: -65536000i64, z: 0 }),
        radius: 65536000,
        material: Material::Lambertian {
            albedo: Color { rgb: Vec3 { x: 32768, y: 32768, z: 32768 } },
        },
        moving_component: None,
    }
}

/// The unit glass sphere at (0, 1, 0).
pub open spec fn glass_sphere() -> Object {
    Object::Sphere {
        center: Point(Vec3 { x: 0, y: 65536, z: 0 }),
        radius: 65536,
        material: Material::Dielectric {
            refractive_index: 98304,
            attenuation: Color { rgb: Vec3 { x: 65536, y: 65536, z: 65536 } },
        },
        moving_component: None,
    }
}

/// The unit brown diffuse sphere at (-4, 1, 0).
pub open spec fn brown_sphere() -> Object {
    Object::Sphere {
        center: Point(Vec3 { x: -262144i64, y: 65536, z: 0 }),
        radius: 65536,
        material: Material::Lambertian {
            albedo: Color { rgb: Vec3 { x: 26214, y: 13107, z: 6554 } },
        },
        moving_component: None,
    }
}

/// The unit polished-metal sphere at (4, 1, 0).
pub open spec fn steel_sphere() -> Object {
    Object::Sphere {
        center: Point(Vec3 { x: 262144, y: 65536, z: 0 }),
        radius: 65536,
        material: Material::Metal {
            albedo: Color { rgb: Vec3 { x: 45875, y: 39322, z: 32768 } },
            fuzz: 0,
        },
        moving_component: None,
    }
}

/// The shape of one grid sphere: radius 0.2 at height 0.2 somewhere on
/// the 22-by-22 grid, clear of the metal feature sphere's column, with a
/// surface drawn from the three material families.
pub open spec fn grid_sphere(o: Object) -> bool {
    match o {
        Object::Sphere { center, radius, material, moving_component } => radius == 13107
            && moving_component is None && center.0.y == 13107 && -11 * (ONE as int)
            <= center.0.x < 11 * (ONE as int) && -11 * (ONE as int) <= center.0.z < 11 * (
        ONE as int) && sqrt_spec((center.0.x - 262144) * (center.0.x - 262144) + (
        center.0.z as int) * (center.0.z as int)) > 58982 && material.wf() && match material {
            Material::Lambertian { .. } => true,
            Material::Metal { albedo, .. } => albedo.rgb.x >= 32768 && albedo.rgb.y >= 32768
                && albedo.rgb.z >= 32768,
            Material::Dielectric { refractive_index, attenuation } => refractive_index
                == 98304 && attenuation == (Color {
                rgb: Vec3 { x: 65536, y: 65536, z: 65536 },
            }),
        },
        _ => false,
    }
}

/// The object is a sphere without motion: it accepts any ray time.
pub open spec fn is_static_sphere(o: Object) -> bool {
    match o {
        Object::Sphere { moving_component, .. } => moving_component is None,
        _ => false,
    }
}

/// Static spheres accept any time.
proof fn lemma_static_times(objs: Vec<Object>, i: int, t: i64)
    requires
        0 <= i <= objs.len(),
        forall|j: int| 0 <= j < objs@.len() ==> is_static_sphere(#[trigger] objs@[j]),
    ensures
        time_in_range_list(objs, i, t),
    decreases objs.len() - i,
{
    if i < objs.len() {
        assert(objs[i] == objs@[i]);
        assert(is_static_sphere(objs[i]));
        assert(objs[i].time_in_range(t));
        lemma_static_times(objs, i + 1, t);
    }
}

/// Rebuild well-formedness of the tail from elementwise facts.
proof fn lemma_wf_from_forall(objs: Vec<Object>, i: int)
    requires
        0 <= i <= objs.len(),
        forall|j: int| 0 <= j < objs@.len() ==> (#[trigger] objs@[j]).wf(),
    ensures
        wf_list(objs, i),
    decreases objs.len() - i,
{
    if i < objs.len() {
        lemma_wf_from_forall(objs, i + 1);
    }
}

/// One fixed-point product of unit-interval channels stays in range.
proof fn lemma_unit_product(a: int, b: int)
    requires
        0 <= a <= ONE,
        0 <= b <= ONE,
    ensures
        0 <= (a * b) / (ONE as int) <= ONE,
{
    assert(0 <= a * b <= (ONE as int) * (ONE as int)) by (nonlinear_arith)
        requires
            0 <= a <= ONE,
            0 <= b <= ONE,
    ;
    lemma_div_bounds(a * b, ONE as int);
    lemma_div_range(a * b, ONE as int, ONE as int);
}

/// Push a well-formed static sphere, keeping the elementwise facts.
fn push_sphere(world: &mut HittableList, center: Point, radius: i64, material: Material)
    requires
        in_bound(center.0, SPHERE_BOUND as int),
        radius != 0,
        -SPHERE_BOUND <= radius <= SPHERE_BOUND,
        material.wf(),
        forall|j: int|
            0 <= j < old(world).hittables@.len() ==> (#[trigger] old(world).hittables@[
            j]).wf() && is_static_sphere(old(world).hittables@[j]),
    ensures
        final(world).hittables@.len() == old(world).hittables@.len() + 1,
        final(world).hittables@ == old(world).hittables@.push(
            Object::Sphere { center, radius, material, moving_component: None },
        ),
        forall|j: int|
            0 <= j < final(world).hittables@.len() ==> (#[trigger] final(world).hittables@[
            j]).wf() && is_static_sphere(final(world).hittables@[j]),
{
    let sphere = Object::Sphere { center, radius, material, moving_component: None };
    world.add(sphere);
}

/// The showcase scene of the renderer: a ground sphere, a 22 by 22 grid
/// of randomly placed and randomly shaded small spheres, and three large
/// feature spheres (glass, diffuse, metal).
pub fn random_world(r: &mut Random) -> (world: HittableList)
    ensures
        world.wf(),
        forall|t: i64| time_in_range_list(world.hittables, 0, t),
        world.hittables@.len() >= 4,
        world.hittables@[0] == ground_sphere(),
        world.hittables@[world.hittables@.len() - 3] == glass_sphere(),
        world.hittables@[world.hittables@.len() - 2] == brown_sphere(),
        world.hittables@[world.hittables@.len() - 1] == steel_sphere(),
        forall|j: int|
            1 <= j < world.hittables@.len() - 3 ==> grid_sphere(
                #[trigger] world.hittables@[j],
            ),
{
    let mut world = HittableList::new();
    let ground = Material::new_lambertian(Color::new_rgb(32768, 32768, 32768));
    let ground_mat = match ground {
        Result::Ok(m) => m,
        Result::Err(_) => {
            proof {
                assert(false);
            }
            Material::Lambertian { albedo: Color { rgb: Vec3 { x: 0, y: 0, z: 0 } } }
        },
    };
    push_sphere(&mut world, Point(Vec3 { x: 0, y: -65536000, z: 0 }), 65536000, ground_mat);
    proof {
        assert(world.hittables@[0] == ground_sphere());
    }
    let mut ai: i64 = -11;
    while ai < 11
        invariant
            -11 <= ai <= 11,
            world.hittables@.len() >= 1,
            world.hittables@[0] == ground_sphere(),
            forall|j: int|
                1 <= j < world.hittables@.len() ==> grid_sphere(
                    #[trigger] world.hittables@[j],
                ),
            forall|j: int|
                0 <= j < world.hittables@.len() ==> (#[trigger] world.hittables@[j]).wf()
                    && is_static_sphere(world.hittables@[j]),
        decreases 11 - ai,
    {
        let mut bi: i64 = -11;
        while bi < 11
            invariant
                -11 <= ai < 11,
                -11 <= bi <= 11,
                world.hittables@.len() >= 1,
                world.hittables@[0] == ground_sphere(),
                forall|j: int|
                    1 <= j < world.hittables@.len() ==> grid_sphere(
                        #[trigger] world.hittables@[j],
                    ),
                forall|j: int|
                    0 <= j < world.hittables@.len() ==> (#[trigger] world.hittables@[j]).wf()
                        && is_static_sphere(world.hittables@[j]),
            decreases 11 - bi,
        {
            let choose_mat = r.random_double();
            let jx = r.random_double();
            let jz = r.random_double();
            proof {
                lemma_unit_product(58982, jx as int);
                lemma_unit_product(58982, jz as int);
                assert(58982 * (jx as int) <= 58982 * 65536 && 0 <= 58982 * (jx as int))
                    by (nonlinear_arith)
                    requires
                        0 <= jx < 65536,
                ;
                assert(58982 * (jz as int) <= 58982 * 65536 && 0 <= 58982 * (jz as int))
                    by (nonlinear_arith)
                    requires
                        0 <= jz < 65536,
                ;
                lemma_div_range(58982 * (jx as int), 58982, 65536);
                lemma_div_range(58982 * (jz as int), 58982, 65536);
            }
            let center = Point(
                Vec3 {
                    x: ai * ONE + div_floor(wide_mul(58982, jx) as i64, ONE),
                    y: 13107,
                    z: bi * ONE + div_floor(wide_mul(58982, jz) as i64, ONE),
                },
            );
            let away = center.0.sub(&Vec3 { x: 4 * ONE, y: 13107, z: 0 });
            proof {
                let ax = away.x as int;
                let ay = away.y as int;
                let az = away.z as int;
                assert(crate::geom::norm2(away) == ax * ax + ay * ay + az * az);
                assert(ax * ax + ay * ay + az * az == (center.0.x - 262144) * (center.0.x
                    - 262144) + (center.0.z as int) * (center.0.z as int))
                    by (nonlinear_arith)
                    requires
                        ax == center.0.x - 262144,
                        ay == 0,
                        az == center.0.z as int,
                ;
            }
            if away.length() > 58982 {
                let material: Material;
                if choose_mat < 52429 {
                    let c1 = Vec3::random(r);
                    let c2 = Vec3::random(r);
                    proof {
                        lemma_unit_product(c1.x as int, c2.x as int);
                        lemma_unit_product(c1.y as int, c2.y as int);
                        lemma_unit_product(c1.z as int, c2.z as int);
                    }
                    let albedo = c1.index_wise_mul(&c2);
                    let m = Material::new_lambertian(Color::new(albedo));
                    material = match m {
                        Result::Ok(mm) => mm,
                        Result::Err(_) => {
                            proof {
                                assert(false);
                            }
                            ground_mat
                        },
                    };
                } else if choose_mat < 62259 {
                    let albedo = Vec3::random_in(r, 32768, ONE);
                    let fuzz = r.random_double();
                    let m = Material::new_metal(Color::new(albedo), fuzz);
                    material = match m {
                        Result::Ok(mm) => mm,
                        Result::Err(_) => {
                            proof {
                                assert(false);
                            }
                            ground_mat
                        },
                    };
                } else {
                    let m = Material::new_dielectric(98304);
                    material = match m {
                        Result::Ok(mm) => mm,
                        Result::Err(_) => {
                            proof {
                                assert(false);
                            }
                            ground_mat
                        },
                    };
                }
                proof {
                    assert(grid_sphere(
                        Object::Sphere { center, radius: 13107, material, moving_component: None },
                    ));
                }
                push_sphere(&mut world, center, 13107, material);
            }
            bi = bi + 1;
        }
        ai = ai + 1;
    }
    let glass = match Material::new_dielectric(98304) {
        Result::Ok(m) => m,
        Result::Err(_) => {
            proof {
                assert(false);
            }
            ground_mat
        },
    };
    push_sphere(&mut world, Point(Vec3 { x: 0, y: ONE, z: 0 }), ONE, glass);
    let brown = match Material::new_lambertian(Color::new_rgb(26214, 13107, 6554)) {
        Result::Ok(m) => m,
        Result::Err(_) => {
            proof {
                assert(false);
            }
            ground_mat
        },
    };
    push_sphere(&mut world, Point(Vec3 { x: -4 * ONE, y: ONE, z: 0 }), ONE, brown);
    let steel = match Material::new_metal(Color::new_rgb(45875, 39322, 32768), 0) {
        Result::Ok(m) => m,
        Result::Err(_) => {
            proof {
                assert(false);
            }
            ground_mat
        },
    };
    push_sphere(&mut world, Point(Vec3 { x: 4 * ONE, y: ONE, z: 0 }), ONE, steel);
    proof {
        lemma_wf_from_forall(world.hittables, 0);
        assert forall|t: i64| time_in_range_list(world.hittables, 0, t) by {
            lemma_static_times(world.hittables, 0, t);
        }
    }
    world
}

} // verus!
