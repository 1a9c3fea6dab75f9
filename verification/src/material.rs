//! Surface materials: diffuse, reflective and refractive scattering.

use vstd::prelude::*;

use crate::color::Color;
use crate::geom::{addv, dot3, dotv, in_bound, lemma_dot_range, lemma_scaled_range, spec_reflect,
    spec_refract, spec_unit_norm, sphere_sample_trace, v3, Point, Vec3, V3, COORD_MAX,
    DOT_BOUND, GEOM_BOUND};
use crate::num::{div_floor, lemma_div_bounds, lemma_div_range, lemma_mul_bound, sqrt_spec,
    wide_mul, ONE, ONE_SQ};
use crate::random::{next_state, unit_sample, Random};
use crate::ray::{HitRecord, Ray};
use crate::BuildError;

verus! {

/// Fixed-point bound accepted for a refractive index: the refraction
/// arithmetic needs the index and its reciprocal to stay representable.
pub const INDEX_MIN: i64 = 4096;

pub const INDEX_MAX: i64 = 1048576;

/// A scattering policy, shared by every primitive with this surface.
#[derive(Clone, Copy, PartialEq, Eq, Structural, Debug)]
pub enum Material {
    Lambertian { albedo: Color },
    Metal { albedo: Color, fuzz: i64 },
    Dielectric { refractive_index: i64, attenuation: Color },
}

impl Material {
    /// Parameters are in range: colors in `[0, 1]`, fuzz in `[0, 1]`, and a
    /// representable positive refractive index.
    pub open spec fn wf(self) -> bool {
        match self {
            Material::Lambertian { albedo } => albedo.wf(),
            Material::Metal { albedo, fuzz } => albedo.wf() && 0 <= fuzz <= ONE,
            Material::Dielectric { refractive_index, attenuation } => INDEX_MIN
                <= refractive_index <= INDEX_MAX && attenuation.wf(),
        }
    }

    /// A refractive surface; white attenuation (no absorption).
    ///
    /// An index outside the representable positive range is rejected.
    pub fn new_dielectric(refractive_index: i64) -> (r: Result<Material, BuildError>)
        ensures
            r is Ok <==> INDEX_MIN <= refractive_index <= INDEX_MAX,
            r is Ok ==> r->Ok_0 == (Material::Dielectric {
                refractive_index,
                attenuation: Color { rgb: crate::geom::Vec3 { x: ONE, y: ONE, z: ONE } },
            }) && r->Ok_0.wf(),
            r is Err ==> r->Err_0 == BuildError::InvalidParameter,
    {
        if INDEX_MIN <= refractive_index && refractive_index <= INDEX_MAX {
            Ok(Material::Dielectric {
                refractive_index,
                attenuation: Color::new_rgb(ONE, ONE, ONE),
            })
        } else {
            Err(BuildError::InvalidParameter)
        }
    }

    /// An ideal diffuse surface; an albedo channel outside `[0, 1]` is
    /// rejected.
    pub fn new_lambertian(albedo: Color) -> (r: Result<Material, BuildError>)
        ensures
            r is Ok <==> albedo.wf(),
            r is Ok ==> r->Ok_0 == (Material::Lambertian { albedo }) && r->Ok_0.wf(),
            r is Err ==> r->Err_0 == BuildError::InvalidParameter,
    {
        if color_in_range(&albedo) {
            Ok(Material::Lambertian { albedo })
        } else {
            Err(BuildError::InvalidParameter)
        }
    }

    /// A reflective surface with perturbation `fuzz`; negative fuzz, fuzz
    /// above one, or an albedo channel outside `[0, 1]` is rejected.
    pub fn new_metal(albedo: Color, fuzz: i64) -> (r: Result<Material, BuildError>)
        ensures
            r is Ok <==> albedo.wf() && 0 <= fuzz <= ONE,
            r is Ok ==> r->Ok_0 == (Material::Metal { albedo, fuzz }) && r->Ok_0.wf(),
            r is Err ==> r->Err_0 == BuildError::InvalidParameter,
    {
        if color_in_range(&albedo) && 0 <= fuzz && fuzz <= ONE {
            Ok(Material::Metal { albedo, fuzz })
        } else {
            Err(BuildError::InvalidParameter)
        }
    }
}

/// The direction a diffuse surface scatters into: normal plus a random
/// unit vector, with the normal as a fallback when they cancel.
pub open spec fn lambertian_scatter_dir(normal: Vec3, p: Vec3) -> V3 {
    let d = addv(v3(normal), spec_unit_norm(p));
    if d.x == 0 && d.y == 0 && d.z == 0 {
        v3(normal)
    } else {
        d
    }
}

/// The ratio of refractive indices the dielectric uses for this hit.
pub open spec fn diel_ratio(refractive_index: i64, front_face: bool) -> int {
    if front_face {
        (ONE_SQ as int) / (refractive_index as int)
    } else {
        refractive_index as int
    }
}

/// The clamped incidence cosine (fixed point).
pub open spec fn diel_cos(u: Vec3, normal: Vec3) -> int {
    let c = (-dot3(u, normal)) / (ONE as int);
    if c > ONE {
        ONE as int
    } else {
        c
    }
}

/// The squared sine, clamped below at zero (scale `ONE * ONE`).
pub open spec fn diel_k(cos: int) -> int {
    if ONE_SQ - cos * cos < 0 {
        0
    } else {
        ONE_SQ - cos * cos
    }
}

/// The sine (fixed point, rounded down).
pub open spec fn diel_sin(cos: int) -> int {
    sqrt_spec(diel_k(cos))
}

/// Snell's criterion for total internal reflection, exactly:
/// `ratio * sin > 1` in fixed point.
pub open spec fn diel_cannot_refract(ratio: int, cos: int) -> bool {
    ratio * diel_sin(cos) > ONE_SQ
}

/// Schlick's approximation, with the fixed-point rounding of the code:
/// `r0 + (1 - r0) (1 - cos)^5` where `r0 = ((1 - x) / (1 + x))^2`.
pub open spec fn spec_reflectance(x: int, cosine: int) -> int {
    let q = ((ONE - x) * ONE) / (ONE + x);
    let r0 = (q * q) / (ONE as int);
    let b = ONE - cosine;
    let b2 = (b * b) / (ONE as int);
    let b3 = (b2 * b) / (ONE as int);
    let b4 = (b3 * b) / (ONE as int);
    let b5 = (b4 * b) / (ONE as int);
    r0 + ((ONE - r0) * b5) / (ONE as int)
}

impl Material {
    /// Schlick's reflectance approximation for a given index ratio and
    /// incidence cosine.
    pub fn reflectance(refractive_index: i64, cosine: i64) -> (res: i64)
        requires
            0 <= refractive_index <= 16 * ONE,
            -16 * ONE <= cosine <= ONE,
        ensures
            res == spec_reflectance(refractive_index as int, cosine as int),
            0 <= res,
    {
        let num = (ONE - refractive_index) * ONE;
        let den = ONE + refractive_index;
        proof {
            lemma_div_range(num as int, ONE as int, den as int);
            assert(-(ONE as int) * den <= num <= (ONE as int) * den) by (nonlinear_arith)
                requires
                    den == ONE + refractive_index,
                    num == (ONE - refractive_index) * ONE,
                    0 <= refractive_index,
            ;
        }
        let q = div_floor(num, den);
        proof {
            lemma_mul_bound(q as int, q as int, ONE as int, ONE as int);
            assert(q as int * q as int >= 0) by (nonlinear_arith);
            lemma_div_bounds(q as int * q as int, ONE as int);
            crate::num::lemma_div_range(q as int * q as int, ONE as int, ONE as int);
        }
        let r0 = div_floor(q * q, ONE);
        let b = ONE - cosine;
        proof {
            lemma_pow_step_bound(b as int, b as int, 1179648);
        }
        let b2 = div_floor(b * b, ONE);
        proof {
            lemma_pow_step_bound(b2 as int, b as int, 21233664);
        }
        let b3 = div_floor(b2 * b, ONE);
        proof {
            lemma_pow_step_bound(b3 as int, b as int, 382205952);
        }
        let b4 = div_floor(b3 * b, ONE);
        proof {
            lemma_pow_step_bound(b4 as int, b as int, 6879707136);
        }
        let b5 = div_floor(b4 * b, ONE);
        proof {
            lemma_mul_bound((ONE - r0) as int, b5 as int, 65536, 123834728448);
            lemma_div_bounds((ONE - r0) as int * b5 as int, ONE as int);
            assert(0 <= (ONE - r0) as int * b5 as int) by (nonlinear_arith)
                requires
                    0 <= ONE - r0,
                    0 <= b5,
            ;
        }
        let tail = div_floor(wide_mul(ONE - r0, b5) as i64, ONE);
        r0 + tail
    }
}

/// One fixed-point power step: the value stays nonnegative and grows by
/// at most the factor 18 (the base is below 18 in real units).
proof fn lemma_pow_step_bound(v: int, b: int, bv: int)
    requires
        0 <= v <= bv,
        0 <= b <= 1179648,
        bv <= 0x2000000000,
    ensures
        0 <= v * b <= bv * 1179648,
        0 <= (v * b) / (ONE as int) <= 18 * bv,
{
    assert(0 <= v * b <= bv * 1179648) by (nonlinear_arith)
        requires
            0 <= v <= bv,
            0 <= b <= 1179648,
    ;
    lemma_div_bounds(v * b, ONE as int);
    crate::num::lemma_div_range(v * b, 18 * bv, ONE as int);
}

/// The fuzz perturbation: a unit-ball sample scaled by `fuzz`.
pub open spec fn fuzz_scaled(sp: Vec3, fuzz: i64) -> V3 {
    V3 {
        x: (sp.x * fuzz) / (ONE as int),
        y: (sp.y * fuzz) / (ONE as int),
        z: (sp.z * fuzz) / (ONE as int),
    }
}

impl Material {
    /// Scatter an incoming ray at a hit: produce an attenuation and an
    /// outgoing ray, or absorb.
    ///
    /// A diffuse or refractive surface always scatters; a reflective one
    /// scatters exactly when the perturbed reflection leaves the surface
    /// (its dot product with the normal is positive).
    pub fn scatter(&self, ray_in: &Ray, hit_record: &HitRecord, r: &mut Random) -> (res: Option<
        (Color, Ray)>)
        requires
            self.wf(),
            ray_in.wf(),
            hit_record.wf(),
        ensures
            res is Some ==> (res->0).1.wf() && (res->0).1.origin == hit_record.p && (
            res->0).1.time == ray_in.time,
            self is Lambertian ==> res is Some,
            self is Dielectric ==> res is Some,
            scatter_post(*self, *ray_in, *hit_record, old(r).state, final(r).state, res),
    {
        match self {
            Material::Lambertian { albedo } => {
                let ghost s0 = r.state;
                let unit = Vec3::random_unit_vector(r);
                let dir0 = hit_record.normal.0.add(&unit);
                let scatter_direction = if dir0.is_near_zero() {
                    hit_record.normal.0
                } else {
                    dir0
                };
                let out = Ray::new(hit_record.p, scatter_direction, ray_in.time);
                proof {
                    let p = choose|p: Vec3|
                        (exists|k: nat| sphere_sample_trace(s0, k, v3(p), r.state)) && v3(unit)
                            == spec_unit_norm(p) && in_bound(p, ONE as int);
                    let k = choose|k: nat| sphere_sample_trace(s0, k, v3(p), r.state);
                    assert(sphere_sample_trace(s0, k, v3(p), r.state) && in_bound(p,
                        ONE as int) && v3(out.direction) == lambertian_scatter_dir(
                        hit_record.normal.0, p));
                }
                Some((*albedo, out))
            },
            Material::Metal { albedo, fuzz } => {
                let ghost s0 = r.state;
                let u = ray_in.direction.unit_norm();
                let w = u.reflect(&hit_record.normal.0);
                proof {
                    crate::geom::lemma_reflect_range(u, hit_record.normal.0, 131072);
                }
                let sp = Vec3::random_in_unit_sphere(r);
                let f = sp.scalar_mul(*fuzz);
                proof {
                    lemma_scaled_range(sp, *fuzz as int, 65536, 65536, 65536);
                }
                let dir = w.add(&f);
                let out = Ray::new(hit_record.p, dir, ray_in.time);
                let accept = out.direction.dot(&hit_record.normal.0) > 0;
                let ghost k = choose|k: nat| sphere_sample_trace(s0, k, v3(sp), r.state);
                proof {
                    assert(spec_unit_norm_of(u, *ray_in));
                    assert(v3(u) == spec_unit_norm(ray_in.direction) && in_bound(u,
                        ONE as int) && sphere_sample_trace(s0, k, v3(sp), r.state) && in_bound(
                    sp, ONE as int) && v3(dir) == addv(spec_reflect(u, hit_record.normal.0),
                        fuzz_scaled(sp, *fuzz)));
                }
                if accept {
                    Some((*albedo, out))
                } else {
                    None
                }
            },
            Material::Dielectric { refractive_index, attenuation } => {
                let ghost s0 = r.state;
                let refractive_ratio: i64 = if hit_record.front_face {
                    proof {
                        crate::num::lemma_div_range(ONE_SQ as int, 1048576,
                            *refractive_index as int);
                        lemma_div_bounds(ONE_SQ as int, *refractive_index as int);
                    }
                    div_floor(ONE_SQ, *refractive_index)
                } else {
                    *refractive_index
                };
                let u = ray_in.direction.unit_norm();
                let d = u.dot(&hit_record.normal.0);
                proof {
                    lemma_dot_range(u, hit_record.normal.0, 131072);
                    crate::num::lemma_div_range(-(d as int), 786432, 65536);
                }
                let c0 = div_floor(-d, ONE);
                let cos_theta = if c0 > ONE {
                    ONE
                } else {
                    c0
                };
                proof {
                    lemma_mul_bound(cos_theta as int, cos_theta as int, 786432, 786432);
                    assert(cos_theta as int * cos_theta as int >= 0) by (nonlinear_arith);
                }
                let k0 = ONE_SQ - cos_theta * cos_theta;
                let kk = if k0 < 0 {
                    0
                } else {
                    k0
                };
                let sin128 = crate::num::isqrt_u128(kk as u128);
                proof {
                    assert(sin128 as int <= 65536int) by (nonlinear_arith)
                        requires
                            sin128 as int >= 0,
                            (sin128 as int) * (sin128 as int) <= kk as int,
                            kk as int <= 4294967296int,
                    ;
                }
                let sin_theta = sin128 as i64;
                let cannot_refract = wide_mul(refractive_ratio, sin_theta) > ONE_SQ as i128;
                let dir: Vec3;
                if cannot_refract {
                    dir = u.reflect(&hit_record.normal.0);
                } else if refractive_ratio == ONE {
                    // Matched media: Fresnel reflectance is zero at every
                    // angle, so no reflectance draw is made and the ray
                    // refracts (that is, passes) without deviation.
                    dir = u.refract(&hit_record.normal.0, refractive_ratio);
                } else {
                    let refl = Material::reflectance(refractive_ratio, cos_theta);
                    let draw = r.random_double();
                    if refl > draw {
                        dir = u.reflect(&hit_record.normal.0);
                    } else {
                        dir = u.refract(&hit_record.normal.0, refractive_ratio);
                    }
                }
                proof {
                    crate::geom::lemma_reflect_range(u, hit_record.normal.0, 131072);
                    assert(spec_unit_norm_of(u, *ray_in));
                }
                let out = Ray::new(hit_record.p, dir, ray_in.time);
                Some((*attenuation, out))
            },
        }
    }
}

/// The vector is the unit direction of the ray (a trigger shape for the
/// scatter postconditions).
pub open spec fn spec_unit_norm_of(u: Vec3, ray: Ray) -> bool {
    v3(u) == spec_unit_norm(ray.direction)
}

/// One power step preserves order between two runs.
proof fn lemma_step_monotone(v1: int, v2: int, b1: int, b2: int)
    requires
        v1 >= v2 >= 0,
        b1 >= b2 >= 0,
    ensures
        (v1 * b1) / (ONE as int) >= (v2 * b2) / (ONE as int) >= 0,
        v1 * b1 >= v2 * b2 >= 0,
{
    assert(v1 * b1 >= v2 * b2 >= 0) by (nonlinear_arith)
        requires
            v1 >= v2 >= 0,
            b1 >= b2 >= 0,
    ;
    vstd::arithmetic::div_mod::lemma_div_is_ordered(v2 * b2, v1 * b1, ONE as int);
    crate::num::lemma_div_bounds(v2 * b2, ONE as int);
}

/// Schlick's reflectance grows as the incidence cosine falls: grazing
/// rays reflect more.
pub proof fn lemma_reflectance_monotone(x: int, c1: int, c2: int)
    requires
        0 <= x,
        0 <= c1 <= c2 <= ONE,
    ensures
        spec_reflectance(x, c1) >= spec_reflectance(x, c2),
{
    let q = ((ONE - x) * ONE) / (ONE + x);
    assert(-((ONE as int) * (ONE + x)) <= (ONE - x) * ONE <= (ONE as int) * (ONE + x))
        by (nonlinear_arith)
        requires
            0 <= x,
    ;
    crate::num::lemma_div_range((ONE - x) * ONE, ONE as int, ONE + x);
    crate::num::lemma_mul_bound(q, q, ONE as int, ONE as int);
    assert(q * q >= 0) by (nonlinear_arith);
    crate::num::lemma_div_bounds(q * q, ONE as int);
    crate::num::lemma_div_range(q * q, ONE as int, ONE as int);
    let r0 = (q * q) / (ONE as int);
    let b1 = ONE - c1;
    let b2 = ONE - c2;
    lemma_step_monotone(b1, b2, b1, b2);
    let p2a = (b1 * b1) / (ONE as int);
    let p2b = (b2 * b2) / (ONE as int);
    lemma_step_monotone(p2a, p2b, b1, b2);
    let p3a = (p2a * b1) / (ONE as int);
    let p3b = (p2b * b2) / (ONE as int);
    lemma_step_monotone(p3a, p3b, b1, b2);
    let p4a = (p3a * b1) / (ONE as int);
    let p4b = (p3b * b2) / (ONE as int);
    lemma_step_monotone(p4a, p4b, b1, b2);
    let p5a = (p4a * b1) / (ONE as int);
    let p5b = (p4b * b2) / (ONE as int);
    lemma_step_monotone(ONE - r0, ONE - r0, p5a, p5b);
}

/// Everything `scatter` promises about its result and the random state,
/// for one material: the scattered ray (or the absorption) as an exact
/// function of the inputs and the consumed random values.
pub open spec fn scatter_post(m: Material, ray_in: Ray, rec: HitRecord, s0: u64, s1: u64,
    res: Option<(Color, Ray)>) -> bool {
    (res is Some ==> (res->0).1.origin == rec.p && (res->0).1.time == ray_in.time) && match m {
        Material::Lambertian { albedo } => res is Some && (res->0).0 == albedo && (exists|
            p: Vec3, k: nat|
            #![trigger sphere_sample_trace(s0, k, v3(p), s1)]
            sphere_sample_trace(s0, k, v3(p), s1) && in_bound(p, ONE as int) && v3(
            (res->0).1.direction) == lambertian_scatter_dir(rec.normal.0, p)),
        Material::Metal { albedo, fuzz } => exists|u: Vec3, sp: Vec3, k: nat|
            #![trigger spec_unit_norm_of(u, ray_in), sphere_sample_trace(s0, k, v3(sp), s1)]
            spec_unit_norm_of(u, ray_in) && in_bound(u, ONE as int)
                && sphere_sample_trace(s0, k, v3(sp), s1) && in_bound(sp, ONE as int) && ({
                let out = addv(spec_reflect(u, rec.normal.0), fuzz_scaled(sp, fuzz));
                if dotv(out, v3(rec.normal.0)) > 0 {
                    res is Some && (res->0).0 == albedo && v3((res->0).1.direction) == out
                } else {
                    res is None
                }
            }),
        Material::Dielectric { refractive_index, attenuation } => res is Some && (res->0).0
            == attenuation && (exists|u: Vec3|
            #![trigger spec_unit_norm_of(u, ray_in)]
            spec_unit_norm_of(u, ray_in) && in_bound(u, ONE as int) && ({
                let ratio = diel_ratio(refractive_index, rec.front_face);
                let cos = diel_cos(u, rec.normal.0);
                if diel_cannot_refract(ratio, cos) {
                    s1 == s0 && v3((res->0).1.direction) == spec_reflect(u, rec.normal.0)
                } else if ratio == ONE {
                    s1 == s0 && v3((res->0).1.direction) == spec_refract(u, rec.normal.0,
                    ratio)
                } else {
                    s1 == next_state(s0) && (if spec_reflectance(ratio, cos) > unit_sample(
                    s0) {
                        v3((res->0).1.direction) == spec_reflect(u, rec.normal.0)
                    } else {
                        v3((res->0).1.direction) == spec_refract(u, rec.normal.0, ratio)
                    })
                }
            })),
    }
}

/// Two vectors with the same integer view are the same vector.
proof fn lemma_v3_injective(a: Vec3, b: Vec3)
    requires
        v3(a) == v3(b),
    ensures
        a == b,
{
    assert(a.x as int == b.x as int);
    assert(a.y as int == b.y as int);
    assert(a.z as int == b.z as int);
}

/// Scattering consumes the random stream deterministically: from equal
/// inputs and equal starting states, any two outcomes that satisfy the
/// scatter contract carry the same ray, the same attenuation and the same
/// final random state.
pub proof fn lemma_scatter_deterministic(m: Material, ray_in: Ray, rec: HitRecord, s0: u64,
    s1a: u64, s1b: u64, res_a: Option<(Color, Ray)>, res_b: Option<(Color, Ray)>)
    requires
        scatter_post(m, ray_in, rec, s0, s1a, res_a),
        scatter_post(m, ray_in, rec, s0, s1b, res_b),
    ensures
        s1a == s1b,
        res_a is Some == res_b is Some,
        res_a is Some ==> (res_a->0).0 == (res_b->0).0 && (res_a->0).1.origin == (
        res_b->0).1.origin && (res_a->0).1.time == (res_b->0).1.time && (
        res_a->0).1.direction == (res_b->0).1.direction,
{
    match m {
        Material::Lambertian { albedo } => {
            let (pa, ka): (Vec3, nat) = choose|p: Vec3, k: nat|
                #![trigger sphere_sample_trace(s0, k, v3(p), s1a)]
                sphere_sample_trace(s0, k, v3(p), s1a) && in_bound(p, ONE as int) && v3(
                (res_a->0).1.direction) == lambertian_scatter_dir(rec.normal.0, p);
            let (pb, kb): (Vec3, nat) = choose|p: Vec3, k: nat|
                #![trigger sphere_sample_trace(s0, k, v3(p), s1b)]
                sphere_sample_trace(s0, k, v3(p), s1b) && in_bound(p, ONE as int) && v3(
                (res_b->0).1.direction) == lambertian_scatter_dir(rec.normal.0, p);
            crate::geom::lemma_sphere_sample_deterministic(s0, ka, v3(pa), s1a, kb, v3(pb),
                s1b);
            lemma_v3_injective(pa, pb);
            lemma_v3_injective((res_a->0).1.direction, (res_b->0).1.direction);
        },
        Material::Metal { albedo, fuzz } => {
            let (ua, spa, ka): (Vec3, Vec3, nat) = choose|u: Vec3, sp: Vec3, k: nat|
                #![trigger spec_unit_norm_of(u, ray_in), sphere_sample_trace(s0, k, v3(sp), s1a)]
                spec_unit_norm_of(u, ray_in) && in_bound(u, ONE as int)
                    && sphere_sample_trace(s0, k, v3(sp), s1a) && in_bound(sp, ONE as int)
                    && ({
                    let out = addv(spec_reflect(u, rec.normal.0), fuzz_scaled(sp, fuzz));
                    if dotv(out, v3(rec.normal.0)) > 0 {
                        res_a is Some && (res_a->0).0 == albedo && v3((res_a->0).1.direction)
                            == out
                    } else {
                        res_a is None
                    }
                });
            let (ub, spb, kb): (Vec3, Vec3, nat) = choose|u: Vec3, sp: Vec3, k: nat|
                #![trigger spec_unit_norm_of(u, ray_in), sphere_sample_trace(s0, k, v3(sp), s1b)]
                spec_unit_norm_of(u, ray_in) && in_bound(u, ONE as int)
                    && sphere_sample_trace(s0, k, v3(sp), s1b) && in_bound(sp, ONE as int)
                    && ({
                    let out = addv(spec_reflect(u, rec.normal.0), fuzz_scaled(sp, fuzz));
                    if dotv(out, v3(rec.normal.0)) > 0 {
                        res_b is Some && (res_b->0).0 == albedo && v3((res_b->0).1.direction)
                            == out
                    } else {
                        res_b is None
                    }
                });
            assert(v3(ua) == spec_unit_norm(ray_in.direction));
            assert(v3(ub) == spec_unit_norm(ray_in.direction));
            lemma_v3_injective(ua, ub);
            crate::geom::lemma_sphere_sample_deterministic(s0, ka, v3(spa), s1a, kb, v3(spb),
                s1b);
            lemma_v3_injective(spa, spb);
            if res_a is Some {
                lemma_v3_injective((res_a->0).1.direction, (res_b->0).1.direction);
            }
        },
        Material::Dielectric { refractive_index, attenuation } => {
            let ua: Vec3 = choose|u: Vec3|
                #![trigger spec_unit_norm_of(u, ray_in)]
                spec_unit_norm_of(u, ray_in) && in_bound(u, ONE as int) && ({
                    let ratio = diel_ratio(refractive_index, rec.front_face);
                    let cos = diel_cos(u, rec.normal.0);
                    if diel_cannot_refract(ratio, cos) {
                        s1a == s0 && v3((res_a->0).1.direction) == spec_reflect(u,
                        rec.normal.0)
                    } else if ratio == ONE {
                        s1a == s0 && v3((res_a->0).1.direction) == spec_refract(u,
                        rec.normal.0, ratio)
                    } else {
                        s1a == next_state(s0) && (if spec_reflectance(ratio, cos)
                            > unit_sample(s0) {
                            v3((res_a->0).1.direction) == spec_reflect(u, rec.normal.0)
                        } else {
                            v3((res_a->0).1.direction) == spec_refract(u, rec.normal.0,
                            ratio)
                        })
                    }
                });
            let ub: Vec3 = choose|u: Vec3|
                #![trigger spec_unit_norm_of(u, ray_in)]
                spec_unit_norm_of(u, ray_in) && in_bound(u, ONE as int) && ({
                    let ratio = diel_ratio(refractive_index, rec.front_face);
                    let cos = diel_cos(u, rec.normal.0);
                    if diel_cannot_refract(ratio, cos) {
                        s1b == s0 && v3((res_b->0).1.direction) == spec_reflect(u,
                        rec.normal.0)
                    } else if ratio == ONE {
                        s1b == s0 && v3((res_b->0).1.direction) == spec_refract(u,
                        rec.normal.0, ratio)
                    } else {
                        s1b == next_state(s0) && (if spec_reflectance(ratio, cos)
                            > unit_sample(s0) {
                            v3((res_b->0).1.direction) == spec_reflect(u, rec.normal.0)
                        } else {
                            v3((res_b->0).1.direction) == spec_refract(u, rec.normal.0,
                            ratio)
                        })
                    }
                });
            assert(v3(ua) == spec_unit_norm(ray_in.direction));
            assert(v3(ub) == spec_unit_norm(ray_in.direction));
            lemma_v3_injective(ua, ub);
            lemma_v3_injective((res_a->0).1.direction, (res_b->0).1.direction);
        },
    }
}

fn color_in_range(c: &Color) -> (r: bool)
    ensures
        r == c.wf(),
{
    0 <= c.rgb.x && c.rgb.x <= ONE && 0 <= c.rgb.y && c.rgb.y <= ONE && 0 <= c.rgb.z && c.rgb.z
        <= ONE
}

} // verus!
