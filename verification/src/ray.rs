//! Rays: an origin, a direction, and a time coordinate for motion blur.

use vstd::prelude::*;

use crate::color::Color;
use crate::geom::{dot3, in_bound, spec_unit_norm, v3, scalev, Point, Vec3, V3, COORD_MAX,
    DOT_BOUND};
use crate::material::Material;
use crate::num::{div_floor, div_floor_i128, lemma_div_bounds, ONE};
use crate::object::{spec_hit_list, time_in_range_list, to_spec, HitSpec, HittableList};
use crate::random::Random;
use crate::rat::Rat;

verus! {

/// A ray `origin + t * direction`, tagged with the instant it was cast
/// (fixed point; only moving spheres read it).
#[derive(Clone, Copy, Debug)]
pub struct Ray {
    pub origin: Point,
    pub direction: Vec3,
    pub time: i64,
}

/// The exact value `origin[axis] + t * direction[axis]` of the point at
/// parameter `tn / td`, rounded toward minus infinity.
pub open spec fn at_axis(o: int, d: int, tn: int, td: int) -> int {
    o + (tn * d) / td
}

impl Ray {
    /// Origin, direction and time stay within the scene bound.
    pub open spec fn wf(self) -> bool {
        in_bound(self.origin.0, COORD_MAX as int) && in_bound(self.direction, COORD_MAX as int)
            && -COORD_MAX <= self.time <= COORD_MAX
    }

    pub fn new(origin: Point, direction: Vec3, time: i64) -> (r: Ray)
        ensures
            r == (Ray { origin, direction, time }),
    {
        Ray { origin, direction, time }
    }

    /// The point at exact rational parameter `t`, each coordinate rounded
    /// toward minus infinity.
    pub fn at(&self, t: &Rat) -> (r: Point)
        requires
            self.wf(),
            t.wf(),
            i64::MIN <= at_axis(self.origin.0.x as int, self.direction.x as int, t.num as int,
                t.den as int) <= i64::MAX,
            i64::MIN <= at_axis(self.origin.0.y as int, self.direction.y as int, t.num as int,
                t.den as int) <= i64::MAX,
            i64::MIN <= at_axis(self.origin.0.z as int, self.direction.z as int, t.num as int,
                t.den as int) <= i64::MAX,
        ensures
            r.0.x == at_axis(self.origin.0.x as int, self.direction.x as int, t.num as int,
                t.den as int),
            r.0.y == at_axis(self.origin.0.y as int, self.direction.y as int, t.num as int,
                t.den as int),
            r.0.z == at_axis(self.origin.0.z as int, self.direction.z as int, t.num as int,
                t.den as int),
    {
        let qx = div_floor_i128(
            crate::num::wide_mul(t.num, self.direction.x),
            t.den as i128,
        );
        let qy = div_floor_i128(
            crate::num::wide_mul(t.num, self.direction.y),
            t.den as i128,
        );
        let qz = div_floor_i128(
            crate::num::wide_mul(t.num, self.direction.z),
            t.den as i128,
        );
        let x = (self.origin.0.x as i128 + qx) as i64;
        let y = (self.origin.0.y as i128 + qy) as i64;
        let z = (self.origin.0.z as i128 + qz) as i64;
        Point(Vec3 { x, y, z })
    }
}

/// One intersection: the hit point, the normal oriented against the ray,
/// the exact parameter, and the surface that was struck.
#[derive(Clone, Copy, Debug)]
pub struct HitRecord {
    pub p: Point,
    pub normal: Point,
    pub material: Material,
    pub t: Rat,
    pub front_face: bool,
}

impl HitRecord {
    /// A record the scattering formulas can take: an exact positive-denominator
    /// parameter, a unit-scale normal, a point and a material in range.
    pub open spec fn wf(self) -> bool {
        self.t.wf() && in_bound(self.normal.0, 2 * ONE as int) && in_bound(self.p.0,
            COORD_MAX as int) && self.material.wf()
    }

    /// Orient `outward_normal` against the ray and record the hit.
    pub fn new(p: Point, t: Rat, outward_normal: Point, material: Material, ray: &Ray) -> (r:
        HitRecord)
        requires
            in_bound(outward_normal.0, DOT_BOUND as int),
            in_bound(ray.direction, DOT_BOUND as int),
            outward_normal.0.x > i64::MIN,
            outward_normal.0.y > i64::MIN,
            outward_normal.0.z > i64::MIN,
        ensures
            r.front_face == (dot3(ray.direction, outward_normal.0) < 0),
            r.front_face ==> r.normal == outward_normal,
            !r.front_face ==> v3(r.normal.0) == scalev(-1, v3(outward_normal.0)),
            r.p == p,
            r.t == t,
            r.material == material,
    {
        let front_face = HitRecord::is_front_face(&outward_normal, ray);
        let normal = if front_face {
            outward_normal
        } else {
            Point(outward_normal.0.neg())
        };
        HitRecord { p, normal, material, t, front_face }
    }

    /// The outward normal faces the ray when their dot product is negative.
    fn is_front_face(outward_normal: &Point, ray: &Ray) -> (r: bool)
        requires
            in_bound(outward_normal.0, DOT_BOUND as int),
            in_bound(ray.direction, DOT_BOUND as int),
        ensures
            r == (dot3(ray.direction, outward_normal.0) < 0),
    {
        ray.direction.dot(&outward_normal.0) < 0
    }
}

/// The sky gradient a missed ray returns: white blended toward sky blue
/// by the height of the unit direction.
pub open spec fn spec_sky(d: Vec3) -> V3 {
    let t = (spec_unit_norm(d).y + ONE) / 2;
    V3 {
        x: ((ONE as int) * (ONE - t)) / (ONE as int) + (32768 * t) / (ONE as int),
        y: ((ONE as int) * (ONE - t)) / (ONE as int) + (45875 * t) / (ONE as int),
        z: ((ONE as int) * (ONE - t)) / (ONE as int) + ((ONE as int) * t) / (ONE as int),
    }
}


/// The executable record a specification-level record stands for.
pub open spec fn rec_of(h: HitSpec) -> HitRecord {
    HitRecord {
        p: Point(Vec3 { x: h.p.x as i64, y: h.p.y as i64, z: h.p.z as i64 }),
        normal: Point(
            Vec3 { x: h.normal.x as i64, y: h.normal.y as i64, z: h.normal.z as i64 },
        ),
        material: h.material,
        t: Rat { num: h.tn as i64, den: h.td as i64 },
        front_face: h.front_face,
    }
}

/// An executable record is recovered from its specification mirror.
proof fn lemma_rec_of_roundtrip(rec: HitRecord)
    ensures
        rec_of(to_spec(rec)) == rec,
{
}

/// Introduce the recursive-step witness.
proof fn lemma_color_step_intro(pair: (Color, Ray), world: HittableList, depth: u32,
    smid: u64, s1: u64, c: Color, sub: Color)
    requires
        depth > 0,
        in_bound(sub.rgb, ONE as int),
        color_post(pair.1, world, (depth - 1) as u32, smid, s1, sub),
        c.rgb.x == (sub.rgb.x * pair.0.rgb.x) / (ONE as int),
        c.rgb.y == (sub.rgb.y * pair.0.rgb.y) / (ONE as int),
        c.rgb.z == (sub.rgb.z * pair.0.rgb.z) / (ONE as int),
    ensures
        color_step(pair, world, depth, smid, s1, c),
{
}

/// Everything `color` promises: the returned color and the final random
/// state, as a function of the ray, the scene, the bounce budget and the
/// consumed random values.  An exhausted budget gives black and a miss
/// gives the sky gradient, both without consuming randomness; a hit
/// scatters from the state `s0`, and the result is black on absorption or
/// the recursive color attenuated channelwise by the surface.
pub open spec fn color_post(ray: Ray, world: HittableList, depth: u32, s0: u64, s1: u64,
    c: Color) -> bool
    decreases depth, 1int,
{
    if depth == 0 {
        c == Color::spec_zero() && s1 == s0
    } else {
        match spec_hit_list(world.hittables, 0, ray, 1, 1000, 0x4000000000000000, 1, None) {
            Option::None => v3(c.rgb) == spec_sky(ray.direction) && s1 == s0,
            Option::Some(h) => exists|res: Option<(Color, Ray)>, smid: u64|
                #![trigger crate::material::scatter_post(h.material, ray, rec_of(h), s0, smid, res)]
                crate::material::scatter_post(h.material, ray, rec_of(h), s0, smid, res)
                    && match res {
                    Option::None => c == Color::spec_zero() && s1 == smid,
                    Option::Some(pair) => color_step(pair, world, depth, smid, s1, c),
                },
        }
    }
}

/// The recursive step after a successful scatter: the result is the color
/// of the scattered ray at the remaining budget, attenuated channelwise.
pub open spec fn color_step(pair: (Color, Ray), world: HittableList, depth: u32, smid: u64,
    s1: u64, c: Color) -> bool
    decreases depth, 0int,
{
    depth > 0 && exists|sub: Color|
        #![trigger in_bound(sub.rgb, ONE as int)]
        in_bound(sub.rgb, ONE as int) && color_post(pair.1, world, (depth - 1) as u32, smid,
            s1, sub) && c.rgb.x == (sub.rgb.x * pair.0.rgb.x) / (ONE as int) && c.rgb.y == (
        sub.rgb.y * pair.0.rgb.y) / (ONE as int) && c.rgb.z == (sub.rgb.z * pair.0.rgb.z) / (
        ONE as int)
}


/// Two colors with equal channels are the same color.
proof fn lemma_color_eq(a: Color, b: Color)
    requires
        a.rgb.x == b.rgb.x,
        a.rgb.y == b.rgb.y,
        a.rgb.z == b.rgb.z,
    ensures
        a == b,
{
}

/// The path evaluator consumes the random stream deterministically: any
/// two outcomes that satisfy the color contract from equal inputs and
/// equal starting random states carry the same color and the same final
/// state.  With the seedable generator this is render determinism: equal
/// seeds give byte-identical images.
pub proof fn lemma_color_deterministic(ray: Ray, world: HittableList, depth: u32, s0: u64,
    s1a: u64, s1b: u64, ca: Color, cb: Color)
    requires
        color_post(ray, world, depth, s0, s1a, ca),
        color_post(ray, world, depth, s0, s1b, cb),
    ensures
        ca == cb,
        s1a == s1b,
    decreases depth,
{
    if depth == 0 {
    } else {
        match spec_hit_list(world.hittables, 0, ray, 1, 1000, 0x4000000000000000, 1, None) {
            Option::None => {
                lemma_color_eq(ca, cb);
            },
            Option::Some(h) => {
                let (res_a, smid_a): (Option<(Color, Ray)>, u64) = choose|
                    res: Option<(Color, Ray)>, smid: u64|
                    #![trigger crate::material::scatter_post(h.material, ray, rec_of(h), s0, smid, res)]
                    crate::material::scatter_post(h.material, ray, rec_of(h), s0, smid, res)
                        && match res {
                        Option::None => ca == Color::spec_zero() && s1a == smid,
                        Option::Some(pair) => color_step(pair, world, depth, smid, s1a, ca),
                    };
                let (res_b, smid_b): (Option<(Color, Ray)>, u64) = choose|
                    res: Option<(Color, Ray)>, smid: u64|
                    #![trigger crate::material::scatter_post(h.material, ray, rec_of(h), s0, smid, res)]
                    crate::material::scatter_post(h.material, ray, rec_of(h), s0, smid, res)
                        && match res {
                        Option::None => cb == Color::spec_zero() && s1b == smid,
                        Option::Some(pair) => color_step(pair, world, depth, smid, s1b, cb),
                    };
                crate::material::lemma_scatter_deterministic(h.material, ray, rec_of(h), s0,
                    smid_a, smid_b, res_a, res_b);
                if res_a is Some {
                    let pa = res_a->0;
                    let pb = res_b->0;
                    assert(pa.1 == pb.1) by {
                        assert(pa.1.origin == pb.1.origin && pa.1.direction == pb.1.direction
                            && pa.1.time == pb.1.time);
                    }
                    let sub_a: Color = choose|sub: Color|
                        #![trigger in_bound(sub.rgb, ONE as int)]
                        in_bound(sub.rgb, ONE as int) && color_post(pa.1, world, (depth
                            - 1) as u32, smid_a, s1a, sub) && ca.rgb.x == (sub.rgb.x
                            * pa.0.rgb.x) / (ONE as int) && ca.rgb.y == (sub.rgb.y
                            * pa.0.rgb.y) / (ONE as int) && ca.rgb.z == (sub.rgb.z
                            * pa.0.rgb.z) / (ONE as int);
                    let sub_b: Color = choose|sub: Color|
                        #![trigger in_bound(sub.rgb, ONE as int)]
                        in_bound(sub.rgb, ONE as int) && color_post(pb.1, world, (depth
                            - 1) as u32, smid_b, s1b, sub) && cb.rgb.x == (sub.rgb.x
                            * pb.0.rgb.x) / (ONE as int) && cb.rgb.y == (sub.rgb.y
                            * pb.0.rgb.y) / (ONE as int) && cb.rgb.z == (sub.rgb.z
                            * pb.0.rgb.z) / (ONE as int);
                    lemma_color_deterministic(pa.1, world, (depth - 1) as u32, smid_a, s1a,
                        s1b, sub_a, sub_b);
                    lemma_color_eq(ca, cb);
                }
            },
        }
    }
}

impl Ray {
    /// The color carried back along this ray: black once the bounce budget
    /// is spent or the ray is absorbed, the sky gradient on a miss, and
    /// otherwise the scattered color attenuated by the surface.
    ///
    /// Every channel stays in `[0, ONE]`; on a miss the result is exactly
    /// the sky gradient.
    pub fn color(&self, world: &HittableList, depth: u32, r: &mut Random) -> (c: Color)
        requires
            self.wf(),
            world.wf(),
            time_in_range_list(world.hittables, 0, self.time),
        ensures
            0 <= c.rgb.x <= ONE,
            0 <= c.rgb.y <= ONE,
            0 <= c.rgb.z <= ONE,
            color_post(*self, *world, depth, old(r).state, final(r).state, c),
        decreases depth,
    {
        if depth == 0 {
            Color::zero()
        } else {
            let ghost s0 = r.state;
            let t_min = Rat::new(1, 1000);
            let t_max = Rat::new(0x4000000000000000, 1);
            let hit = world.hit(self, &t_min, &t_max);
            match hit {
                Option::Some(rec) => {
                    let ghost h = to_spec(rec);
                    proof {
                        lemma_rec_of_roundtrip(rec);
                    }
                    let scattered = rec.material.scatter(self, &rec, r);
                    let ghost smid = r.state;
                    match scattered {
                        Option::Some((attenuation, ray_out)) => {
                            proof {
                                lemma_attenuation_wf(rec.material, attenuation);
                            }
                            let sub = ray_out.color(world, depth - 1, r);
                            proof {
                                lemma_mul_unit_interval(sub.rgb.x as int,
                                    attenuation.rgb.x as int);
                                lemma_mul_unit_interval(sub.rgb.y as int,
                                    attenuation.rgb.y as int);
                                lemma_mul_unit_interval(sub.rgb.z as int,
                                    attenuation.rgb.z as int);
                            }
                            let out_color = Color::new(sub.rgb.index_wise_mul(
                                &attenuation.rgb));
                            proof {
                                assert(spec_hit_list(world.hittables, 0, *self, 1, 1000,
                                    0x4000000000000000, 1, None) == Some(h));
                                assert(crate::material::scatter_post(h.material, *self,
                                    rec_of(h), s0, smid, scattered));
                                let pr = scattered->0;
                                assert(pr.1 == ray_out && pr.0 == attenuation);
                                assert(color_post(pr.1, *world, (depth - 1) as u32, smid,
                                    r.state, sub));
                                assert(depth > 0);
                                assert(out_color.rgb.x == (sub.rgb.x * pr.0.rgb.x) / (
                                ONE as int));
                                assert(out_color.rgb.y == (sub.rgb.y * pr.0.rgb.y) / (
                                ONE as int));
                                assert(out_color.rgb.z == (sub.rgb.z * pr.0.rgb.z) / (
                                ONE as int));
                                lemma_color_step_intro(pr, *world, depth, smid, r.state,
                                    out_color, sub);
                                assert(color_step(pr, *world, depth, smid, r.state,
                                    out_color));
                                assert(color_post(*self, *world, depth, s0, r.state,
                                    out_color));
                            }
                            out_color
                        },
                        Option::None => {
                            proof {
                                assert(crate::material::scatter_post(h.material, *self,
                                    rec_of(h), s0, smid, scattered));
                                assert(color_post(*self, *world, depth, s0, r.state,
                                    Color::spec_zero()));
                            }
                            Color::zero()
                        },
                    }
                },
                Option::None => {
                    let unit_direction = self.direction.unit_norm();
                    proof {
                        lemma_div_bounds(unit_direction.y as int + ONE, 2);
                    }
                    let t = div_floor(unit_direction.y + ONE, 2);
                    let white = Vec3::iso(ONE);
                    let blue = Vec3::new(32768, 45875, ONE);
                    proof {
                        lemma_sky_bounds(t as int, 32768);
                        lemma_sky_bounds(t as int, 45875);
                        lemma_sky_bounds(t as int, ONE as int);
                    }
                    let c = white.scalar_mul(ONE - t).add(&blue.scalar_mul(t));
                    Color::new(c)
                },
            }
        }
    }
}

/// The attenuation a scattering surface hands back is a valid color.
proof fn lemma_attenuation_wf(m: Material, att: Color)
    requires
        m.wf(),
        m matches Material::Lambertian { albedo } ==> att == albedo,
        m matches Material::Metal { albedo, .. } ==> att == albedo,
        m matches Material::Dielectric { attenuation, .. } ==> att == attenuation,
    ensures
        att.wf(),
{
}

/// Attenuating one unit-interval channel by another stays in the unit
/// interval.
proof fn lemma_mul_unit_interval(a: int, b: int)
    requires
        0 <= a <= ONE,
        0 <= b <= ONE,
    ensures
        0 <= (a * b) / (ONE as int) <= ONE,
{
    assert(0 <= a * b <= (ONE as int) * (ONE as int)) by (nonlinear_arith)
        requires
            0 <= a <= ONE,
            0 <= b <= ONE,
    ;
    lemma_div_bounds(a * b, ONE as int);
    crate::num::lemma_div_range(a * b, ONE as int, ONE as int);
}

/// The two blend terms of the sky gradient sum to at most one.
proof fn lemma_sky_bounds(t: int, ch: int)
    requires
        0 <= t <= ONE,
        0 <= ch <= ONE,
    ensures
        ((ONE as int) * (ONE - t)) / (ONE as int) == ONE - t,
        0 <= (ch * t) / (ONE as int) <= t,
{
    vstd::arithmetic::div_mod::lemma_div_multiples_vanish(ONE - t, ONE as int);
    assert(0 <= ch * t <= (ONE as int) * t) by (nonlinear_arith)
        requires
            0 <= t <= ONE,
            0 <= ch <= ONE,
    ;
    lemma_div_bounds(ch * t, ONE as int);
    vstd::arithmetic::div_mod::lemma_div_is_ordered(ch * t, (ONE as int) * t, ONE as int);
    vstd::arithmetic::div_mod::lemma_div_multiples_vanish(t, ONE as int);
}

} // verus!
