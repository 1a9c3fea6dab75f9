//! Scene primitives and aggregates: spheres, lists, and the bounding-volume
//! hierarchy, with the nearest-hit intersection protocol.

use vstd::prelude::*;

use crate::aabb::{box_union, contains_v, in_window_i, AaBoundingBox};
use crate::geom::{dotv, in_bound, lemma_dot_sub_expand, scalev, subv, v3, Point, Vec3, V3,
    COORD_MAX, DOT_BOUND};
use crate::material::Material;
use crate::num::{div_floor_i128, isqrt_u128, is_sqrt, lemma_div_range, lemma_mul_bound,
    sqrt_spec, wide_mul, ONE};
use crate::random::Random;
use crate::rat::{frac_le, Rat};
use crate::ray::{at_axis, HitRecord, Ray};
use crate::BuildError;

verus! {

/// Centers and radii stay within this, so a sphere's box stays within the
/// scene bound `COORD_MAX`.
pub const SPHERE_BOUND: i64 = 134217728;

/// Linear motion of a sphere center between two instants, for motion blur.
#[derive(Clone, Copy, Debug)]
pub struct MovingComponent {
    pub center_0: Point,
    pub center_1: Point,
    pub time_0: i64,
    pub time_1: i64,
}

/// One interpolated coordinate: `c0 + (c1 - c0) (tau - t0) / (t1 - t0)`,
/// rounded toward minus infinity.
pub open spec fn mc_center_c(c0: int, c1: int, t0: int, t1: int, tau: int) -> int {
    c0 + ((c1 - c0) * (tau - t0)) / (t1 - t0)
}

/// The (possibly moving) sphere center at a ray's time.
pub open spec fn center_at_time(center: Point, mc: Option<MovingComponent>, time: i64) -> V3 {
    match mc {
        Option::None => v3(center.0),
        Option::Some(m) => V3 {
            x: mc_center_c(m.center_0.0.x as int, m.center_1.0.x as int, m.time_0 as int,
                m.time_1 as int, time as int),
            y: mc_center_c(m.center_0.0.y as int, m.center_1.0.y as int, m.time_0 as int,
                m.time_1 as int, time as int),
            z: mc_center_c(m.center_0.0.z as int, m.center_1.0.z as int, m.time_0 as int,
                m.time_1 as int, time as int),
        },
    }
}

/// Between the two instants, the interpolated coordinate stays between the
/// two endpoint coordinates.
pub proof fn lemma_interp_bounds(c0: int, c1: int, t0: int, t1: int, tau: int)
    requires
        t0 < t1,
        t0 <= tau <= t1,
    ensures
        c0 <= c1 ==> c0 <= mc_center_c(c0, c1, t0, t1, tau) <= c1,
        c1 <= c0 ==> c1 <= mc_center_c(c0, c1, t0, t1, tau) <= c0,
{
    let dc = c1 - c0;
    let w = tau - t0;
    let dt = t1 - t0;
    if c0 <= c1 {
        assert(0 <= dc * w <= dc * dt) by (nonlinear_arith)
            requires
                dc >= 0,
                0 <= w <= dt,
        ;
        vstd::arithmetic::div_mod::lemma_div_is_ordered(0, dc * w, dt);
        vstd::arithmetic::div_mod::lemma_div_is_ordered(dc * w, dc * dt, dt);
        assert(dc * dt == dt * dc) by (nonlinear_arith);
        vstd::arithmetic::div_mod::lemma_div_multiples_vanish(dc, dt);
    } else {
        assert(dc * dt <= dc * w <= 0) by (nonlinear_arith)
            requires
                dc < 0,
                0 <= w <= dt,
        ;
        vstd::arithmetic::div_mod::lemma_div_is_ordered(dc * w, 0, dt);
        vstd::arithmetic::div_mod::lemma_div_is_ordered(dc * dt, dc * w, dt);
        assert(dc * dt == dt * dc) by (nonlinear_arith);
        vstd::arithmetic::div_mod::lemma_div_multiples_vanish(dc, dt);
    }
}

impl MovingComponent {
    /// Ordered, bounded instants and bounded endpoint centers.
    pub open spec fn wf(self) -> bool {
        self.time_0 < self.time_1 && -COORD_MAX <= self.time_0 <= COORD_MAX && -COORD_MAX
            <= self.time_1 <= COORD_MAX && in_bound(self.center_0.0, SPHERE_BOUND as int)
            && in_bound(self.center_1.0, SPHERE_BOUND as int)
    }

    /// The center at instant `t`, by linear interpolation.
    pub fn center_at(&self, t: i64) -> (r: Point)
        requires
            self.wf(),
            -COORD_MAX <= t <= COORD_MAX,
        ensures
            v3(r.0) == center_at_time(self.center_0, Some(*self), t),
            self.time_0 <= t <= self.time_1 ==> in_bound(r.0, SPHERE_BOUND as int),
    {
        let dt = self.time_1 - self.time_0;
        let w = t - self.time_0;
        let x = interp(self.center_0.0.x, self.center_1.0.x, w, dt);
        let y = interp(self.center_0.0.y, self.center_1.0.y, w, dt);
        let z = interp(self.center_0.0.z, self.center_1.0.z, w, dt);
        proof {
            if self.time_0 <= t <= self.time_1 {
                lemma_interp_bounds(self.center_0.0.x as int, self.center_1.0.x as int,
                    self.time_0 as int, self.time_1 as int, t as int);
                lemma_interp_bounds(self.center_0.0.y as int, self.center_1.0.y as int,
                    self.time_0 as int, self.time_1 as int, t as int);
                lemma_interp_bounds(self.center_0.0.z as int, self.center_1.0.z as int,
                    self.time_0 as int, self.time_1 as int, t as int);
            }
        }
        Point(Vec3 { x, y, z })
    }
}

/// One coordinate of the interpolation: `c0 + (c1 - c0) * w / dt`.
fn interp(c0: i64, c1: i64, w: i64, dt: i64) -> (r: i64)
    requires
        dt > 0,
        -COORD_MAX <= c0 <= COORD_MAX,
        -COORD_MAX <= c1 <= COORD_MAX,
        -4 * COORD_MAX <= w <= 4 * COORD_MAX,
    ensures
        r == c0 + ((c1 - c0) * w) / (dt as int),
{
    proof {
        crate::num::lemma_mul_bound((c1 - c0) as int, w as int, 536870912, 1073741824);
        crate::num::lemma_div_bounds((c1 - c0) as int * w as int, dt as int);
    }
    let q = div_floor_i128((c1 - c0) as i128 * (w as i128), dt as i128);
    (c0 as i128 + q) as i64
}

/// A primitive or an aggregate of primitives.
#[derive(Debug)]
pub enum Object {
    /// A sphere; a negative radius gives inward-facing normals (a shell).
    Sphere {
        center: Point,
        radius: i64,
        material: Material,
        moving_component: Option<MovingComponent>,
    },
    /// A plain sequence of objects, scanned linearly.
    HittableList { hittables: Vec<Object> },
    /// A binary partition with a precomputed enclosing box.
    BVHNode { left: Box<Object>, right: Box<Object>, bounding_box: AaBoundingBox },
}

/// The time-independent enclosing range of an object, as exact integer
/// corners: a static sphere's box, a moving sphere's box over its whole
/// motion, the union over a list, a node's stored box.
pub open spec fn spec_box(obj: Object) -> Option<(V3, V3)>
    decreases obj,
{
    match obj {
        Object::Sphere { center, radius, moving_component, .. } => {
            let r = abs_i(radius as int);
            match moving_component {
                Option::None => Some(
                    (
                        V3 {
                            x: center.0.x - r,
                            y: center.0.y - r,
                            z: center.0.z - r,
                        },
                        V3 {
                            x: center.0.x + r,
                            y: center.0.y + r,
                            z: center.0.z + r,
                        },
                    ),
                ),
                Option::Some(m) => Some(
                    (
                        V3 {
                            x: imin_i(m.center_0.0.x as int, m.center_1.0.x as int) - r,
                            y: imin_i(m.center_0.0.y as int, m.center_1.0.y as int) - r,
                            z: imin_i(m.center_0.0.z as int, m.center_1.0.z as int) - r,
                        },
                        V3 {
                            x: imax_i(m.center_0.0.x as int, m.center_1.0.x as int) + r,
                            y: imax_i(m.center_0.0.y as int, m.center_1.0.y as int) + r,
                            z: imax_i(m.center_0.0.z as int, m.center_1.0.z as int) + r,
                        },
                    ),
                ),
            }
        },
        Object::HittableList { hittables } => spec_box_list(hittables, 0),
        Object::BVHNode { bounding_box, .. } => Some(
            (v3(bounding_box.minimum.0), v3(bounding_box.maximum.0)),
        ),
    }
}

/// The union of the boxes of `objs[i..]`, or `None` if the range is empty
/// or some member has no box.
pub open spec fn spec_box_list(objs: Vec<Object>, i: int) -> Option<(V3, V3)>
    decreases objs, objs.len() - i,
{
    if i < 0 || i >= objs.len() {
        None
    } else {
        match spec_box(objs[i]) {
            Option::None => None,
            Option::Some(b) => {
                if i == objs.len() - 1 {
                    Some(b)
                } else {
                    match spec_box_list(objs, i + 1) {
                        Option::None => None,
                        Option::Some(rest) => Some(union_v(b, rest)),
                    }
                }
            },
        }
    }
}

/// Componentwise union of two integer ranges.
pub open spec fn union_v(a: (V3, V3), b: (V3, V3)) -> (V3, V3) {
    (
        V3 {
            x: imin_i(a.0.x, b.0.x),
            y: imin_i(a.0.y, b.0.y),
            z: imin_i(a.0.z, b.0.z),
        },
        V3 {
            x: imax_i(a.1.x, b.1.x),
            y: imax_i(a.1.y, b.1.y),
            z: imax_i(a.1.z, b.1.z),
        },
    )
}

pub open spec fn abs_i(x: int) -> int {
    if x < 0 {
        -x
    } else {
        x
    }
}

pub open spec fn imin_i(a: int, b: int) -> int {
    if a <= b {
        a
    } else {
        b
    }
}

pub open spec fn imax_i(a: int, b: int) -> int {
    if a <= b {
        b
    } else {
        a
    }
}

impl Object {
    /// Structural well-formedness: bounded geometry, valid materials, and,
    /// in a hierarchy node, a stored box that contains both children's boxes.
    pub open spec fn wf(self) -> bool
        decreases self,
    {
        match self {
            Object::Sphere { center, radius, material, moving_component } => in_bound(center.0,
                SPHERE_BOUND as int) && radius != 0 && -SPHERE_BOUND <= radius <= SPHERE_BOUND
                && material.wf() && match moving_component {
                Option::None => true,
                Option::Some(m) => m.wf(),
            },
            Object::HittableList { hittables } => wf_list(hittables, 0),
            Object::BVHNode { left, right, bounding_box } => left.wf() && right.wf()
                && bounding_box.wf() && spec_box(*left) is Some && spec_box(*right) is Some
                && contains_v(v3(bounding_box.minimum.0), v3(bounding_box.maximum.0), (spec_box(
                *left)->0).0, (spec_box(*left)->0).1) && contains_v(v3(bounding_box.minimum.0),
                v3(bounding_box.maximum.0), (spec_box(*right)->0).0, (spec_box(*right)->0).1),
        }
    }

    /// The ray's time lies within every moving sphere's motion interval.
    pub open spec fn time_in_range(self, time: i64) -> bool
        decreases self,
    {
        match self {
            Object::Sphere { moving_component, .. } => match moving_component {
                Option::None => true,
                Option::Some(m) => m.time_0 <= time <= m.time_1,
            },
            Object::HittableList { hittables } => time_in_range_list(hittables, 0, time),
            Object::BVHNode { left, right, .. } => left.time_in_range(time) && right.time_in_range(
                time),
        }
    }
}

/// All of `objs[i..]` are well formed.
pub open spec fn wf_list(objs: Vec<Object>, i: int) -> bool
    decreases objs, objs.len() - i,
{
    if i < 0 || i >= objs.len() {
        true
    } else {
        objs[i].wf() && wf_list(objs, i + 1)
    }
}

/// The time is in range for all of `objs[i..]`.
pub open spec fn time_in_range_list(objs: Vec<Object>, i: int, time: i64) -> bool
    decreases objs, objs.len() - i,
{
    if i < 0 || i >= objs.len() {
        true
    } else {
        objs[i].time_in_range(time) && time_in_range_list(objs, i + 1, time)
    }
}

/// The raw squared length of the ray direction (the quadratic's leading
/// coefficient).
pub open spec fn sph_a(ray: Ray) -> int {
    dotv(v3(ray.direction), v3(ray.direction))
}

/// Origin minus center.
pub open spec fn sph_oc(ray: Ray, c: V3) -> V3 {
    subv(v3(ray.origin.0), c)
}

/// The quadratic's half linear coefficient, `(O - C) . D`.
pub open spec fn sph_hb(ray: Ray, c: V3) -> int {
    dotv(sph_oc(ray, c), v3(ray.direction))
}

/// The quadratic's constant coefficient, `|O - C|^2 - r^2`.
pub open spec fn sph_cc(ray: Ray, c: V3, radius: int) -> int {
    dotv(sph_oc(ray, c), sph_oc(ray, c)) - radius * radius
}

/// The quarter discriminant `hb^2 - a c`.
pub open spec fn sph_disc(ray: Ray, c: V3, radius: int) -> int {
    sph_hb(ray, c) * sph_hb(ray, c) - sph_a(ray) * sph_cc(ray, c, radius)
}

/// The accepted root of the sphere quadratic in the window, as an exact
/// fraction over the leading coefficient: the smaller root if it lies in
/// the window, else the larger root if it does, else nothing.  A ray with
/// a zero direction hits nothing.
pub open spec fn sphere_root(c: V3, radius: int, ray: Ray, tminn: int, tmind: int, tmaxn: int,
    tmaxd: int) -> Option<(int, int)> {
    let a = sph_a(ray);
    let hb = sph_hb(ray, c);
    let disc = sph_disc(ray, c, radius);
    if a <= 0 || disc < 0 {
        None
    } else {
        let s = sqrt_spec(disc);
        if in_window_i(tminn, tmind, tmaxn, tmaxd, -hb - s, a) {
            Some((-hb - s, a))
        } else if in_window_i(tminn, tmind, tmaxn, tmaxd, -hb + s, a) {
            Some((-hb + s, a))
        } else {
            None
        }
    }
}

/// A hit record at the specification level: the same data as a
/// [`HitRecord`], with unbounded integers.
pub ghost struct HitSpec {
    pub p: V3,
    pub normal: V3,
    pub tn: int,
    pub td: int,
    pub front_face: bool,
    pub material: Material,
}

/// The executable record carries exactly the specification record.
pub open spec fn rec_matches(r: HitRecord, h: HitSpec) -> bool {
    v3(r.p.0) == h.p && v3(r.normal.0) == h.normal && r.t.num == h.tn && r.t.den == h.td
        && r.front_face == h.front_face && r.material == h.material
}

/// The hit point at parameter `tn / td`, each coordinate rounded toward
/// minus infinity.
pub open spec fn sphere_point(ray: Ray, tn: int, td: int) -> V3 {
    V3 {
        x: at_axis(ray.origin.0.x as int, ray.direction.x as int, tn, td),
        y: at_axis(ray.origin.0.y as int, ray.direction.y as int, tn, td),
        z: at_axis(ray.origin.0.z as int, ray.direction.z as int, tn, td),
    }
}

/// One coordinate of `(p - c) / radius` in fixed point, with the same
/// rounding as `Vec3::scalar_div`.
pub open spec fn outward_c(pc: int, cc: int, radius: int) -> int {
    if radius > 0 {
        ((pc - cc) * ONE) / radius
    } else {
        (-((pc - cc) * ONE)) / (-radius)
    }
}

/// The outward normal `(p - c) / radius`; a negative radius points it
/// inward.
pub open spec fn sphere_outward(p: V3, c: V3, radius: int) -> V3 {
    V3 {
        x: outward_c(p.x, c.x, radius),
        y: outward_c(p.y, c.y, radius),
        z: outward_c(p.z, c.z, radius),
    }
}

/// The full record a sphere produces for an accepted root.
pub open spec fn sphere_record(c: V3, radius: int, material: Material, ray: Ray, tn: int,
    td: int) -> HitSpec {
    let p = sphere_point(ray, tn, td);
    let ow = sphere_outward(p, c, radius);
    let ff = dotv(v3(ray.direction), ow) < 0;
    HitSpec {
        p,
        normal: if ff {
            ow
        } else {
            scalev(-1, ow)
        },
        tn,
        td,
        front_face: ff,
        material,
    }
}

/// Either root of the quadratic, taken with a rounded-down square root,
/// satisfies `E(t) <= 0`: the quadratic form is nonpositive there, so the
/// point lies on or inside the sphere.
pub proof fn lemma_root_on_sphere(hb: int, a: int, cval: int, s: int, tn: int)
    requires
        a > 0,
        s >= 0,
        s * s <= hb * hb - a * cval,
        tn == -hb - s || tn == -hb + s,
    ensures
        tn * tn + 2 * (hb * tn) + a * cval <= 0,
{
    assert(tn * tn + 2 * (hb * tn) + a * cval <= 0) by (nonlinear_arith)
        requires
            s * s <= hb * hb - a * cval,
            tn == -hb - s || tn == -hb + s,
    ;
}

/// A parameter with `E(t) <= 0` puts the exact hit point within the
/// sphere's box on every axis (scaled by the denominator `td`).
pub proof fn lemma_point_in_box(c: V3, radius: int, ray: Ray, tn: int, td: int)
    requires
        td == sph_a(ray),
        td > 0,
        tn * tn + 2 * (sph_hb(ray, c) * tn) + td * sph_cc(ray, c, radius) <= 0,
    ensures
        -(abs_i(radius) * td) <= (ray.origin.0.x - c.x) * td + tn * ray.direction.x <= abs_i(
            radius) * td,
        -(abs_i(radius) * td) <= (ray.origin.0.y - c.y) * td + tn * ray.direction.y <= abs_i(
            radius) * td,
        -(abs_i(radius) * td) <= (ray.origin.0.z - c.z) * td + tn * ray.direction.z <= abs_i(
            radius) * td,
{
    let oc = sph_oc(ray, c);
    let d = v3(ray.direction);
    let hb = sph_hb(ray, c);
    let cval = sph_cc(ray, c, radius);
    let p = subv(scalev(td, oc), scalev(-tn, d));
    lemma_dot_sub_expand(td, oc, -tn, d);
    assert(-(2 * ((td * (-tn)) * hb)) == 2 * ((td * tn) * hb)) by (nonlinear_arith);
    assert(((-tn) * (-tn)) * td == (tn * tn) * td) by (nonlinear_arith);
    assert(dotv(p, p) == (td * td) * dotv(oc, oc) + 2 * ((td * tn) * hb) + (tn * tn) * td);
    assert((td * td) * dotv(oc, oc) == (td * td) * cval + (td * td) * (radius * radius))
        by (nonlinear_arith)
        requires
            dotv(oc, oc) == cval + radius * radius,
    ;
    assert((td * td) * cval + 2 * ((td * tn) * hb) + (tn * tn) * td == td * (tn * tn + 2 * (hb
        * tn) + td * cval)) by (nonlinear_arith);
    assert(td * (tn * tn + 2 * (hb * tn) + td * cval) <= 0) by (nonlinear_arith)
        requires
            td > 0,
            tn * tn + 2 * (hb * tn) + td * cval <= 0,
    ;
    assert(dotv(p, p) <= (td * td) * (radius * radius));
    let r_abs = abs_i(radius);
    let bound = r_abs * td;
    assert(r_abs >= 0);
    assert((td * td) * (radius * radius) == bound * bound && bound >= 0) by (nonlinear_arith)
        requires
            bound == r_abs * td,
            r_abs >= 0,
            td > 0,
            radius == r_abs || radius == -r_abs,
    ;
    assert(p.x * p.x <= dotv(p, p) && p.y * p.y <= dotv(p, p) && p.z * p.z <= dotv(p, p))
        by (nonlinear_arith);
    assert(-bound <= p.x <= bound && -bound <= p.y <= bound && -bound <= p.z <= bound)
        by (nonlinear_arith)
        requires
            p.x * p.x <= bound * bound,
            p.y * p.y <= bound * bound,
            p.z * p.z <= bound * bound,
            bound >= 0,
    ;
    assert(p.x == (ray.origin.0.x - c.x) * td + tn * ray.direction.x) by (nonlinear_arith)
        requires
            p.x == td * (ray.origin.0.x - c.x) - (-tn) * ray.direction.x,
    ;
    assert(p.y == (ray.origin.0.y - c.y) * td + tn * ray.direction.y) by (nonlinear_arith)
        requires
            p.y == td * (ray.origin.0.y - c.y) - (-tn) * ray.direction.y,
    ;
    assert(p.z == (ray.origin.0.z - c.z) * td + tn * ray.direction.z) by (nonlinear_arith)
        requires
            p.z == td * (ray.origin.0.z - c.z) - (-tn) * ray.direction.z,
    ;
}

/// The scaled in-box bound turns into bounds on the rounded coordinate.
proof fn lemma_point_axis_range(o: int, dc: int, cc: int, r_abs: int, tn: int, td: int)
    requires
        td > 0,
        r_abs >= 0,
        -(r_abs * td) <= (o - cc) * td + tn * dc <= r_abs * td,
    ensures
        cc - r_abs <= at_axis(o, dc, tn, td) <= cc + r_abs,
{
    assert((cc - r_abs - o) * td <= tn * dc <= (cc + r_abs - o) * td) by (nonlinear_arith)
        requires
            -(r_abs * td) <= (o - cc) * td + tn * dc <= r_abs * td,
    ;
    assert(td * (cc - r_abs - o) == (cc - r_abs - o) * td) by (nonlinear_arith);
    assert(td * (cc + r_abs - o) == (cc + r_abs - o) * td) by (nonlinear_arith);
    vstd::arithmetic::div_mod::lemma_div_is_ordered(td * (cc - r_abs - o), tn * dc, td);
    vstd::arithmetic::div_mod::lemma_div_is_ordered(tn * dc, td * (cc + r_abs - o), td);
    vstd::arithmetic::div_mod::lemma_div_multiples_vanish(cc - r_abs - o, td);
    vstd::arithmetic::div_mod::lemma_div_multiples_vanish(cc + r_abs - o, td);
}

/// The specification-level mirror of an executable record.
pub open spec fn to_spec(r: HitRecord) -> HitSpec {
    HitSpec {
        p: v3(r.p.0),
        normal: v3(r.normal.0),
        tn: r.t.num as int,
        td: r.t.den as int,
        front_face: r.front_face,
        material: r.material,
    }
}

pub open spec fn opt_to_spec(r: Option<HitRecord>) -> Option<HitSpec> {
    match r {
        Option::None => None,
        Option::Some(rec) => Some(to_spec(rec)),
    }
}

/// What `hit` returns, as a total specification function: the closest
/// accepted intersection under the traversal order of the object tree.
pub open spec fn spec_hit(obj: Object, ray: Ray, tminn: int, tmind: int, tmaxn: int,
    tmaxd: int) -> Option<HitSpec>
    decreases obj, 0int,
{
    match obj {
        Object::Sphere { center, radius, material, moving_component } => {
            let c = center_at_time(center, moving_component, ray.time);
            match sphere_root(c, radius as int, ray, tminn, tmind, tmaxn, tmaxd) {
                Option::None => None,
                Option::Some(rt) => Some(sphere_record(c, radius as int, material, ray, rt.0,
                    rt.1)),
            }
        },
        Object::HittableList { hittables } => spec_hit_list(hittables, 0, ray, tminn, tmind,
            tmaxn, tmaxd, None),
        Object::BVHNode { left, right, bounding_box } => {
            if crate::aabb::spec_slab_hit_i(bounding_box, ray, tminn, tmind, tmaxn, tmaxd) {
                match spec_hit(*left, ray, tminn, tmind, tmaxn, tmaxd) {
                    Option::Some(l) => match spec_hit(*right, ray, tminn, tmind, l.tn, l.td) {
                        Option::Some(r) => Some(r),
                        Option::None => Some(l),
                    },
                    Option::None => spec_hit(*right, ray, tminn, tmind, tmaxn, tmaxd),
                }
            } else {
                None
            }
        },
    }
}

/// The linear scan from index `i` with the best record so far; the search
/// window's upper end narrows to the best parameter found.
pub open spec fn spec_hit_list(objs: Vec<Object>, i: int, ray: Ray, tminn: int, tmind: int,
    tmaxn: int, tmaxd: int, best: Option<HitSpec>) -> Option<HitSpec>
    decreases objs, objs.len() - i,
{
    if i < 0 || i >= objs.len() {
        best
    } else {
        let curn = match best {
            Option::None => tmaxn,
            Option::Some(b) => b.tn,
        };
        let curd = match best {
            Option::None => tmaxd,
            Option::Some(b) => b.td,
        };
        match spec_hit(objs[i], ray, tminn, tmind, curn, curd) {
            Option::Some(h) => spec_hit_list(objs, i + 1, ray, tminn, tmind, tmaxn, tmaxd, Some(
                h)),
            Option::None => spec_hit_list(objs, i + 1, ray, tminn, tmind, tmaxn, tmaxd, best),
        }
    }
}

/// Every member of a well-formed tail is well formed.
proof fn lemma_wf_list_elem(objs: Vec<Object>, i: int, j: int)
    requires
        wf_list(objs, i),
        0 <= i <= j < objs.len(),
    ensures
        objs[j].wf(),
    decreases j - i,
{
    if i < j {
        lemma_wf_list_elem(objs, i + 1, j);
    }
}

/// The time is in range for every member of the tail.
proof fn lemma_time_list_elem(objs: Vec<Object>, i: int, j: int, time: i64)
    requires
        time_in_range_list(objs, i, time),
        0 <= i <= j < objs.len(),
    ensures
        objs[j].time_in_range(time),
    decreases j - i,
{
    if i < j {
        lemma_time_list_elem(objs, i + 1, j, time);
    }
}

/// The raw dot product of vectors bounded by `b` is within `3 b^2`.
proof fn lemma_dot_range_v(a: V3, w: V3, b: int)
    requires
        -b <= a.x <= b,
        -b <= a.y <= b,
        -b <= a.z <= b,
        -b <= w.x <= b,
        -b <= w.y <= b,
        -b <= w.z <= b,
        b >= 0,
    ensures
        -(3 * (b * b)) <= dotv(a, w) <= 3 * (b * b),
{
    lemma_mul_bound(a.x, w.x, b, b);
    lemma_mul_bound(a.y, w.y, b, b);
    lemma_mul_bound(a.z, w.z, b, b);
}

/// The sphere arm of the intersection protocol, pinned to its
/// specification.
fn sphere_hit(center: &Point, radius: i64, material: &Material, moving_component: &Option<
    MovingComponent>, ray: &Ray, t_min: &Rat, t_max: &Rat) -> (res: Option<HitRecord>)
    requires
        in_bound(center.0, SPHERE_BOUND as int),
        radius != 0,
        -SPHERE_BOUND <= radius <= SPHERE_BOUND,
        material.wf(),
        match moving_component {
            Option::None => true,
            Option::Some(m) => m.wf() && m.time_0 <= ray.time <= m.time_1,
        },
        ray.wf(),
        t_min.wf(),
        t_max.wf(),
    ensures
        ({
            let c = center_at_time(*center, *moving_component, ray.time);
            let rt = sphere_root(c, radius as int, *ray, t_min.num as int, t_min.den as int,
                t_max.num as int, t_max.den as int);
            match res {
                Option::None => rt is None,
                Option::Some(rec) => rt is Some && rec_matches(rec, sphere_record(c,
                    radius as int, *material, *ray, (rt->0).0, (rt->0).1)) && rec.wf(),
            }
        }),
{
    let center_timed: Point = match moving_component {
        Option::Some(m) => m.center_at(ray.time),
        Option::None => *center,
    };
    let ghost cspec = center_at_time(*center, *moving_component, ray.time);
    assert(v3(center_timed.0) == cspec);
    assert(in_bound(center_timed.0, SPHERE_BOUND as int));
    let oc = ray.origin.0.sub(&center_timed.0);
    let a = ray.direction.dot(&ray.direction);
    let half_b = oc.dot(&ray.direction);
    let oc2 = oc.dot(&oc);
    proof {
        crate::geom::lemma_norm2_nonneg(v3(ray.direction));
        crate::geom::lemma_norm2_nonneg(v3(oc));
        lemma_dot_range_v(v3(ray.direction), v3(ray.direction), 268435456);
        lemma_dot_range_v(v3(oc), v3(ray.direction), 402653184);
        lemma_dot_range_v(v3(oc), v3(oc), 402653184);
        lemma_mul_bound(radius as int, radius as int, 134217728, 134217728);
    }
    let c_coef: i128 = (oc2 as i128) - wide_mul(radius, radius);
    if a == 0 {
        return None;
    }
    proof {
        lemma_mul_bound(a as int, c_coef as int, 216172782113783808, 504734720638418944);
        lemma_mul_bound(half_b as int, half_b as int, 486388759756013568, 486388759756013568);
    }
    let disc: i128 = wide_mul(half_b, half_b) - (a as i128) * c_coef;
    if disc < 0 {
        return None;
    }
    let s128 = isqrt_u128(disc as u128);
    proof {
        assert(s128 as int <= 600000000000000000int) by (nonlinear_arith)
            requires
                s128 as int >= 0,
                (s128 as int) * (s128 as int) <= disc as int,
                disc as int <= 350000000000000000000000000000000000int,
        ;
    }
    let s: i128 = s128 as i128;
    let num1 = -(half_b as i128) - s;
    let root1 = Rat::new(num1 as i64, a);
    let ghost tminn = t_min.num as int;
    let ghost tmind = t_min.den as int;
    let ghost tmaxn = t_max.num as int;
    let ghost tmaxd = t_max.den as int;
    let accept1 = if t_min.le(&root1) {
        root1.le(t_max)
    } else {
        false
    };
    proof {
        assert(accept1 == in_window_i(tminn, tmind, tmaxn, tmaxd, -(half_b as int) - (
        s as int), a as int));
    }
    let root: Rat;
    if accept1 {
        root = root1;
    } else {
        let num2 = -(half_b as i128) + s;
        let root2 = Rat::new(num2 as i64, a);
        let accept2 = if t_min.le(&root2) {
            root2.le(t_max)
        } else {
            false
        };
        proof {
            assert(accept2 == in_window_i(tminn, tmind, tmaxn, tmaxd, -(half_b as int) + (
            s as int), a as int));
        }
        if accept2 {
            root = root2;
        } else {
            return None;
        }
    }
    proof {
        lemma_root_on_sphere(half_b as int, a as int, c_coef as int, s as int,
            root.num as int);
        lemma_point_in_box(cspec, radius as int, *ray, root.num as int, a as int);
        let r_abs = abs_i(radius as int);
        lemma_point_axis_range(ray.origin.0.x as int, ray.direction.x as int, cspec.x, r_abs,
            root.num as int, a as int);
        lemma_point_axis_range(ray.origin.0.y as int, ray.direction.y as int, cspec.y, r_abs,
            root.num as int, a as int);
        lemma_point_axis_range(ray.origin.0.z as int, ray.direction.z as int, cspec.z, r_abs,
            root.num as int, a as int);
    }
    let p = ray.at(&root);
    let diff = p.0.sub(&center_timed.0);
    let outward = diff.scalar_div(radius);
    proof {
        let r_abs: int = if radius > 0 {
            radius as int
        } else {
            -(radius as int)
        };
        lemma_div_range(diff.x as int * ONE, ONE as int, r_abs);
        lemma_div_range(diff.y as int * ONE, ONE as int, r_abs);
        lemma_div_range(diff.z as int * ONE, ONE as int, r_abs);
        lemma_div_range(-(diff.x as int * ONE), ONE as int, r_abs);
        lemma_div_range(-(diff.y as int * ONE), ONE as int, r_abs);
        lemma_div_range(-(diff.z as int * ONE), ONE as int, r_abs);
    }
    Some(HitRecord::new(p, root, Point(outward), *material, ray))
}

/// The linear scan over a sequence of objects, narrowing the window's
/// upper end to the closest parameter found so far.
fn list_hit(hittables: &Vec<Object>, ray: &Ray, t_min: &Rat, t_max: &Rat) -> (res: Option<
    HitRecord>)
    requires
        wf_list(*hittables, 0),
        time_in_range_list(*hittables, 0, ray.time),
        ray.wf(),
        t_min.wf(),
        t_max.wf(),
    ensures
        opt_to_spec(res) == spec_hit_list(*hittables, 0, *ray, t_min.num as int,
            t_min.den as int, t_max.num as int, t_max.den as int, None),
        res is Some ==> res->0.wf(),
    decreases *hittables,
{
    let mut temp_rec: Option<HitRecord> = None;
    let mut closest: Rat = *t_max;
    let mut i: usize = 0;
    let n = hittables.len();
    while i < n
        invariant
            n == hittables@.len(),
            i <= n,
            wf_list(*hittables, 0),
            time_in_range_list(*hittables, 0, ray.time),
            ray.wf(),
            t_min.wf(),
            t_max.wf(),
            closest.wf(),
            match temp_rec {
                Option::Some(r) => r.wf() && r.t == closest,
                Option::None => closest == *t_max,
            },
            spec_hit_list(*hittables, i as int, *ray, t_min.num as int, t_min.den as int,
                t_max.num as int, t_max.den as int, opt_to_spec(temp_rec)) == spec_hit_list(
                *hittables, 0, *ray, t_min.num as int, t_min.den as int, t_max.num as int,
                t_max.den as int, None),
        decreases n - i,
    {
        proof {
            lemma_wf_list_elem(*hittables, 0, i as int);
            lemma_time_list_elem(*hittables, 0, i as int, ray.time);
        }
        let object = &hittables[i];
        let sub = object.hit(ray, t_min, &closest);
        match sub {
            Option::Some(rec) => {
                closest = rec.t;
                temp_rec = Some(rec);
            },
            Option::None => {},
        }
        i = i + 1;
    }
    temp_rec
}

impl Object {
    /// The closest intersection with parameter in `[t_min, t_max]`, or
    /// nothing.  The record is exactly determined by the object tree, the
    /// ray and the window (see [`spec_hit`]).
    pub fn hit(&self, ray: &Ray, t_min: &Rat, t_max: &Rat) -> (res: Option<HitRecord>)
        requires
            self.wf(),
            self.time_in_range(ray.time),
            ray.wf(),
            t_min.wf(),
            t_max.wf(),
        ensures
            opt_to_spec(res) == spec_hit(*self, *ray, t_min.num as int, t_min.den as int,
                t_max.num as int, t_max.den as int),
            res is Some ==> res->0.wf(),
        decreases self,
    {
        match self {
            Object::Sphere { center, radius, material, moving_component } => {
                sphere_hit(center, *radius, material, moving_component, ray, t_min, t_max)
            },
            Object::HittableList { hittables } => list_hit(hittables, ray, t_min, t_max),
            Object::BVHNode { left, right, bounding_box } => {
                if bounding_box.hit(ray, t_min, t_max) {
                    let left_res = left.hit(ray, t_min, t_max);
                    match left_res {
                        Option::Some(l) => {
                            let right_res = right.hit(ray, t_min, &l.t);
                            match right_res {
                                Option::Some(r) => Some(r),
                                Option::None => Some(l),
                            }
                        },
                        Option::None => right.hit(ray, t_min, t_max),
                    }
                } else {
                    None
                }
            },
        }
    }
}

/// Every moving sphere below `obj` moves over exactly `[time_0, time_1]`:
/// the scene's shutter interval is shared.
pub open spec fn times_match(obj: Object, time_0: i64, time_1: i64) -> bool
    decreases obj, 0int,
{
    match obj {
        Object::Sphere { moving_component, .. } => match moving_component {
            Option::None => true,
            Option::Some(m) => m.time_0 == time_0 && m.time_1 == time_1,
        },
        Object::HittableList { hittables } => times_match_list(hittables, 0, time_0, time_1),
        Object::BVHNode { left, right, .. } => times_match(*left, time_0, time_1)
            && times_match(*right, time_0, time_1),
    }
}

pub open spec fn times_match_list(objs: Vec<Object>, i: int, time_0: i64, time_1: i64) -> bool
    decreases objs, objs.len() - i,
{
    if i < 0 || i >= objs.len() {
        true
    } else {
        times_match(objs[i], time_0, time_1) && times_match_list(objs, i + 1, time_0, time_1)
    }
}

proof fn lemma_times_list_elem(objs: Vec<Object>, i: int, j: int, time_0: i64, time_1: i64)
    requires
        times_match_list(objs, i, time_0, time_1),
        0 <= i <= j < objs.len(),
    ensures
        times_match(objs[j], time_0, time_1),
    decreases j - i,
{
    if i < j {
        lemma_times_list_elem(objs, i + 1, j, time_0, time_1);
    }
}

/// The union of the boxes of the objects from index `i` on, or `None` if
/// the range is empty or a member has no box; mirrors [`spec_box_list`].
fn list_box(objs: &Vec<Object>, i: usize, time_0: i64, time_1: i64) -> (res: Option<
    AaBoundingBox>)
    requires
        wf_list(*objs, i as int),
        times_match_list(*objs, i as int, time_0, time_1),
        -COORD_MAX <= time_0 <= COORD_MAX,
        -COORD_MAX <= time_1 <= COORD_MAX,
        i <= objs@.len(),
    ensures
        res is Some <==> spec_box_list(*objs, i as int) is Some,
        res is Some ==> v3(res->0.minimum.0) == (spec_box_list(*objs, i as int)->0).0 && v3(
            res->0.maximum.0) == (spec_box_list(*objs, i as int)->0).1 && res->0.wf(),
    decreases *objs, objs@.len() - i,
{
    if i >= objs.len() {
        return None;
    }
    let first = objs[i].bounding_box(time_0, time_1);
    match first {
        Option::None => None,
        Option::Some(b) => {
            if i == objs.len() - 1 {
                Some(b)
            } else {
                let rest = list_box(objs, i + 1, time_0, time_1);
                match rest {
                    Option::None => None,
                    Option::Some(rb) => Some(b.surrounding_box(&rb)),
                }
            }
        },
    }
}

impl Object {
    /// The enclosing axis-aligned box over the shutter interval
    /// `[time_0, time_1]` (the interval every moving sphere was built
    /// with), or `None` for an empty list.
    pub fn bounding_box(&self, time_0: i64, time_1: i64) -> (res: Option<AaBoundingBox>)
        requires
            self.wf(),
            times_match(*self, time_0, time_1),
            -COORD_MAX <= time_0 <= COORD_MAX,
            -COORD_MAX <= time_1 <= COORD_MAX,
        ensures
            res is Some <==> spec_box(*self) is Some,
            res is Some ==> v3(res->0.minimum.0) == (spec_box(*self)->0).0 && v3(
                res->0.maximum.0) == (spec_box(*self)->0).1 && res->0.wf(),
        decreases self,
    {
        match self {
            Object::Sphere { center, radius, moving_component, .. } => {
                let r_abs = if *radius < 0 {
                    -*radius
                } else {
                    *radius
                };
                match moving_component {
                    Option::None => {
                        let lo = center.0.sub(&Vec3::iso(r_abs));
                        let hi = center.0.add(&Vec3::iso(r_abs));
                        Some(AaBoundingBox::new(Point(lo), Point(hi)))
                    },
                    Option::Some(moving) => {
                        let c_a = moving.center_at(time_0);
                        let c_b = moving.center_at(time_1);
                        proof {
                            let dt = moving.time_1 as int - moving.time_0 as int;
                            vstd::arithmetic::div_mod::lemma_div_multiples_vanish(
                                moving.center_1.0.x - moving.center_0.0.x, dt);
                            vstd::arithmetic::div_mod::lemma_div_multiples_vanish(
                                moving.center_1.0.y - moving.center_0.0.y, dt);
                            vstd::arithmetic::div_mod::lemma_div_multiples_vanish(
                                moving.center_1.0.z - moving.center_0.0.z, dt);
                            assert((moving.center_1.0.x - moving.center_0.0.x) * dt == dt * (
                            moving.center_1.0.x - moving.center_0.0.x)) by (nonlinear_arith);
                            assert((moving.center_1.0.y - moving.center_0.0.y) * dt == dt * (
                            moving.center_1.0.y - moving.center_0.0.y)) by (nonlinear_arith);
                            assert((moving.center_1.0.z - moving.center_0.0.z) * dt == dt * (
                            moving.center_1.0.z - moving.center_0.0.z)) by (nonlinear_arith);
                        }
                        let box_a = AaBoundingBox::new(Point(c_a.0.sub(&Vec3::iso(r_abs))),
                            Point(c_a.0.add(&Vec3::iso(r_abs))));
                        let box_b = AaBoundingBox::new(Point(c_b.0.sub(&Vec3::iso(r_abs))),
                            Point(c_b.0.add(&Vec3::iso(r_abs))));
                        Some(box_a.surrounding_box(&box_b))
                    },
                }
            },
            Object::HittableList { hittables } => list_box(hittables, 0, time_0, time_1),
            Object::BVHNode { bounding_box, .. } => Some(*bounding_box),
        }
    }
}

/// A plain scene: an ordered sequence of objects scanned linearly.
#[derive(Debug)]
pub struct HittableList {
    pub hittables: Vec<Object>,
}

impl HittableList {
    pub open spec fn wf(self) -> bool {
        wf_list(self.hittables, 0)
    }

    pub fn new() -> (r: HittableList)
        ensures
            r.hittables@.len() == 0,
    {
        HittableList { hittables: Vec::new() }
    }

    pub fn add(&mut self, hittable: Object)
        ensures
            final(self).hittables@ == old(self).hittables@.push(hittable),
    {
        self.hittables.push(hittable);
    }

    /// The closest intersection among the scene's objects with parameter in
    /// `[t_min, t_max]`, or nothing.
    pub fn hit(&self, ray: &Ray, t_min: &Rat, t_max: &Rat) -> (res: Option<HitRecord>)
        requires
            self.wf(),
            time_in_range_list(self.hittables, 0, ray.time),
            ray.wf(),
            t_min.wf(),
            t_max.wf(),
        ensures
            opt_to_spec(res) == spec_hit_list(self.hittables, 0, *ray, t_min.num as int,
                t_min.den as int, t_max.num as int, t_max.den as int, None),
            res is Some ==> res->0.wf(),
    {
        list_hit(&self.hittables, ray, t_min, t_max)
    }
}

/// The lesser of two optional parameters; on a tie the second wins, the
/// way a later object in scan order replaces an equal earlier hit.
pub open spec fn rmin(a: Option<(int, int)>, b: Option<(int, int)>) -> Option<(int, int)> {
    match (a, b) {
        (Option::None, _) => b,
        (Option::Some(x), Option::None) => a,
        (Option::Some(x), Option::Some(y)) => if frac_le(y.0, y.1, x.0, x.1) {
            b
        } else {
            a
        },
    }
}

/// The parameter of an optional record.
pub open spec fn opt_t(h: Option<HitSpec>) -> Option<(int, int)> {
    match h {
        Option::None => None,
        Option::Some(r) => Some((r.tn, r.td)),
    }
}

/// The root a leaf sphere contributes; only spheres are leaves.
pub open spec fn leaf_root(l: Object, ray: Ray, tminn: int, tmind: int, tmaxn: int,
    tmaxd: int) -> Option<(int, int)> {
    match l {
        Object::Sphere { center, radius, moving_component, .. } => sphere_root(center_at_time(
            center, moving_component, ray.time), radius as int, ray, tminn, tmind, tmaxn,
            tmaxd),
        _ => None,
    }
}

/// The semantic answer of the intersection protocol: the least accepted
/// root among all spheres below `obj`, each judged against the full query
/// window.
pub open spec fn best_t(obj: Object, ray: Ray, tminn: int, tmind: int, tmaxn: int,
    tmaxd: int) -> Option<(int, int)>
    decreases obj, 0int,
{
    match obj {
        Object::Sphere { center, radius, moving_component, .. } => sphere_root(center_at_time(
            center, moving_component, ray.time), radius as int, ray, tminn, tmind, tmaxn,
            tmaxd),
        Object::HittableList { hittables } => best_t_list(hittables, 0, ray, tminn, tmind,
            tmaxn, tmaxd),
        Object::BVHNode { left, right, .. } => rmin(best_t(*left, ray, tminn, tmind, tmaxn,
            tmaxd), best_t(*right, ray, tminn, tmind, tmaxn, tmaxd)),
    }
}

pub open spec fn best_t_list(objs: Vec<Object>, i: int, ray: Ray, tminn: int, tmind: int,
    tmaxn: int, tmaxd: int) -> Option<(int, int)>
    decreases objs, objs.len() - i,
{
    if i < 0 || i >= objs.len() {
        None
    } else {
        rmin(best_t(objs[i], ray, tminn, tmind, tmaxn, tmaxd), best_t_list(objs, i + 1, ray,
            tminn, tmind, tmaxn, tmaxd))
    }
}

/// The spheres below an object, in traversal order.
pub open spec fn leaves(obj: Object) -> Seq<Object>
    decreases obj, 0int,
{
    match obj {
        Object::Sphere { .. } => seq![obj],
        Object::HittableList { hittables } => leaves_list(hittables, 0),
        Object::BVHNode { left, right, .. } => leaves(*left) + leaves(*right),
    }
}

pub open spec fn leaves_list(objs: Vec<Object>, i: int) -> Seq<Object>
    decreases objs, objs.len() - i,
{
    if i < 0 || i >= objs.len() {
        Seq::empty()
    } else {
        leaves(objs[i]) + leaves_list(objs, i + 1)
    }
}

/// All of `objs[i..]` have bounding boxes.
pub open spec fn boxed_list(objs: Vec<Object>, i: int) -> bool
    decreases objs, objs.len() - i,
{
    if i < 0 || i >= objs.len() {
        true
    } else {
        spec_box(objs[i]) is Some && boxed_list(objs, i + 1)
    }
}

/// All of `objs[i..]` have exact stored boxes.
pub open spec fn boxes_exact_list(objs: Vec<Object>, i: int) -> bool
    decreases objs, objs.len() - i,
{
    if i < 0 || i >= objs.len() {
        true
    } else {
        boxes_exact(objs[i]) && boxes_exact_list(objs, i + 1)
    }
}

proof fn lemma_boxes_exact_list_elem(objs: Vec<Object>, i: int, j: int)
    requires
        boxes_exact_list(objs, i),
        0 <= i <= j < objs.len(),
    ensures
        boxes_exact(objs[j]),
    decreases j - i,
{
    if i < j {
        lemma_boxes_exact_list_elem(objs, i + 1, j);
    }
}

proof fn lemma_boxed_list_elem(objs: Vec<Object>, i: int, j: int)
    requires
        boxed_list(objs, i),
        0 <= i <= j < objs.len(),
    ensures
        spec_box(objs[j]) is Some,
    decreases j - i,
{
    if i < j {
        lemma_boxed_list_elem(objs, i + 1, j);
    }
}

/// Rebuild the tail predicates from elementwise facts.
proof fn lemma_list_preds_from_forall(objs: Vec<Object>, i: int, time_0: i64, time_1: i64)
    requires
        0 <= i <= objs.len(),
        forall|j: int|
            i <= j < objs.len() ==> (#[trigger] objs[j]).wf() && objs[j].time_in_range_all(
            time_0, time_1) && spec_box(objs[j]) is Some && list_free(objs[j]) && boxes_exact(
            objs[j]),
    ensures
        wf_list(objs, i),
        times_match_list(objs, i, time_0, time_1),
        boxed_list(objs, i),
        list_free_list(objs, i),
        boxes_exact_list(objs, i),
    decreases objs.len() - i,
{
    if i < objs.len() {
        lemma_list_preds_from_forall(objs, i + 1, time_0, time_1);
    }
}

impl Object {
    /// The moving component, if any, covers exactly `[time_0, time_1]`
    /// (elementwise form of [`times_match`]).
    pub open spec fn time_in_range_all(self, time_0: i64, time_1: i64) -> bool {
        times_match(self, time_0, time_1)
    }
}

/// The sort key: the low corner of the object's box on the chosen axis.
pub open spec fn spec_key(o: Object, axis: int) -> int {
    let b = (spec_box(o)->0).0;
    if axis == 0 {
        b.x
    } else if axis == 1 {
        b.y
    } else {
        b.z
    }
}

/// Each object from `i` on is keyed no lower than each earlier one.
pub open spec fn sorted_by_key(s: Seq<Object>, axis: int) -> bool {
    forall|i: int, j: int|
        0 <= i < j < s.len() ==> spec_key(#[trigger] s[i], axis) <= spec_key(#[trigger] s[j],
        axis)
}

/// The sort key of one object.
fn key_of(o: &Object, axis: usize, time_0: i64, time_1: i64) -> (r: i64)
    requires
        o.wf(),
        times_match(*o, time_0, time_1),
        spec_box(*o) is Some,
        axis < 3,
        -COORD_MAX <= time_0 <= COORD_MAX,
        -COORD_MAX <= time_1 <= COORD_MAX,
    ensures
        r == spec_key(*o, axis as int),
{
    let bb = o.bounding_box(time_0, time_1);
    let b = match bb {
        Option::Some(b) => b,
        Option::None => {
            proof {
                assert(false);
            }
            AaBoundingBox::new(Point(Vec3 { x: 0, y: 0, z: 0 }), Point(
                Vec3 { x: 0, y: 0, z: 0 },
            ))
        },
    };
    b.minimum.0.get(axis)
}

/// No plain list occurs below the object: it is a primitive or a tree of
/// primitives.
pub open spec fn list_free(o: Object) -> bool
    decreases o,
{
    match o {
        Object::Sphere { .. } => true,
        Object::HittableList { .. } => false,
        Object::BVHNode { left, right, .. } => list_free(*left) && list_free(*right),
    }
}

/// All of `objs[i..]` are list-free.
pub open spec fn list_free_list(objs: Vec<Object>, i: int) -> bool
    decreases objs, objs.len() - i,
{
    if i < 0 || i >= objs.len() {
        true
    } else {
        list_free(objs[i]) && list_free_list(objs, i + 1)
    }
}

proof fn lemma_list_free_elem(objs: Vec<Object>, i: int, j: int)
    requires
        list_free_list(objs, i),
        0 <= i <= j < objs.len(),
    ensures
        list_free(objs[j]),
    decreases j - i,
{
    if i < j {
        lemma_list_free_elem(objs, i + 1, j);
    }
}

impl Object {
    /// A structural copy of a primitive or a tree of primitives.
    pub fn duplicate(&self) -> (r: Object)
        requires
            list_free(*self),
        ensures
            r == *self,
        decreases self,
    {
        match self {
            Object::Sphere { center, radius, material, moving_component } => Object::Sphere {
                center: *center,
                radius: *radius,
                material: *material,
                moving_component: *moving_component,
            },
            Object::HittableList { hittables } => {
                proof {
                    assert(false);
                }
                Object::HittableList { hittables: Vec::new() }
            },
            Object::BVHNode { left, right, bounding_box } => Object::BVHNode {
                left: Box::new(left.duplicate()),
                right: Box::new(right.duplicate()),
                bounding_box: *bounding_box,
            },
        }
    }
}

/// Sort objects by their box minimum on the chosen axis (selection order,
/// smallest first); the result is the same collection of objects.
fn sort_by_axis(objects: Vec<Object>, axis: usize, time_0: i64, time_1: i64) -> (res: Vec<
    Object>)
    requires
        wf_list(objects, 0),
        times_match_list(objects, 0, time_0, time_1),
        boxed_list(objects, 0),
        list_free_list(objects, 0),
        boxes_exact_list(objects, 0),
        axis < 3,
        -COORD_MAX <= time_0 <= COORD_MAX,
        -COORD_MAX <= time_1 <= COORD_MAX,
    ensures
        res@.to_multiset() == objects@.to_multiset(),
        res@.len() == objects@.len(),
        wf_list(res, 0),
        times_match_list(res, 0, time_0, time_1),
        boxed_list(res, 0),
        list_free_list(res, 0),
        boxes_exact_list(res, 0),
        sorted_by_key(res@, axis as int),
{
    let mut rest = objects;
    let mut out: Vec<Object> = Vec::new();
    proof {
        broadcast use vstd::multiset::group_multiset_axioms;

        out@.to_multiset_ensures();
        assert(out@.to_multiset().add(rest@.to_multiset()) =~= objects@.to_multiset());
        assert forall|j: int| 0 <= j < rest@.len() implies (#[trigger] rest@[j]).wf()
            && rest@[j].time_in_range_all(time_0, time_1) && spec_box(rest@[j]) is Some
            && list_free(rest@[j]) && boxes_exact(rest@[j]) by {
            lemma_wf_list_elem(rest, 0, j);
            lemma_times_list_elem(rest, 0, j, time_0, time_1);
            lemma_boxed_list_elem(rest, 0, j);
            lemma_list_free_elem(rest, 0, j);
            lemma_boxes_exact_list_elem(rest, 0, j);
        }
    }
    while rest.len() > 0
        invariant
            axis < 3,
            -COORD_MAX <= time_0 <= COORD_MAX,
            -COORD_MAX <= time_1 <= COORD_MAX,
            out@.to_multiset().add(rest@.to_multiset()) == objects@.to_multiset(),
            out@.len() + rest@.len() == objects@.len(),
            forall|j: int|
                0 <= j < out@.len() ==> (#[trigger] out@[j]).wf() && out@[j].time_in_range_all(
                time_0, time_1) && spec_box(out@[j]) is Some && list_free(out@[j])
                    && boxes_exact(out@[j]),
            forall|j: int|
                0 <= j < rest@.len() ==> (#[trigger] rest@[j]).wf()
                    && rest@[j].time_in_range_all(time_0, time_1) && spec_box(rest@[j])
                    is Some && list_free(rest@[j]) && boxes_exact(rest@[j]),
            sorted_by_key(out@, axis as int),
            forall|i: int, j: int|
                0 <= i < out@.len() && 0 <= j < rest@.len() ==> spec_key(#[trigger] out@[i],
                axis as int) <= spec_key(#[trigger] rest@[j], axis as int),
        decreases rest@.len(),
    {
        let mut m: usize = 0;
        let mut i: usize = 1;
        let mut best_key = key_of(&rest[0], axis, time_0, time_1);
        while i < rest.len()
            invariant
                axis < 3,
                -COORD_MAX <= time_0 <= COORD_MAX,
                -COORD_MAX <= time_1 <= COORD_MAX,
                forall|j: int|
                    0 <= j < rest@.len() ==> (#[trigger] rest@[j]).wf()
                        && rest@[j].time_in_range_all(time_0, time_1) && spec_box(rest@[j])
                        is Some && list_free(rest@[j]) && boxes_exact(rest@[j]),
                m < i <= rest@.len(),
                rest@.len() > 0,
                best_key == spec_key(rest@[m as int], axis as int),
                forall|j: int|
                    0 <= j < i ==> best_key <= spec_key(#[trigger] rest@[j], axis as int),
            decreases rest@.len() - i,
        {
            let k = key_of(&rest[i], axis, time_0, time_1);
            if k < best_key {
                m = i;
                best_key = k;
            }
            i = i + 1;
        }
        let ghost old_rest = rest@;
        let x = rest.remove(m);
        proof {
            old_rest.to_multiset_ensures();
            assert(rest@.to_multiset() =~= old_rest.to_multiset().remove(x));
            out@.to_multiset_ensures();
            assert(out@.push(x).to_multiset() =~= out@.to_multiset().insert(x));
            assert(out@.push(x).to_multiset().add(rest@.to_multiset())
                =~= out@.to_multiset().add(old_rest.to_multiset())) by {
                broadcast use vstd::multiset::group_multiset_axioms;

            }
            old_rest.remove_ensures(m as int);
        }
        out.push(x);
    }
    proof {
        broadcast use vstd::multiset::group_multiset_axioms;

        rest@.to_multiset_ensures();
        assert(rest@.to_multiset() =~= vstd::multiset::Multiset::<Object>::empty()) by {
            assert(rest@.to_multiset().len() == 0);
        }
        assert(out@.to_multiset() =~= objects@.to_multiset());
        lemma_list_preds_from_forall(out, 0, time_0, time_1);
    }
    out
}

/// Every stored box in a built tree is exactly the union of its
/// children's boxes (well-formedness alone only requires containment).
pub open spec fn boxes_exact(obj: Object) -> bool
    decreases obj,
{
    match obj {
        Object::Sphere { .. } => true,
        Object::HittableList { .. } => true,
        Object::BVHNode { left, right, bounding_box } => boxes_exact(*left) && boxes_exact(
        *right) && spec_box(*left) is Some && spec_box(*right) is Some && v3(
        bounding_box.minimum.0) == union_v(spec_box(*left)->0, spec_box(*right)->0).0 && v3(
        bounding_box.maximum.0) == union_v(spec_box(*left)->0, spec_box(*right)->0).1,
    }
}

/// Build one hierarchy node over a nonempty list-free collection.
fn build_bvh(objects: Vec<Object>, time_0: i64, time_1: i64, rng: &mut Random) -> (res: Object)
    requires
        objects@.len() >= 1,
        wf_list(objects, 0),
        times_match_list(objects, 0, time_0, time_1),
        boxed_list(objects, 0),
        list_free_list(objects, 0),
        boxes_exact_list(objects, 0),
        -COORD_MAX <= time_0 <= COORD_MAX,
        -COORD_MAX <= time_1 <= COORD_MAX,
    ensures
        res.wf(),
        times_match(res, time_0, time_1),
        spec_box(res) is Some,
        list_free(res),
        res is BVHNode,
        boxes_exact(res),
        crate::hit_equiv::same_results(res, objects),
        crate::hit_equiv::same_leaves(res, objects),
    decreases objects@.len(),
{
    let ghost orig = objects;
    let len = objects.len();
    let axis = rng.random_int_in(0, 2);
    if len == 1 {
        let mut objects = objects;
        let x = objects.pop().unwrap();
        proof {
            lemma_wf_list_elem(orig, 0, 0);
            lemma_times_list_elem(orig, 0, 0, time_0, time_1);
            lemma_boxed_list_elem(orig, 0, 0);
            lemma_list_free_elem(orig, 0, 0);
            lemma_boxes_exact_list_elem(orig, 0, 0);
        }
        let left = x.duplicate();
        let bb_opt = left.bounding_box(time_0, time_1);
        let bbl = bb_opt.unwrap();
        let bb = bbl.surrounding_box(&bbl);
        let node = Object::BVHNode {
            left: Box::new(left),
            right: Box::new(x),
            bounding_box: bb,
        };
        proof {
            lemma_one_leaf_results(node, orig, left, bb);
        }
        node
    } else {
        let sorted = sort_by_axis(objects, axis, time_0, time_1);
        let ghost sortedv = sorted;
        if len == 2 {
            let mut sorted = sorted;
            let right = sorted.pop().unwrap();
            let left = sorted.pop().unwrap();
            proof {
                lemma_wf_list_elem(sortedv, 0, 0);
                lemma_wf_list_elem(sortedv, 0, 1);
                lemma_times_list_elem(sortedv, 0, 0, time_0, time_1);
                lemma_times_list_elem(sortedv, 0, 1, time_0, time_1);
                lemma_boxed_list_elem(sortedv, 0, 0);
                lemma_boxed_list_elem(sortedv, 0, 1);
                lemma_list_free_elem(sortedv, 0, 0);
                lemma_list_free_elem(sortedv, 0, 1);
                lemma_boxes_exact_list_elem(sortedv, 0, 0);
                lemma_boxes_exact_list_elem(sortedv, 0, 1);
            }
            let bbl = left.bounding_box(time_0, time_1).unwrap();
            let bbr = right.bounding_box(time_0, time_1).unwrap();
            let bb = bbl.surrounding_box(&bbr);
            let node = Object::BVHNode {
                left: Box::new(left),
                right: Box::new(right),
                bounding_box: bb,
            };
            proof {
                lemma_two_leaf_results(node, orig, sortedv, left, right, bb);
            }
            node
        } else {
            let mut sorted = sorted;
            let mid = len / 2;
            let right_vec = sorted.split_off(mid);
            let ghost headv = sorted;
            let ghost tailv = right_vec;
            proof {
                assert(sortedv@ =~= headv@ + tailv@);
                assert forall|j: int| 0 <= j < headv@.len() implies (#[trigger] headv@[
                j]).wf() && headv@[j].time_in_range_all(time_0, time_1) && spec_box(headv@[j])
                    is Some && list_free(headv@[j]) && boxes_exact(headv@[j]) by {
                    lemma_wf_list_elem(sortedv, 0, j);
                    lemma_times_list_elem(sortedv, 0, j, time_0, time_1);
                    lemma_boxed_list_elem(sortedv, 0, j);
                    lemma_list_free_elem(sortedv, 0, j);
                    lemma_boxes_exact_list_elem(sortedv, 0, j);
                    assert(headv@[j] == sortedv@[j]);
                }
                lemma_list_preds_from_forall(headv, 0, time_0, time_1);
                assert forall|j: int| 0 <= j < tailv@.len() implies (#[trigger] tailv@[
                j]).wf() && tailv@[j].time_in_range_all(time_0, time_1) && spec_box(tailv@[j])
                    is Some && list_free(tailv@[j]) && boxes_exact(tailv@[j]) by {
                    lemma_wf_list_elem(sortedv, 0, j + mid);
                    lemma_times_list_elem(sortedv, 0, j + mid, time_0, time_1);
                    lemma_boxed_list_elem(sortedv, 0, j + mid);
                    lemma_list_free_elem(sortedv, 0, j + mid);
                    lemma_boxes_exact_list_elem(sortedv, 0, j + mid);
                    assert(tailv@[j] == sortedv@[j + mid]);
                }
                lemma_list_preds_from_forall(tailv, 0, time_0, time_1);
            }
            let left_node = build_bvh(sorted, time_0, time_1, rng);
            let right_node = build_bvh(right_vec, time_0, time_1, rng);
            let bbl = left_node.bounding_box(time_0, time_1).unwrap();
            let bbr = right_node.bounding_box(time_0, time_1).unwrap();
            let bb = bbl.surrounding_box(&bbr);
            let node = Object::BVHNode {
                left: Box::new(left_node),
                right: Box::new(right_node),
                bounding_box: bb,
            };
            proof {
                lemma_split_results(node, orig, sortedv, headv, tailv, left_node, right_node,
                    bb);
            }
            node
        }
    }
}

/// The degenerate one-object node: both children are the object.
proof fn lemma_one_leaf_results(node: Object, orig: Vec<Object>, left: Object,
    bb: AaBoundingBox)
    requires
        orig@.len() == 1,
        left == orig@[0],
        left.wf(),
        node == (Object::BVHNode {
            left: Box::new(left),
            right: Box::new(orig@[0]),
            bounding_box: bb,
        }),
        spec_box(left) is Some,
        bb.wf(),
        v3(bb.minimum.0) == (spec_box(left)->0).0,
        v3(bb.maximum.0) == (spec_box(left)->0).1,
    ensures
        crate::hit_equiv::same_results(node, orig),
        crate::hit_equiv::same_leaves(node, orig),
        contains_v(v3(bb.minimum.0), v3(bb.maximum.0), (spec_box(left)->0).0, (spec_box(
        left)->0).1),
{
    let lx = leaves(orig@[0]);
    assert(leaves(node) == lx + lx);
    assert(leaves_list(orig, 1) =~= Seq::<Object>::empty());
    assert(lx + Seq::<Object>::empty() =~= lx);
    assert(leaves_list(orig, 0) == lx);
    assert forall|y: Object|
        #![trigger leaves(node).contains(y)]
        #![trigger leaves_list(orig, 0).contains(y)]
        leaves(node).contains(y) == leaves_list(orig, 0).contains(y) by {
        crate::hit_equiv::lemma_contains_concat(lx, lx, y);
    }
    assert forall|ray: Ray, tminn: int, tmind: int, tmaxn: int, tmaxd: int|
        tmind > 0 && tmaxd > 0 implies #[trigger] crate::hit_equiv::opt_t_eq(
        crate::hit_equiv::fold_min(leaves(node), ray, tminn, tmind, tmaxn, tmaxd),
        crate::hit_equiv::fold_min(leaves_list(orig, 0), ray, tminn, tmind, tmaxn,
        tmaxd)) by {
        let lx = leaves(orig@[0]);
        assert(leaves(node) == lx + lx);
        crate::hit_equiv::lemma_fold_concat(lx, lx, ray, tminn, tmind, tmaxn, tmaxd);
        crate::hit_equiv::lemma_fold_den_pub(lx, ray, tminn, tmind, tmaxn, tmaxd);
        crate::hit_equiv::lemma_fold_den_pub(lx + lx, ray, tminn, tmind, tmaxn, tmaxd);
        assert(leaves_list(orig, 1) =~= Seq::<Object>::empty());
        assert(leaves_list(orig, 0) =~= lx);
    }
}

/// The two-object node.
proof fn lemma_two_leaf_results(node: Object, orig: Vec<Object>, sortedv: Vec<Object>,
    left: Object, right: Object, bb: AaBoundingBox)
    requires
        orig@.len() == 2,
        sortedv@.len() == 2,
        sortedv@.to_multiset() == orig@.to_multiset(),
        left == sortedv@[0],
        right == sortedv@[1],
        node == (Object::BVHNode {
            left: Box::new(left),
            right: Box::new(right),
            bounding_box: bb,
        }),
    ensures
        crate::hit_equiv::same_results(node, orig),
        crate::hit_equiv::same_leaves(node, orig),
{
    assert(leaves(node) == leaves(left) + leaves(right));
    assert(leaves_list(sortedv, 2) =~= Seq::<Object>::empty());
    assert(leaves_list(sortedv, 1) =~= leaves(right));
    assert(leaves_list(sortedv, 0) =~= leaves(left) + leaves(right));
    crate::hit_equiv::lemma_leaves_list_is_of(sortedv, 0);
    crate::hit_equiv::lemma_leaves_list_is_of(orig, 0);
    assert(sortedv@.skip(0) =~= sortedv@);
    assert(orig@.skip(0) =~= orig@);
    crate::hit_equiv::lemma_leaves_of_perm(sortedv@, orig@);
    crate::hit_equiv::lemma_mset_contains(leaves_list(sortedv, 0), leaves_list(orig, 0));
    assert forall|y: Object|
        #![trigger leaves(node).contains(y)]
        #![trigger leaves_list(orig, 0).contains(y)]
        leaves(node).contains(y) == leaves_list(orig, 0).contains(y) by {
        assert(leaves_list(sortedv, 0).contains(y) == leaves_list(orig, 0).contains(y));
    }
    assert forall|ray: Ray, tminn: int, tmind: int, tmaxn: int, tmaxd: int|
        tmind > 0 && tmaxd > 0 implies #[trigger] crate::hit_equiv::opt_t_eq(
        crate::hit_equiv::fold_min(leaves(node), ray, tminn, tmind, tmaxn, tmaxd),
        crate::hit_equiv::fold_min(leaves_list(orig, 0), ray, tminn, tmind, tmaxn,
        tmaxd)) by {
        assert(leaves(node) == leaves(left) + leaves(right));
        assert(leaves_list(sortedv, 2) =~= Seq::<Object>::empty());
        assert(leaves_list(sortedv, 1) =~= leaves(right));
        assert(leaves_list(sortedv, 0) =~= leaves(left) + leaves(right));
        crate::hit_equiv::lemma_leaves_list_is_of(sortedv, 0);
        crate::hit_equiv::lemma_leaves_list_is_of(orig, 0);
        assert(sortedv@.skip(0) =~= sortedv@);
        assert(orig@.skip(0) =~= orig@);
        crate::hit_equiv::lemma_leaves_of_perm(sortedv@, orig@);
        crate::hit_equiv::lemma_fold_perm_pub(leaves_list(sortedv, 0), leaves_list(orig, 0),
            ray, tminn, tmind, tmaxn, tmaxd);
        crate::hit_equiv::lemma_fold_den_pub(leaves(node), ray, tminn, tmind, tmaxn, tmaxd);
        crate::hit_equiv::lemma_fold_den_pub(leaves_list(sortedv, 0), ray, tminn, tmind,
            tmaxn, tmaxd);
        crate::hit_equiv::lemma_fold_den_pub(leaves_list(orig, 0), ray, tminn, tmind, tmaxn,
            tmaxd);
        crate::hit_equiv::lemma_opt_t_eq_trans_pub(crate::hit_equiv::fold_min(leaves(node),
            ray, tminn, tmind, tmaxn, tmaxd), crate::hit_equiv::fold_min(leaves_list(sortedv,
            0), ray, tminn, tmind, tmaxn, tmaxd), crate::hit_equiv::fold_min(leaves_list(
        orig, 0), ray, tminn, tmind, tmaxn, tmaxd));
    }
}

/// The recursive split node.
proof fn lemma_split_results(node: Object, orig: Vec<Object>, sortedv: Vec<Object>,
    headv: Vec<Object>, tailv: Vec<Object>, left_node: Object, right_node: Object,
    bb: AaBoundingBox)
    requires
        sortedv@.to_multiset() == orig@.to_multiset(),
        sortedv@ == headv@ + tailv@,
        crate::hit_equiv::same_results(left_node, headv),
        crate::hit_equiv::same_results(right_node, tailv),
        crate::hit_equiv::same_leaves(left_node, headv),
        crate::hit_equiv::same_leaves(right_node, tailv),
        node == (Object::BVHNode {
            left: Box::new(left_node),
            right: Box::new(right_node),
            bounding_box: bb,
        }),
    ensures
        crate::hit_equiv::same_results(node, orig),
        crate::hit_equiv::same_leaves(node, orig),
{
    assert(leaves(node) == leaves(left_node) + leaves(right_node));
    crate::hit_equiv::lemma_leaves_list_is_of(headv, 0);
    crate::hit_equiv::lemma_leaves_list_is_of(tailv, 0);
    crate::hit_equiv::lemma_leaves_list_is_of(sortedv, 0);
    crate::hit_equiv::lemma_leaves_list_is_of(orig, 0);
    assert(headv@.skip(0) =~= headv@);
    assert(tailv@.skip(0) =~= tailv@);
    assert(sortedv@.skip(0) =~= sortedv@);
    assert(orig@.skip(0) =~= orig@);
    crate::hit_equiv::lemma_leaves_of_concat(headv@, tailv@);
    assert(leaves_list(sortedv, 0) == leaves_list(headv, 0) + leaves_list(tailv, 0));
    crate::hit_equiv::lemma_leaves_of_perm(sortedv@, orig@);
    crate::hit_equiv::lemma_mset_contains(leaves_list(sortedv, 0), leaves_list(orig, 0));
    assert forall|y: Object|
        #![trigger leaves(node).contains(y)]
        #![trigger leaves_list(orig, 0).contains(y)]
        leaves(node).contains(y) == leaves_list(orig, 0).contains(y) by {
        crate::hit_equiv::lemma_contains_concat(leaves(left_node), leaves(right_node), y);
        crate::hit_equiv::lemma_contains_concat(leaves_list(headv, 0), leaves_list(tailv, 0),
            y);
        assert(leaves(left_node).contains(y) == leaves_list(headv, 0).contains(y));
        assert(leaves(right_node).contains(y) == leaves_list(tailv, 0).contains(y));
        assert(leaves_list(sortedv, 0).contains(y) == leaves_list(orig, 0).contains(y));
    }
    assert forall|ray: Ray, tminn: int, tmind: int, tmaxn: int, tmaxd: int|
        tmind > 0 && tmaxd > 0 implies #[trigger] crate::hit_equiv::opt_t_eq(
        crate::hit_equiv::fold_min(leaves(node), ray, tminn, tmind, tmaxn, tmaxd),
        crate::hit_equiv::fold_min(leaves_list(orig, 0), ray, tminn, tmind, tmaxn,
        tmaxd)) by {
        let fl = crate::hit_equiv::fold_min(leaves(left_node), ray, tminn, tmind, tmaxn,
            tmaxd);
        let fr = crate::hit_equiv::fold_min(leaves(right_node), ray, tminn, tmind, tmaxn,
            tmaxd);
        let fh = crate::hit_equiv::fold_min(leaves_list(headv, 0), ray, tminn, tmind, tmaxn,
            tmaxd);
        let ft = crate::hit_equiv::fold_min(leaves_list(tailv, 0), ray, tminn, tmind, tmaxn,
            tmaxd);
        assert(crate::hit_equiv::opt_t_eq(fl, fh));
        assert(crate::hit_equiv::opt_t_eq(fr, ft));
        assert(leaves(node) == leaves(left_node) + leaves(right_node));
        crate::hit_equiv::lemma_fold_concat(leaves(left_node), leaves(right_node), ray, tminn,
            tmind, tmaxn, tmaxd);
        crate::hit_equiv::lemma_leaves_list_is_of(headv, 0);
        crate::hit_equiv::lemma_leaves_list_is_of(tailv, 0);
        crate::hit_equiv::lemma_leaves_list_is_of(sortedv, 0);
        crate::hit_equiv::lemma_leaves_list_is_of(orig, 0);
        assert(headv@.skip(0) =~= headv@);
        assert(tailv@.skip(0) =~= tailv@);
        assert(sortedv@.skip(0) =~= sortedv@);
        assert(orig@.skip(0) =~= orig@);
        crate::hit_equiv::lemma_leaves_of_concat(headv@, tailv@);
        assert(leaves_list(sortedv, 0) == leaves_list(headv, 0) + leaves_list(tailv, 0));
        crate::hit_equiv::lemma_fold_concat(leaves_list(headv, 0), leaves_list(tailv, 0),
            ray, tminn, tmind, tmaxn, tmaxd);
        crate::hit_equiv::lemma_leaves_of_perm(sortedv@, orig@);
        crate::hit_equiv::lemma_fold_perm_pub(leaves_list(sortedv, 0), leaves_list(orig, 0),
            ray, tminn, tmind, tmaxn, tmaxd);
        crate::hit_equiv::lemma_fold_den_pub(leaves(node), ray, tminn, tmind, tmaxn, tmaxd);
        crate::hit_equiv::lemma_fold_den_pub(leaves(left_node), ray, tminn, tmind, tmaxn,
            tmaxd);
        crate::hit_equiv::lemma_fold_den_pub(leaves(right_node), ray, tminn, tmind, tmaxn,
            tmaxd);
        crate::hit_equiv::lemma_fold_den_pub(leaves_list(headv, 0), ray, tminn, tmind, tmaxn,
            tmaxd);
        crate::hit_equiv::lemma_fold_den_pub(leaves_list(tailv, 0), ray, tminn, tmind, tmaxn,
            tmaxd);
        crate::hit_equiv::lemma_fold_den_pub(leaves_list(sortedv, 0), ray, tminn, tmind,
            tmaxn, tmaxd);
        crate::hit_equiv::lemma_fold_den_pub(leaves_list(orig, 0), ray, tminn, tmind, tmaxn,
            tmaxd);
        let fn_ = crate::hit_equiv::fold_min(leaves(node), ray, tminn, tmind, tmaxn, tmaxd);
        let fs = crate::hit_equiv::fold_min(leaves_list(sortedv, 0), ray, tminn, tmind,
            tmaxn, tmaxd);
        let fo = crate::hit_equiv::fold_min(leaves_list(orig, 0), ray, tminn, tmind, tmaxn,
            tmaxd);
        crate::hit_equiv::lemma_rmin_cong(fl, fh, fr, ft);
        crate::hit_equiv::lemma_opt_t_eq_trans_pub(fn_, rmin(fl, fr), rmin(fh, ft));
        crate::hit_equiv::lemma_opt_t_eq_trans_pub(fn_, rmin(fh, ft), fs);
        crate::hit_equiv::lemma_opt_t_eq_trans_pub(fn_, fs, fo);
    }
}

impl Object {
    /// Build a bounding-volume hierarchy over a collection of primitives
    /// (or prebuilt nodes), for the shutter interval `[t_0, t_1]`.
    ///
    /// The partition axes are drawn from machine entropy, as the original
    /// construction did; [`Object::new_bvh_node_with`] takes a seedable
    /// source instead, for reproducible builds.  An empty collection and
    /// one holding an object without a bounding box are rejected.  The
    /// tree returns hits with exactly the same parameter as the plain
    /// list would, on every query.
    pub fn new_bvh_node(objects: Vec<Object>, t_0: i64, t_1: i64) -> (res: Result<Object,
        BuildError>)
        requires
            wf_list(objects, 0),
            times_match_list(objects, 0, t_0, t_1),
            list_free_list(objects, 0),
            boxes_exact_list(objects, 0),
            -COORD_MAX <= t_0 <= COORD_MAX,
            -COORD_MAX <= t_1 <= COORD_MAX,
        ensures
            res is Ok <==> objects@.len() > 0 && boxed_list(objects, 0),
            res is Ok ==> (res->Ok_0).wf() && times_match(res->Ok_0, t_0, t_1) && spec_box(
            res->Ok_0) is Some && res->Ok_0 is BVHNode && boxes_exact(res->Ok_0)
                && crate::hit_equiv::same_results(res->Ok_0, objects)
                && crate::hit_equiv::same_leaves(res->Ok_0, objects),
            res is Err ==> res->Err_0 == BuildError::EmptyScene || res->Err_0
                == BuildError::MissingBoundingBox,
            objects@.len() == 0 ==> res == Err::<Object, BuildError>(BuildError::EmptyScene),
    {
        let n = objects.len();
        if n == 0 {
            return Err(BuildError::EmptyScene);
        }
        let mut i: usize = 0;
        while i < n
            invariant
                n == objects@.len(),
                i <= n,
                wf_list(objects, 0),
                times_match_list(objects, 0, t_0, t_1),
                list_free_list(objects, 0),
                boxes_exact_list(objects, 0),
                -COORD_MAX <= t_0 <= COORD_MAX,
                -COORD_MAX <= t_1 <= COORD_MAX,
                forall|j: int| 0 <= j < i ==> spec_box(#[trigger] objects@[j]) is Some,
            decreases n - i,
        {
            proof {
                lemma_wf_list_elem(objects, 0, i as int);
                lemma_times_list_elem(objects, 0, i as int, t_0, t_1);
            }
            let bb = objects[i].bounding_box(t_0, t_1);
            if bb.is_none() {
                proof {
                    if boxed_list(objects, 0) {
                        lemma_boxed_list_elem(objects, 0, i as int);
                    }
                }
                return Err(BuildError::MissingBoundingBox);
            }
            i = i + 1;
        }
        proof {
            assert forall|j: int| 0 <= j < objects@.len() implies (#[trigger] objects@[
            j]).wf() && objects@[j].time_in_range_all(t_0, t_1) && spec_box(objects@[j])
                is Some && list_free(objects@[j]) && boxes_exact(objects@[j]) by {
                lemma_wf_list_elem(objects, 0, j);
                lemma_times_list_elem(objects, 0, j, t_0, t_1);
                lemma_list_free_elem(objects, 0, j);
                lemma_boxes_exact_list_elem(objects, 0, j);
            }
            lemma_list_preds_from_forall(objects, 0, t_0, t_1);
        }
        let mut rng = Random::new_random();
        Ok(build_bvh(objects, t_0, t_1, &mut rng))
    }

    /// Build a hierarchy like [`Object::new_bvh_node`], drawing the
    /// partition axes from the given seedable source: equal seeds give
    /// equal trees.
    pub fn new_bvh_node_with(objects: Vec<Object>, t_0: i64, t_1: i64, rng: &mut Random) -> (
        res: Result<Object, BuildError>)
        requires
            wf_list(objects, 0),
            times_match_list(objects, 0, t_0, t_1),
            list_free_list(objects, 0),
            boxes_exact_list(objects, 0),
            -COORD_MAX <= t_0 <= COORD_MAX,
            -COORD_MAX <= t_1 <= COORD_MAX,
        ensures
            res is Ok <==> objects@.len() > 0 && boxed_list(objects, 0),
            res is Ok ==> (res->Ok_0).wf() && times_match(res->Ok_0, t_0, t_1) && spec_box(
            res->Ok_0) is Some && res->Ok_0 is BVHNode && boxes_exact(res->Ok_0)
                && crate::hit_equiv::same_results(res->Ok_0, objects)
                && crate::hit_equiv::same_leaves(res->Ok_0, objects),
            res is Err ==> res->Err_0 == BuildError::EmptyScene || res->Err_0
                == BuildError::MissingBoundingBox,
            objects@.len() == 0 ==> res == Err::<Object, BuildError>(BuildError::EmptyScene),
    {
        let n = objects.len();
        if n == 0 {
            return Err(BuildError::EmptyScene);
        }
        let mut i: usize = 0;
        while i < n
            invariant
                n == objects@.len(),
                i <= n,
                wf_list(objects, 0),
                times_match_list(objects, 0, t_0, t_1),
                list_free_list(objects, 0),
                boxes_exact_list(objects, 0),
                -COORD_MAX <= t_0 <= COORD_MAX,
                -COORD_MAX <= t_1 <= COORD_MAX,
                forall|j: int| 0 <= j < i ==> spec_box(#[trigger] objects@[j]) is Some,
            decreases n - i,
        {
            proof {
                lemma_wf_list_elem(objects, 0, i as int);
                lemma_times_list_elem(objects, 0, i as int, t_0, t_1);
            }
            let bb = objects[i].bounding_box(t_0, t_1);
            if bb.is_none() {
                proof {
                    if boxed_list(objects, 0) {
                        lemma_boxed_list_elem(objects, 0, i as int);
                    }
                }
                return Err(BuildError::MissingBoundingBox);
            }
            i = i + 1;
        }
        proof {
            assert forall|j: int| 0 <= j < objects@.len() implies (#[trigger] objects@[
            j]).wf() && objects@[j].time_in_range_all(t_0, t_1) && spec_box(objects@[j])
                is Some && list_free(objects@[j]) && boxes_exact(objects@[j]) by {
                lemma_wf_list_elem(objects, 0, j);
                lemma_times_list_elem(objects, 0, j, t_0, t_1);
                lemma_list_free_elem(objects, 0, j);
                lemma_boxes_exact_list_elem(objects, 0, j);
            }
            lemma_list_preds_from_forall(objects, 0, t_0, t_1);
        }
        Ok(build_bvh(objects, t_0, t_1, rng))
    }
}

/// A ray from outside a sphere, aimed at it: when the quarter
/// discriminant is positive (the closest approach passes inside the
/// sphere) and the smaller root is admitted by the window, the protocol
/// accepts exactly the smaller root; that root is a strictly positive
/// parameter, and the exact hit point lies on the sphere up to the
/// square-root rounding: scaled by the squared direction length `a`,
/// `0 <= (r a)^2 - |P - C|^2 <= 2 s a` where `s` is the rounded root of
/// the discriminant.
pub proof fn lemma_sphere_entry_hit(c: V3, radius: int, ray: Ray, tminn: int, tmind: int,
    tmaxn: int, tmaxd: int)
    requires
        tmind > 0,
        tmaxd > 0,
        sph_a(ray) > 0,
        radius > 0,
        sph_cc(ray, c, radius) > 0,
        sph_hb(ray, c) < 0,
        sph_disc(ray, c, radius) > 0,
        in_window_i(tminn, tmind, tmaxn, tmaxd, -sph_hb(ray, c) - crate::num::sqrt_spec(
            sph_disc(ray, c, radius)), sph_a(ray)),
    ensures
        ({
            let a = sph_a(ray);
            let hb = sph_hb(ray, c);
            let disc = sph_disc(ray, c, radius);
            let s = crate::num::sqrt_spec(disc);
            let tn = -hb - s;
            let p = subv(scalev(a, sph_oc(ray, c)), scalev(-tn, v3(ray.direction)));
            sphere_root(c, radius, ray, tminn, tmind, tmaxn, tmaxd) == Some((tn, a)) && tn > 0
                && 0 <= (radius * a) * (radius * a) - dotv(p, p) <= a * (2 * s)
        }),
{
    let a = sph_a(ray);
    let hb = sph_hb(ray, c);
    let cval = sph_cc(ray, c, radius);
    let disc = sph_disc(ray, c, radius);
    let s0 = crate::hit_equiv::lemma_sqrt_exists(disc);
    crate::num::lemma_sqrt_spec(s0, disc);
    let s = crate::num::sqrt_spec(disc);
    let tn = -hb - s;
    assert(s < -hb && tn > 0) by (nonlinear_arith)
        requires
            s >= 0,
            s * s <= disc,
            disc == hb * hb - a * cval,
            a > 0,
            cval > 0,
            hb < 0,
            tn == -hb - s,
    ;
    let oc = sph_oc(ray, c);
    let d = v3(ray.direction);
    let p = subv(scalev(a, oc), scalev(-tn, d));
    lemma_dot_sub_expand(a, oc, -tn, d);
    assert(-(2 * ((a * (-tn)) * hb)) == 2 * ((a * tn) * hb)) by (nonlinear_arith);
    assert(((-tn) * (-tn)) * a == (tn * tn) * a) by (nonlinear_arith);
    assert(dotv(p, p) == (a * a) * dotv(oc, oc) + 2 * ((a * tn) * hb) + (tn * tn) * a);
    assert((a * a) * dotv(oc, oc) == (a * a) * cval + (a * a) * (radius * radius))
        by (nonlinear_arith)
        requires
            dotv(oc, oc) == cval + radius * radius,
    ;
    assert((a * a) * cval + 2 * ((a * tn) * hb) + (tn * tn) * a == a * (tn * tn + 2 * (hb
        * tn) + a * cval)) by (nonlinear_arith);
    assert(tn * tn + 2 * (hb * tn) + a * cval == s * s - disc) by (nonlinear_arith)
        requires
            tn == -hb - s,
            disc == hb * hb - a * cval,
    ;
    assert((a * a) * (radius * radius) == (radius * a) * (radius * a)) by (nonlinear_arith);
    assert(0 <= disc - s * s <= 2 * s) by (nonlinear_arith)
        requires
            s >= 0,
            s * s <= disc,
            disc < (s + 1) * (s + 1),
    ;
    assert((radius * a) * (radius * a) - dotv(p, p) == a * (disc - s * s)) by (nonlinear_arith)
        requires
            dotv(p, p) == (radius * a) * (radius * a) + a * (s * s - disc),
    ;
    assert(0 <= a * (disc - s * s) <= a * (2 * s)) by (nonlinear_arith)
        requires
            a > 0,
            0 <= disc - s * s <= 2 * s,
    ;
}

} // verus!
