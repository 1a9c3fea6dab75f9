//! The hierarchy traversal computes the nearest hit.
//!
//! [`best_t`] is the semantic answer: the least accepted sphere-root among
//! all leaves, each evaluated against the full query window.  The lemmas
//! here culminate in [`lemma_hit_is_best`]: the traversal that `hit`
//! performs --- box pruning plus window narrowing --- returns exactly that
//! parameter, and [`lemma_bvh_equiv_list`]: any two well-formed aggregates
//! over the same multiset of spheres agree on every query.

use vstd::prelude::*;

use crate::aabb::{in_window_i, slab_ok_v, spec_slab_hit_i, contains_v, lemma_slab_relax};
use crate::geom::{v3, V3};
use crate::object::{abs_i, best_t, best_t_list, center_at_time, leaves, leaf_root, opt_t,
    rmin, spec_box, spec_box_list, spec_hit, spec_hit_list, sphere_root, sph_a, sph_hb,
    sph_disc, union_v, wf_list, time_in_range_list, HitSpec, Object};
use crate::rat::{frac_eq, frac_le, lemma_frac_eq_le, lemma_frac_le_total, lemma_frac_le_trans};
use crate::ray::Ray;

verus! {

/// Both nothing, or equal parameter values.
pub open spec fn opt_t_eq(a: Option<(int, int)>, b: Option<(int, int)>) -> bool {
    match (a, b) {
        (Option::None, Option::None) => true,
        (Option::Some(x), Option::Some(y)) => frac_eq(x.0, x.1, y.0, y.1),
        _ => false,
    }
}

/// A sphere root is in its query window and has a positive denominator.
pub proof fn lemma_root_in_window(c: V3, radius: int, ray: Ray, tminn: int, tmind: int,
    tmaxn: int, tmaxd: int)
    ensures
        match sphere_root(c, radius, ray, tminn, tmind, tmaxn, tmaxd) {
            Option::Some(t) => in_window_i(tminn, tmind, tmaxn, tmaxd, t.0, t.1) && t.1 > 0,
            Option::None => true,
        },
{
}

/// A best parameter is in its query window and has a positive denominator.
pub proof fn lemma_best_in_window(obj: Object, ray: Ray, tminn: int, tmind: int, tmaxn: int,
    tmaxd: int)
    ensures
        match best_t(obj, ray, tminn, tmind, tmaxn, tmaxd) {
            Option::Some(t) => in_window_i(tminn, tmind, tmaxn, tmaxd, t.0, t.1) && t.1 > 0,
            Option::None => true,
        },
    decreases obj, 0int,
{
    match obj {
        Object::Sphere { center, radius, moving_component, .. } => {
            lemma_root_in_window(center_at_time(center, moving_component, ray.time),
                radius as int, ray, tminn, tmind, tmaxn, tmaxd);
        },
        Object::HittableList { hittables } => {
            lemma_best_list_in_window(hittables, 0, ray, tminn, tmind, tmaxn, tmaxd);
        },
        Object::BVHNode { left, right, .. } => {
            lemma_best_in_window(*left, ray, tminn, tmind, tmaxn, tmaxd);
            lemma_best_in_window(*right, ray, tminn, tmind, tmaxn, tmaxd);
        },
    }
}

pub proof fn lemma_best_list_in_window(objs: Vec<Object>, i: int, ray: Ray, tminn: int,
    tmind: int, tmaxn: int, tmaxd: int)
    ensures
        match best_t_list(objs, i, ray, tminn, tmind, tmaxn, tmaxd) {
            Option::Some(t) => in_window_i(tminn, tmind, tmaxn, tmaxd, t.0, t.1) && t.1 > 0,
            Option::None => true,
        },
    decreases objs, objs.len() - i,
{
    if 0 <= i < objs.len() {
        lemma_best_in_window(objs[i], ray, tminn, tmind, tmaxn, tmaxd);
        lemma_best_list_in_window(objs, i + 1, ray, tminn, tmind, tmaxn, tmaxd);
    }
}

/// How a sphere root behaves when the window's upper end shrinks from `v`
/// to `u`: a root at or below `u` survives unchanged; anything else
/// disappears.
pub proof fn lemma_root_window(c: V3, radius: int, ray: Ray, tminn: int, tmind: int, un: int,
    ud: int, vn: int, vd: int)
    requires
        tmind > 0,
        ud > 0,
        vd > 0,
        frac_le(un, ud, vn, vd),
    ensures
        match sphere_root(c, radius, ray, tminn, tmind, vn, vd) {
            Option::Some(t) => {
                if frac_le(t.0, t.1, un, ud) {
                    sphere_root(c, radius, ray, tminn, tmind, un, ud) == Some(t)
                } else {
                    sphere_root(c, radius, ray, tminn, tmind, un, ud) is None
                }
            },
            Option::None => sphere_root(c, radius, ray, tminn, tmind, un, ud) is None,
        },
{
    let a = sph_a(ray);
    let disc = sph_disc(ray, c, radius);
    if a > 0 && disc >= 0 {
        let hb = sph_hb(ray, c);
        let s = crate::num::sqrt_spec(disc);
        let r1 = -hb - s;
        let r2 = -hb + s;
        let s0 = lemma_sqrt_exists(disc);
        crate::num::lemma_sqrt_spec(s0, disc);
        assert(crate::num::is_sqrt(s, disc));
        assert(frac_le(r1, a, r2, a)) by (nonlinear_arith)
            requires
                a > 0,
                r1 <= r2,
        ;
        // in the u window implies in the v window, for each root
        if frac_le(tminn, tmind, r1, a) && frac_le(r1, a, un, ud) {
            lemma_frac_le_trans(r1, a, un, ud, vn, vd);
        }
        if frac_le(tminn, tmind, r2, a) && frac_le(r2, a, un, ud) {
            lemma_frac_le_trans(r2, a, un, ud, vn, vd);
        }
        lemma_frac_le_total(r1, a, un, ud);
        lemma_frac_le_total(r2, a, un, ud);
        if !frac_le(r1, a, un, ud) && frac_le(r2, a, un, ud) {
            lemma_frac_le_trans(r1, a, r2, a, un, ud);
        }
    }
}

/// A witness integer square root for a nonnegative argument.
pub proof fn lemma_sqrt_exists(x: int) -> (r: int)
    requires
        x >= 0,
    ensures
        crate::num::is_sqrt(r, x),
    decreases x,
{
    if x == 0 {
        assert(crate::num::is_sqrt(0, 0));
        0
    } else {
        let r = lemma_sqrt_exists(x - 1);
        if (r + 1) * (r + 1) <= x {
            assert(x <= (r + 1) * (r + 1)) by (nonlinear_arith)
                requires
                    x - 1 < (r + 1) * (r + 1),
            ;
            assert(crate::num::is_sqrt(r + 1, x)) by (nonlinear_arith)
                requires
                    r >= 0,
                    (r + 1) * (r + 1) == x,
            ;
            r + 1
        } else {
            assert(crate::num::is_sqrt(r, x));
            r
        }
    }
}

/// Equal parameter values produce equal minima.
pub proof fn lemma_rmin_cong(a: Option<(int, int)>, a2: Option<(int, int)>, b: Option<(
    int, int)>, b2: Option<(int, int)>)
    requires
        opt_t_eq(a, a2),
        opt_t_eq(b, b2),
        a is Some ==> (a->0).1 > 0,
        a2 is Some ==> (a2->0).1 > 0,
        b is Some ==> (b->0).1 > 0,
        b2 is Some ==> (b2->0).1 > 0,
    ensures
        opt_t_eq(rmin(a, b), rmin(a2, b2)),
{
    if a is Some && b is Some {
        let x = a->0;
        let x2 = a2->0;
        let y = b->0;
        let y2 = b2->0;
        lemma_frac_eq_le(y.0, y.1, y2.0, y2.1, x.0, x.1);
        lemma_frac_eq_le(x.0, x.1, x2.0, x2.1, y2.0, y2.1);
        assert(frac_le(y.0, y.1, x.0, x.1) == frac_le(y2.0, y2.1, x2.0, x2.1));
    }
}

/// The conclusion of [`lemma_best_window`] for a combination of two parts,
/// from the same conclusion for each part.
proof fn lemma_rmin_window(av: Option<(int, int)>, au: Option<(int, int)>, bv: Option<(
    int, int)>, bu: Option<(int, int)>, un: int, ud: int)
    requires
        ud > 0,
        av is Some ==> (av->0).1 > 0,
        bv is Some ==> (bv->0).1 > 0,
        match av {
            Option::Some(t) => {
                if frac_le(t.0, t.1, un, ud) {
                    au == Some(t)
                } else {
                    au is None
                }
            },
            Option::None => au is None,
        },
        match bv {
            Option::Some(t) => {
                if frac_le(t.0, t.1, un, ud) {
                    bu == Some(t)
                } else {
                    bu is None
                }
            },
            Option::None => bu is None,
        },
    ensures
        match rmin(av, bv) {
            Option::Some(t) => {
                if frac_le(t.0, t.1, un, ud) {
                    rmin(au, bu) == Some(t)
                } else {
                    rmin(au, bu) is None
                }
            },
            Option::None => rmin(au, bu) is None,
        },
{
    if av is Some && bv is Some {
        let x = av->0;
        let y = bv->0;
        lemma_frac_le_total(y.0, y.1, x.0, x.1);
        if frac_le(y.0, y.1, x.0, x.1) {
            // the minimum is y
            if !frac_le(y.0, y.1, un, ud) {
                // x cannot fit under u either
                if frac_le(x.0, x.1, un, ud) {
                    lemma_frac_le_trans(y.0, y.1, x.0, x.1, un, ud);
                }
            }
        } else {
            // the minimum is x, and x <= y strictly
            if !frac_le(x.0, x.1, un, ud) {
                if frac_le(y.0, y.1, un, ud) {
                    lemma_frac_le_trans(x.0, x.1, y.0, y.1, un, ud);
                }
            }
        }
    }
}

/// How the best parameter behaves when the window's upper end shrinks
/// from `v` to `u`: a best at or below `u` survives unchanged; anything
/// else leaves no hit at all.
pub proof fn lemma_best_window(obj: Object, ray: Ray, tminn: int, tmind: int, un: int, ud: int,
    vn: int, vd: int)
    requires
        tmind > 0,
        ud > 0,
        vd > 0,
        frac_le(un, ud, vn, vd),
    ensures
        match best_t(obj, ray, tminn, tmind, vn, vd) {
            Option::Some(t) => {
                if frac_le(t.0, t.1, un, ud) {
                    best_t(obj, ray, tminn, tmind, un, ud) == Some(t)
                } else {
                    best_t(obj, ray, tminn, tmind, un, ud) is None
                }
            },
            Option::None => best_t(obj, ray, tminn, tmind, un, ud) is None,
        },
    decreases obj, 0int,
{
    match obj {
        Object::Sphere { center, radius, moving_component, .. } => {
            lemma_root_window(center_at_time(center, moving_component, ray.time),
                radius as int, ray, tminn, tmind, un, ud, vn, vd);
        },
        Object::HittableList { hittables } => {
            lemma_best_list_window(hittables, 0, ray, tminn, tmind, un, ud, vn, vd);
        },
        Object::BVHNode { left, right, .. } => {
            lemma_best_window(*left, ray, tminn, tmind, un, ud, vn, vd);
            lemma_best_window(*right, ray, tminn, tmind, un, ud, vn, vd);
            lemma_best_in_window(*left, ray, tminn, tmind, vn, vd);
            lemma_best_in_window(*right, ray, tminn, tmind, vn, vd);
            lemma_rmin_window(best_t(*left, ray, tminn, tmind, vn, vd), best_t(*left, ray,
                tminn, tmind, un, ud), best_t(*right, ray, tminn, tmind, vn, vd), best_t(
                *right, ray, tminn, tmind, un, ud), un, ud);
        },
    }
}

pub proof fn lemma_best_list_window(objs: Vec<Object>, i: int, ray: Ray, tminn: int,
    tmind: int, un: int, ud: int, vn: int, vd: int)
    requires
        tmind > 0,
        ud > 0,
        vd > 0,
        frac_le(un, ud, vn, vd),
    ensures
        match best_t_list(objs, i, ray, tminn, tmind, vn, vd) {
            Option::Some(t) => {
                if frac_le(t.0, t.1, un, ud) {
                    best_t_list(objs, i, ray, tminn, tmind, un, ud) == Some(t)
                } else {
                    best_t_list(objs, i, ray, tminn, tmind, un, ud) is None
                }
            },
            Option::None => best_t_list(objs, i, ray, tminn, tmind, un, ud) is None,
        },
    decreases objs, objs.len() - i,
{
    if 0 <= i < objs.len() {
        lemma_best_window(objs[i], ray, tminn, tmind, un, ud, vn, vd);
        lemma_best_list_window(objs, i + 1, ray, tminn, tmind, un, ud, vn, vd);
        lemma_best_in_window(objs[i], ray, tminn, tmind, vn, vd);
        lemma_best_list_in_window(objs, i + 1, ray, tminn, tmind, vn, vd);
        lemma_rmin_window(best_t(objs[i], ray, tminn, tmind, vn, vd), best_t(objs[i], ray,
            tminn, tmind, un, ud), best_t_list(objs, i + 1, ray, tminn, tmind, vn, vd),
            best_t_list(objs, i + 1, ray, tminn, tmind, un, ud), un, ud);
    }
}

/// A point within `r_abs` of the center satisfies the axis constraint of
/// the center's box.
proof fn lemma_axis_from_center(o: int, d: int, cc: int, r_abs: int, tn: int, td: int)
    requires
        td > 0,
        -(r_abs * td) <= (o - cc) * td + tn * d <= r_abs * td,
    ensures
        crate::aabb::axis_ok(cc - r_abs, cc + r_abs, o, d, tn, td),
{
    assert((cc - r_abs) * td == cc * td - r_abs * td && (cc + r_abs) * td == cc * td + r_abs
        * td && (o - cc) * td == o * td - cc * td) by (nonlinear_arith);
}

/// The union range contains both argument ranges.
proof fn lemma_union_v_contains(a: (V3, V3), b: (V3, V3))
    ensures
        contains_v(union_v(a, b).0, union_v(a, b).1, a.0, a.1),
        contains_v(union_v(a, b).0, union_v(a, b).1, b.0, b.1),
{
}

/// Wherever the semantic best parameter hits, the object's box accepts it:
/// boxes never prune a real intersection.
pub proof fn lemma_best_covered(obj: Object, ray: Ray, tminn: int, tmind: int, tmaxn: int,
    tmaxd: int)
    requires
        obj.wf(),
        obj.time_in_range(ray.time),
        spec_box(obj) is Some,
    ensures
        match best_t(obj, ray, tminn, tmind, tmaxn, tmaxd) {
            Option::Some(t) => slab_ok_v((spec_box(obj)->0).0, (spec_box(obj)->0).1, ray, t.0,
                t.1),
            Option::None => true,
        },
    decreases obj, 0int,
{
    match obj {
        Object::Sphere { center, radius, moving_component, .. } => {
            let c = center_at_time(center, moving_component, ray.time);
            let rt = sphere_root(c, radius as int, ray, tminn, tmind, tmaxn, tmaxd);
            if rt is Some {
                let t = rt->0;
                let a = sph_a(ray);
                let hb = sph_hb(ray, c);
                let cval = crate::object::sph_cc(ray, c, radius as int);
                let disc = sph_disc(ray, c, radius as int);
                let s = crate::num::sqrt_spec(disc);
                let s0 = lemma_sqrt_exists(disc);
                crate::num::lemma_sqrt_spec(s0, disc);
                crate::object::lemma_root_on_sphere(hb, a, cval, s, t.0);
                crate::object::lemma_point_in_box(c, radius as int, ray, t.0, t.1);
                let r_abs = abs_i(radius as int);
                lemma_axis_from_center(ray.origin.0.x as int, ray.direction.x as int, c.x,
                    r_abs, t.0, t.1);
                lemma_axis_from_center(ray.origin.0.y as int, ray.direction.y as int, c.y,
                    r_abs, t.0, t.1);
                lemma_axis_from_center(ray.origin.0.z as int, ray.direction.z as int, c.z,
                    r_abs, t.0, t.1);
                let tight_lo = V3 { x: c.x - r_abs, y: c.y - r_abs, z: c.z - r_abs };
                let tight_hi = V3 { x: c.x + r_abs, y: c.y + r_abs, z: c.z + r_abs };
                assert(slab_ok_v(tight_lo, tight_hi, ray, t.0, t.1));
                match moving_component {
                    Option::None => {
                        assert(c == v3(center.0));
                    },
                    Option::Some(m) => {
                        crate::object::lemma_interp_bounds(m.center_0.0.x as int,
                            m.center_1.0.x as int, m.time_0 as int, m.time_1 as int,
                            ray.time as int);
                        crate::object::lemma_interp_bounds(m.center_0.0.y as int,
                            m.center_1.0.y as int, m.time_0 as int, m.time_1 as int,
                            ray.time as int);
                        crate::object::lemma_interp_bounds(m.center_0.0.z as int,
                            m.center_1.0.z as int, m.time_0 as int, m.time_1 as int,
                            ray.time as int);
                        lemma_slab_relax((spec_box(obj)->0).0, (spec_box(obj)->0).1, tight_lo,
                            tight_hi, ray, t.0, t.1);
                    },
                }
            }
        },
        Object::HittableList { hittables } => {
            lemma_best_list_covered(hittables, 0, ray, tminn, tmind, tmaxn, tmaxd);
        },
        Object::BVHNode { left, right, bounding_box } => {
            let bl = best_t(*left, ray, tminn, tmind, tmaxn, tmaxd);
            let br = best_t(*right, ray, tminn, tmind, tmaxn, tmaxd);
            lemma_best_covered(*left, ray, tminn, tmind, tmaxn, tmaxd);
            lemma_best_covered(*right, ray, tminn, tmind, tmaxn, tmaxd);
            lemma_best_in_window(*left, ray, tminn, tmind, tmaxn, tmaxd);
            lemma_best_in_window(*right, ray, tminn, tmind, tmaxn, tmaxd);
            if rmin(bl, br) is Some {
                let t = rmin(bl, br)->0;
                if bl is Some && rmin(bl, br) == bl {
                    lemma_slab_relax(v3(bounding_box.minimum.0), v3(bounding_box.maximum.0), (
                    spec_box(*left)->0).0, (spec_box(*left)->0).1, ray, t.0, t.1);
                }
                if br is Some && rmin(bl, br) == br {
                    lemma_slab_relax(v3(bounding_box.minimum.0), v3(bounding_box.maximum.0), (
                    spec_box(*right)->0).0, (spec_box(*right)->0).1, ray, t.0, t.1);
                }
            }
        },
    }
}

pub proof fn lemma_best_list_covered(objs: Vec<Object>, i: int, ray: Ray, tminn: int,
    tmind: int, tmaxn: int, tmaxd: int)
    requires
        wf_list(objs, i),
        time_in_range_list(objs, i, ray.time),
        spec_box_list(objs, i) is Some,
    ensures
        match best_t_list(objs, i, ray, tminn, tmind, tmaxn, tmaxd) {
            Option::Some(t) => slab_ok_v((spec_box_list(objs, i)->0).0, (spec_box_list(objs,
                i)->0).1, ray, t.0, t.1),
            Option::None => true,
        },
    decreases objs, objs.len() - i,
{
    let bi = best_t(objs[i], ray, tminn, tmind, tmaxn, tmaxd);
    lemma_best_covered(objs[i], ray, tminn, tmind, tmaxn, tmaxd);
    lemma_best_in_window(objs[i], ray, tminn, tmind, tmaxn, tmaxd);
    if i == objs.len() - 1 {
    } else {
        let rest = best_t_list(objs, i + 1, ray, tminn, tmind, tmaxn, tmaxd);
        lemma_best_list_covered(objs, i + 1, ray, tminn, tmind, tmaxn, tmaxd);
        lemma_best_list_in_window(objs, i + 1, ray, tminn, tmind, tmaxn, tmaxd);
        let bx = spec_box(objs[i])->0;
        let rx = spec_box_list(objs, i + 1)->0;
        lemma_union_v_contains(bx, rx);
        if rmin(bi, rest) is Some {
            let t = rmin(bi, rest)->0;
            if bi is Some && rmin(bi, rest) == bi {
                lemma_slab_relax(union_v(bx, rx).0, union_v(bx, rx).1, bx.0, bx.1, ray, t.0,
                    t.1);
            }
            if rest is Some && rmin(bi, rest) == rest {
                lemma_slab_relax(union_v(bx, rx).0, union_v(bx, rx).1, rx.0, rx.1, ray, t.0,
                    t.1);
            }
        }
    }
}

/// Equality of parameter values is transitive.
pub proof fn lemma_opt_t_eq_trans_pub(a: Option<(int, int)>, b: Option<(int, int)>, c: Option<(
    int, int)>)
    requires
        opt_t_eq(a, b),
        opt_t_eq(b, c),
        a is Some ==> (a->0).1 > 0,
        b is Some ==> (b->0).1 > 0,
        c is Some ==> (c->0).1 > 0,
    ensures
        opt_t_eq(a, c),
{
    if a is Some {
        let x = a->0;
        let y = b->0;
        let z = c->0;
        lemma_frac_le_trans(x.0, x.1, y.0, y.1, z.0, z.1);
        lemma_frac_le_trans(z.0, z.1, y.0, y.1, x.0, x.1);
    }
}

/// The scan from index `i` extends the best record exactly as the
/// semantic minimum over the remaining objects does.
pub proof fn lemma_hit_list_fold(objs: Vec<Object>, i: int, ray: Ray, tminn: int, tmind: int,
    tmaxn: int, tmaxd: int, best: Option<HitSpec>)
    requires
        tmind > 0,
        tmaxd > 0,
        wf_list(objs, i),
        time_in_range_list(objs, i, ray.time),
        match best {
            Option::None => true,
            Option::Some(b) => b.td > 0 && frac_le(b.tn, b.td, tmaxn, tmaxd) && frac_le(tminn,
                tmind, b.tn, b.td),
        },
    ensures
        opt_t_eq(opt_t(spec_hit_list(objs, i, ray, tminn, tmind, tmaxn, tmaxd, best)), rmin(
            opt_t(best), best_t_list(objs, i, ray, tminn, tmind, tmaxn, tmaxd))),
        match spec_hit_list(objs, i, ray, tminn, tmind, tmaxn, tmaxd, best) {
            Option::Some(h) => h.td > 0 && in_window_i(tminn, tmind, tmaxn, tmaxd, h.tn, h.td),
            Option::None => true,
        },
    decreases objs, objs.len() - i,
{
    if i < 0 || i >= objs.len() {
    } else {
        let curn = match best {
            Option::None => tmaxn,
            Option::Some(b) => b.tn,
        };
        let curd = match best {
            Option::None => tmaxd,
            Option::Some(b) => b.td,
        };
        lemma_hit_is_best(objs[i], ray, tminn, tmind, curn, curd);
        lemma_best_window(objs[i], ray, tminn, tmind, curn, curd, tmaxn, tmaxd);
        lemma_best_in_window(objs[i], ray, tminn, tmind, tmaxn, tmaxd);
        lemma_best_list_in_window(objs, i + 1, ray, tminn, tmind, tmaxn, tmaxd);
        let child = spec_hit(objs[i], ray, tminn, tmind, curn, curd);
        let bi = best_t(objs[i], ray, tminn, tmind, tmaxn, tmaxd);
        let bt_rest = best_t_list(objs, i + 1, ray, tminn, tmind, tmaxn, tmaxd);
        match child {
            Option::None => {
                lemma_hit_list_fold(objs, i + 1, ray, tminn, tmind, tmaxn, tmaxd, best);
                if bi is Some {
                    let tb = bi->0;
                    if best is None {
                        assert(false);
                    } else {
                        let b = best->0;
                        lemma_frac_le_total(tb.0, tb.1, b.tn, b.td);
                        if bt_rest is Some {
                            let tc = bt_rest->0;
                            if !frac_le(tc.0, tc.1, tb.0, tb.1) {
                                if frac_le(tc.0, tc.1, b.tn, b.td) {
                                    lemma_frac_le_trans(tc.0, tc.1, b.tn, b.td, tb.0, tb.1);
                                }
                            }
                        }
                    }
                }
            },
            Option::Some(h) => {
                let hv = (h.tn as int, h.td as int);
                let tb = bi->0;
                assert(bi is Some && frac_le(tb.0, tb.1, curn, curd) && frac_eq(h.tn, h.td,
                    tb.0, tb.1));
                lemma_frac_eq_le(h.tn, h.td, tb.0, tb.1, tmaxn, tmaxd);
                lemma_frac_eq_le(h.tn, h.td, tb.0, tb.1, tminn, tmind);
                lemma_hit_list_fold(objs, i + 1, ray, tminn, tmind, tmaxn, tmaxd, Some(h));
                let res = spec_hit_list(objs, i + 1, ray, tminn, tmind, tmaxn, tmaxd, Some(h));
                match best {
                    Option::None => {
                        lemma_rmin_cong(Some(hv), Some(tb), bt_rest, bt_rest);
                        lemma_opt_t_eq_trans_pub(opt_t(res), rmin(Some(hv), bt_rest), rmin(Some(
                        tb), bt_rest));
                    },
                    Option::Some(b) => {
                        match bt_rest {
                            Option::None => {},
                            Option::Some(tc) => {
                                lemma_frac_eq_le(h.tn, h.td, tb.0, tb.1, tc.0, tc.1);
                                if frac_le(tc.0, tc.1, tb.0, tb.1) {
                                    lemma_frac_le_trans(tc.0, tc.1, tb.0, tb.1, b.tn, b.td);
                                }
                            },
                        }
                        lemma_opt_t_eq_trans_pub(opt_t(res), rmin(Some(hv), bt_rest), rmin(opt_t(
                        best), rmin(bi, bt_rest)));
                    },
                }
            },
        }
    }
}

/// The traversal `hit` performs returns exactly the least accepted root
/// among the spheres below the object: box pruning and window narrowing
/// lose nothing and invent nothing.
pub proof fn lemma_hit_is_best(obj: Object, ray: Ray, tminn: int, tmind: int, tmaxn: int,
    tmaxd: int)
    requires
        obj.wf(),
        obj.time_in_range(ray.time),
        tmind > 0,
        tmaxd > 0,
    ensures
        opt_t_eq(opt_t(spec_hit(obj, ray, tminn, tmind, tmaxn, tmaxd)), best_t(obj, ray, tminn,
            tmind, tmaxn, tmaxd)),
        match spec_hit(obj, ray, tminn, tmind, tmaxn, tmaxd) {
            Option::Some(h) => h.td > 0 && in_window_i(tminn, tmind, tmaxn, tmaxd, h.tn, h.td),
            Option::None => true,
        },
    decreases obj, 1int,
{
    match obj {
        Object::Sphere { center, radius, moving_component, .. } => {
            lemma_root_in_window(center_at_time(center, moving_component, ray.time),
                radius as int, ray, tminn, tmind, tmaxn, tmaxd);
        },
        Object::HittableList { hittables } => {
            lemma_hit_list_fold(hittables, 0, ray, tminn, tmind, tmaxn, tmaxd, None);
        },
        Object::BVHNode { left, right, bounding_box } => {
            let bl = best_t(*left, ray, tminn, tmind, tmaxn, tmaxd);
            let br = best_t(*right, ray, tminn, tmind, tmaxn, tmaxd);
            lemma_best_in_window(*left, ray, tminn, tmind, tmaxn, tmaxd);
            lemma_best_in_window(*right, ray, tminn, tmind, tmaxn, tmaxd);
            if spec_slab_hit_i(bounding_box, ray, tminn, tmind, tmaxn, tmaxd) {
                lemma_hit_is_best(*left, ray, tminn, tmind, tmaxn, tmaxd);
                match spec_hit(*left, ray, tminn, tmind, tmaxn, tmaxd) {
                    Option::None => {
                        lemma_hit_is_best(*right, ray, tminn, tmind, tmaxn, tmaxd);
                    },
                    Option::Some(l) => {
                        let tbl = bl->0;
                        lemma_hit_is_best(*right, ray, tminn, tmind, l.tn as int, l.td as int);
                        lemma_best_window(*right, ray, tminn, tmind, l.tn as int, l.td as int,
                            tmaxn, tmaxd);
                        match spec_hit(*right, ray, tminn, tmind, l.tn as int, l.td as int) {
                            Option::Some(r) => {
                                let tbr = br->0;
                                assert(br is Some && frac_le(tbr.0, tbr.1, l.tn as int,
                                    l.td as int) && frac_eq(r.tn, r.td, tbr.0, tbr.1));
                                lemma_frac_eq_le(l.tn as int, l.td as int, tbl.0, tbl.1,
                                    tbr.0, tbr.1);
                                lemma_frac_le_trans(r.tn as int, r.td as int, tbr.0, tbr.1,
                                    l.tn as int, l.td as int);
                                lemma_frac_le_trans(r.tn as int, r.td as int, l.tn as int,
                                    l.td as int, tmaxn, tmaxd);
                            },
                            Option::None => {
                                if br is Some {
                                    let tbr = br->0;
                                    assert(!frac_le(tbr.0, tbr.1, l.tn as int, l.td as int));
                                    lemma_frac_eq_le(l.tn as int, l.td as int, tbl.0,
                                        tbl.1, tbr.0, tbr.1);
                                    assert(!frac_le(tbr.0, tbr.1, tbl.0, tbl.1));
                                }
                            },
                        }
                    },
                }
            } else {
                if rmin(bl, br) is Some {
                    let t = rmin(bl, br)->0;
                    if bl is Some && rmin(bl, br) == bl {
                        lemma_best_covered(*left, ray, tminn, tmind, tmaxn, tmaxd);
                        lemma_slab_relax(v3(bounding_box.minimum.0), v3(
                            bounding_box.maximum.0), (spec_box(*left)->0).0, (spec_box(
                        *left)->0).1, ray, t.0, t.1);
                    }
                    if br is Some && rmin(bl, br) == br {
                        lemma_best_covered(*right, ray, tminn, tmind, tmaxn, tmaxd);
                        lemma_slab_relax(v3(bounding_box.minimum.0), v3(
                            bounding_box.maximum.0), (spec_box(*right)->0).0, (spec_box(
                        *right)->0).1, ray, t.0, t.1);
                    }
                    assert(in_window_i(tminn, tmind, tmaxn, tmaxd, t.0, t.1)
                        && crate::aabb::slab_ok(bounding_box, ray, t.0, t.1));
                    assert(false);
                }
            }
        },
    }
}

/// A leaf's contribution has a positive denominator.
proof fn lemma_leaf_root_den(l: Object, ray: Ray, tminn: int, tmind: int, tmaxn: int,
    tmaxd: int)
    ensures
        match leaf_root(l, ray, tminn, tmind, tmaxn, tmaxd) {
            Option::Some(t) => t.1 > 0,
            Option::None => true,
        },
{
    match l {
        Object::Sphere { center, radius, moving_component, .. } => {
            lemma_root_in_window(center_at_time(center, moving_component, ray.time),
                radius as int, ray, tminn, tmind, tmaxn, tmaxd);
        },
        _ => {},
    }
}

/// The least leaf contribution over a sequence of primitives.
pub open spec fn fold_min(s: Seq<Object>, ray: Ray, tminn: int, tmind: int, tmaxn: int,
    tmaxd: int) -> Option<(int, int)>
    decreases s.len(),
{
    if s.len() == 0 {
        None
    } else {
        rmin(leaf_root(s[0], ray, tminn, tmind, tmaxn, tmaxd), fold_min(s.drop_first(), ray,
            tminn, tmind, tmaxn, tmaxd))
    }
}

pub proof fn lemma_fold_den_pub(s: Seq<Object>, ray: Ray, tminn: int, tmind: int, tmaxn: int,
    tmaxd: int)
    ensures
        match fold_min(s, ray, tminn, tmind, tmaxn, tmaxd) {
            Option::Some(t) => t.1 > 0,
            Option::None => true,
        },
    decreases s.len(),
{
    if s.len() > 0 {
        lemma_leaf_root_den(s[0], ray, tminn, tmind, tmaxn, tmaxd);
        lemma_fold_den_pub(s.drop_first(), ray, tminn, tmind, tmaxn, tmaxd);
    }
}

/// The minimum does not depend on the order of its two arguments.
proof fn lemma_rmin_comm(a: Option<(int, int)>, b: Option<(int, int)>)
    requires
        a is Some ==> (a->0).1 > 0,
        b is Some ==> (b->0).1 > 0,
    ensures
        opt_t_eq(rmin(a, b), rmin(b, a)),
{
    if a is Some && b is Some {
        let x = a->0;
        let y = b->0;
        lemma_frac_le_total(x.0, x.1, y.0, y.1);
    }
}

/// The minimum associates, up to parameter value.
proof fn lemma_rmin_assoc(a: Option<(int, int)>, b: Option<(int, int)>, c: Option<(int, int)>)
    requires
        a is Some ==> (a->0).1 > 0,
        b is Some ==> (b->0).1 > 0,
        c is Some ==> (c->0).1 > 0,
    ensures
        opt_t_eq(rmin(rmin(a, b), c), rmin(a, rmin(b, c))),
{
    if a is Some && b is Some && c is Some {
        let x = a->0;
        let y = b->0;
        let z = c->0;
        lemma_frac_le_total(x.0, x.1, y.0, y.1);
        lemma_frac_le_total(y.0, y.1, z.0, z.1);
        lemma_frac_le_total(x.0, x.1, z.0, z.1);
        if frac_le(x.0, x.1, y.0, y.1) && frac_le(y.0, y.1, z.0, z.1) {
            lemma_frac_le_trans(x.0, x.1, y.0, y.1, z.0, z.1);
        }
        if frac_le(y.0, y.1, x.0, x.1) && frac_le(x.0, x.1, z.0, z.1) {
            lemma_frac_le_trans(y.0, y.1, x.0, x.1, z.0, z.1);
        }
        if frac_le(z.0, z.1, y.0, y.1) && frac_le(y.0, y.1, x.0, x.1) {
            lemma_frac_le_trans(z.0, z.1, y.0, y.1, x.0, x.1);
        }
        if frac_le(y.0, y.1, z.0, z.1) && frac_le(z.0, z.1, x.0, x.1) {
            lemma_frac_le_trans(y.0, y.1, z.0, z.1, x.0, x.1);
        }
        if frac_le(x.0, x.1, z.0, z.1) && frac_le(z.0, z.1, y.0, y.1) {
            lemma_frac_le_trans(x.0, x.1, z.0, z.1, y.0, y.1);
        }
        if frac_le(z.0, z.1, x.0, x.1) && frac_le(x.0, x.1, y.0, y.1) {
            lemma_frac_le_trans(z.0, z.1, x.0, x.1, y.0, y.1);
        }
    }
}

/// Folding a concatenation is the minimum of the two folds.
pub proof fn lemma_fold_concat(s1: Seq<Object>, s2: Seq<Object>, ray: Ray, tminn: int, tmind: int,
    tmaxn: int, tmaxd: int)
    ensures
        opt_t_eq(fold_min(s1 + s2, ray, tminn, tmind, tmaxn, tmaxd), rmin(fold_min(s1, ray,
            tminn, tmind, tmaxn, tmaxd), fold_min(s2, ray, tminn, tmind, tmaxn, tmaxd))),
    decreases s1.len(),
{
    lemma_fold_den_pub(s1, ray, tminn, tmind, tmaxn, tmaxd);
    lemma_fold_den_pub(s2, ray, tminn, tmind, tmaxn, tmaxd);
    lemma_fold_den_pub(s1 + s2, ray, tminn, tmind, tmaxn, tmaxd);
    if s1.len() == 0 {
        assert(s1 + s2 =~= s2);
    } else {
        assert((s1 + s2).drop_first() =~= s1.drop_first() + s2);
        assert((s1 + s2)[0] == s1[0]);
        lemma_fold_concat(s1.drop_first(), s2, ray, tminn, tmind, tmaxn, tmaxd);
        let r0 = leaf_root(s1[0], ray, tminn, tmind, tmaxn, tmaxd);
        let f1 = fold_min(s1.drop_first(), ray, tminn, tmind, tmaxn, tmaxd);
        let f2 = fold_min(s2, ray, tminn, tmind, tmaxn, tmaxd);
        lemma_leaf_root_den(s1[0], ray, tminn, tmind, tmaxn, tmaxd);
        lemma_fold_den_pub(s1.drop_first(), ray, tminn, tmind, tmaxn, tmaxd);
        lemma_fold_den_pub(s1.drop_first() + s2, ray, tminn, tmind, tmaxn, tmaxd);
        lemma_rmin_cong(r0, r0, fold_min(s1.drop_first() + s2, ray, tminn, tmind, tmaxn,
            tmaxd), rmin(f1, f2));
        lemma_rmin_assoc(r0, f1, f2);
        lemma_opt_t_eq_trans_pub(fold_min(s1 + s2, ray, tminn, tmind, tmaxn, tmaxd), rmin(r0, rmin(
        f1, f2)), rmin(rmin(r0, f1), f2));
    }
}

/// Any element can be pulled out in front of the fold.
proof fn lemma_fold_extract(s: Seq<Object>, j: int, ray: Ray, tminn: int, tmind: int,
    tmaxn: int, tmaxd: int)
    requires
        0 <= j < s.len(),
    ensures
        opt_t_eq(fold_min(s, ray, tminn, tmind, tmaxn, tmaxd), rmin(leaf_root(s[j], ray, tminn,
            tmind, tmaxn, tmaxd), fold_min(s.remove(j), ray, tminn, tmind, tmaxn, tmaxd))),
    decreases j,
{
    lemma_fold_den_pub(s, ray, tminn, tmind, tmaxn, tmaxd);
    lemma_fold_den_pub(s.remove(j), ray, tminn, tmind, tmaxn, tmaxd);
    lemma_leaf_root_den(s[j], ray, tminn, tmind, tmaxn, tmaxd);
    if j == 0 {
        assert(s.remove(0) =~= s.drop_first());
    } else {
        let rest = s.drop_first();
        s.remove_ensures(j);
        rest.remove_ensures(j - 1);
        assert(s.remove(j).drop_first() =~= rest.remove(j - 1)) by {
            assert forall|k: int| 0 <= k < rest.remove(j - 1).len() implies s.remove(
                j).drop_first()[k] == rest.remove(j - 1)[k] by {
                if k < j - 1 {
                    assert(s.remove(j)[k + 1] == s[k + 1]);
                } else {
                    assert(s.remove(j)[k + 1] == s[k + 2]);
                }
            }
        }
        assert(s.remove(j)[0] == s[0]);
        lemma_fold_extract(rest, j - 1, ray, tminn, tmind, tmaxn, tmaxd);
        assert(rest[j - 1] == s[j]);
        let r0 = leaf_root(s[0], ray, tminn, tmind, tmaxn, tmaxd);
        let rj = leaf_root(s[j], ray, tminn, tmind, tmaxn, tmaxd);
        let fr = fold_min(rest.remove(j - 1), ray, tminn, tmind, tmaxn, tmaxd);
        lemma_leaf_root_den(s[0], ray, tminn, tmind, tmaxn, tmaxd);
        lemma_fold_den_pub(rest, ray, tminn, tmind, tmaxn, tmaxd);
        lemma_fold_den_pub(rest.remove(j - 1), ray, tminn, tmind, tmaxn, tmaxd);
        // fold(s) = rmin(r0, fold(rest)) ~ rmin(r0, rmin(rj, fr))
        lemma_rmin_cong(r0, r0, fold_min(rest, ray, tminn, tmind, tmaxn, tmaxd), rmin(rj, fr));
        // ~ rmin(rmin(r0, rj), fr)
        lemma_rmin_assoc(r0, rj, fr);
        // ~ rmin(rmin(rj, r0), fr)
        lemma_rmin_comm(r0, rj);
        lemma_rmin_cong(rmin(r0, rj), rmin(rj, r0), fr, fr);
        // ~ rmin(rj, rmin(r0, fr)) = rmin(rj, fold(s.remove(j)))
        lemma_rmin_assoc(rj, r0, fr);
        let v1 = rmin(r0, rmin(rj, fr));
        let v2 = rmin(rmin(r0, rj), fr);
        let v3a = rmin(rmin(rj, r0), fr);
        let v4 = rmin(rj, rmin(r0, fr));
        lemma_opt_t_eq_trans_pub(fold_min(s, ray, tminn, tmind, tmaxn, tmaxd), v1, v2);
        lemma_opt_t_eq_trans_pub(fold_min(s, ray, tminn, tmind, tmaxn, tmaxd), v2, v3a);
        lemma_opt_t_eq_trans_pub(fold_min(s, ray, tminn, tmind, tmaxn, tmaxd), v3a, v4);
    }
}

/// The fold depends only on the multiset of primitives, not their order.
pub proof fn lemma_fold_perm_pub(s1: Seq<Object>, s2: Seq<Object>, ray: Ray, tminn: int, tmind: int,
    tmaxn: int, tmaxd: int)
    requires
        s1.to_multiset() == s2.to_multiset(),
    ensures
        opt_t_eq(fold_min(s1, ray, tminn, tmind, tmaxn, tmaxd), fold_min(s2, ray, tminn, tmind,
            tmaxn, tmaxd)),
    decreases s1.len(),
{
    s1.to_multiset_ensures();
    s2.to_multiset_ensures();
    if s1.len() == 0 {
        assert(s2.len() == 0);
    } else {
        let x = s1[0];
        assert(s1.contains(x));
        assert(s2.to_multiset().count(x) > 0);
        assert(s2.contains(x));
        let j = choose|j: int| 0 <= j < s2.len() && s2[j] == x;
        lemma_fold_extract(s2, j, ray, tminn, tmind, tmaxn, tmaxd);
        assert(s1.remove(0) =~= s1.drop_first());
        assert(s1.drop_first().to_multiset() == s1.to_multiset().remove(x));
        assert(s2.remove(j).to_multiset() == s2.to_multiset().remove(x));
        lemma_fold_perm_pub(s1.drop_first(), s2.remove(j), ray, tminn, tmind, tmaxn, tmaxd);
        let r0 = leaf_root(x, ray, tminn, tmind, tmaxn, tmaxd);
        lemma_leaf_root_den(x, ray, tminn, tmind, tmaxn, tmaxd);
        lemma_fold_den_pub(s1.drop_first(), ray, tminn, tmind, tmaxn, tmaxd);
        lemma_fold_den_pub(s2.remove(j), ray, tminn, tmind, tmaxn, tmaxd);
        lemma_fold_den_pub(s2, ray, tminn, tmind, tmaxn, tmaxd);
        lemma_rmin_cong(r0, r0, fold_min(s1.drop_first(), ray, tminn, tmind, tmaxn, tmaxd),
            fold_min(s2.remove(j), ray, tminn, tmind, tmaxn, tmaxd));
        lemma_opt_t_eq_trans_pub(fold_min(s1, ray, tminn, tmind, tmaxn, tmaxd), rmin(r0, fold_min(
        s2.remove(j), ray, tminn, tmind, tmaxn, tmaxd)), fold_min(s2, ray, tminn, tmind, tmaxn,
            tmaxd));
    }
}

/// The semantic best parameter is the fold of the leaf contributions.
pub proof fn lemma_best_is_fold(obj: Object, ray: Ray, tminn: int, tmind: int, tmaxn: int,
    tmaxd: int)
    ensures
        opt_t_eq(best_t(obj, ray, tminn, tmind, tmaxn, tmaxd), fold_min(leaves(obj), ray,
            tminn, tmind, tmaxn, tmaxd)),
    decreases obj, 0int,
{
    match obj {
        Object::Sphere { .. } => {
            assert(leaves(obj) =~= seq![obj]);
            assert(leaves(obj).len() == 1);
            assert(leaves(obj)[0] == obj);
            assert(leaves(obj).drop_first() =~= Seq::<Object>::empty());
            assert(fold_min(leaves(obj).drop_first(), ray, tminn, tmind, tmaxn, tmaxd)
                is None);
            assert(fold_min(leaves(obj), ray, tminn, tmind, tmaxn, tmaxd) == rmin(leaf_root(
            obj, ray, tminn, tmind, tmaxn, tmaxd), fold_min(leaves(obj).drop_first(), ray,
                tminn, tmind, tmaxn, tmaxd)));
            assert(best_t(obj, ray, tminn, tmind, tmaxn, tmaxd) == leaf_root(obj, ray, tminn,
                tmind, tmaxn, tmaxd));
        },
        Object::HittableList { hittables } => {
            lemma_best_list_is_fold(hittables, 0, ray, tminn, tmind, tmaxn, tmaxd);
        },
        Object::BVHNode { left, right, .. } => {
            lemma_best_is_fold(*left, ray, tminn, tmind, tmaxn, tmaxd);
            lemma_best_is_fold(*right, ray, tminn, tmind, tmaxn, tmaxd);
            lemma_fold_concat(leaves(*left), leaves(*right), ray, tminn, tmind, tmaxn, tmaxd);
            lemma_best_in_window(*left, ray, tminn, tmind, tmaxn, tmaxd);
            lemma_best_in_window(*right, ray, tminn, tmind, tmaxn, tmaxd);
            lemma_fold_den_pub(leaves(*left), ray, tminn, tmind, tmaxn, tmaxd);
            lemma_fold_den_pub(leaves(*right), ray, tminn, tmind, tmaxn, tmaxd);
            lemma_fold_den_pub(leaves(obj), ray, tminn, tmind, tmaxn, tmaxd);
            lemma_rmin_cong(best_t(*left, ray, tminn, tmind, tmaxn, tmaxd), fold_min(leaves(
            *left), ray, tminn, tmind, tmaxn, tmaxd), best_t(*right, ray, tminn, tmind, tmaxn,
                tmaxd), fold_min(leaves(*right), ray, tminn, tmind, tmaxn, tmaxd));
            lemma_opt_t_eq_trans_pub(best_t(obj, ray, tminn, tmind, tmaxn, tmaxd), rmin(fold_min(
            leaves(*left), ray, tminn, tmind, tmaxn, tmaxd), fold_min(leaves(*right), ray,
                tminn, tmind, tmaxn, tmaxd)), fold_min(leaves(obj), ray, tminn, tmind, tmaxn,
                tmaxd));
        },
    }
}

pub proof fn lemma_best_list_is_fold(objs: Vec<Object>, i: int, ray: Ray, tminn: int,
    tmind: int, tmaxn: int, tmaxd: int)
    requires
        0 <= i,
    ensures
        opt_t_eq(best_t_list(objs, i, ray, tminn, tmind, tmaxn, tmaxd), fold_min(
            crate::object::leaves_list(objs, i), ray, tminn, tmind, tmaxn, tmaxd)),
    decreases objs, objs.len() - i,
{
    if i >= objs.len() {
    } else {
        lemma_best_is_fold(objs[i], ray, tminn, tmind, tmaxn, tmaxd);
        lemma_best_list_is_fold(objs, i + 1, ray, tminn, tmind, tmaxn, tmaxd);
        lemma_fold_concat(leaves(objs[i]), crate::object::leaves_list(objs, i + 1), ray, tminn,
            tmind, tmaxn, tmaxd);
        lemma_best_in_window(objs[i], ray, tminn, tmind, tmaxn, tmaxd);
        lemma_best_list_in_window(objs, i + 1, ray, tminn, tmind, tmaxn, tmaxd);
        lemma_fold_den_pub(leaves(objs[i]), ray, tminn, tmind, tmaxn, tmaxd);
        lemma_fold_den_pub(crate::object::leaves_list(objs, i + 1), ray, tminn, tmind, tmaxn,
            tmaxd);
        lemma_fold_den_pub(crate::object::leaves_list(objs, i), ray, tminn, tmind, tmaxn, tmaxd);
        lemma_rmin_cong(best_t(objs[i], ray, tminn, tmind, tmaxn, tmaxd), fold_min(leaves(
        objs[i]), ray, tminn, tmind, tmaxn, tmaxd), best_t_list(objs, i + 1, ray, tminn, tmind,
            tmaxn, tmaxd), fold_min(crate::object::leaves_list(objs, i + 1), ray, tminn, tmind,
            tmaxn, tmaxd));
        lemma_opt_t_eq_trans_pub(best_t_list(objs, i, ray, tminn, tmind, tmaxn, tmaxd), rmin(
        fold_min(leaves(objs[i]), ray, tminn, tmind, tmaxn, tmaxd), fold_min(
        crate::object::leaves_list(objs, i + 1), ray, tminn, tmind, tmaxn, tmaxd)), fold_min(
        crate::object::leaves_list(objs, i), ray, tminn, tmind, tmaxn, tmaxd));
    }
}

/// Two well-formed aggregates over the same multiset of spheres return
/// hits with the same parameter on every query: in particular, a
/// hierarchy built over a scene's primitives agrees with the plain list.
pub proof fn lemma_bvh_equiv_list(a: Object, b: Object, ray: Ray, tminn: int, tmind: int,
    tmaxn: int, tmaxd: int)
    requires
        a.wf(),
        b.wf(),
        a.time_in_range(ray.time),
        b.time_in_range(ray.time),
        tmind > 0,
        tmaxd > 0,
        leaves(a).to_multiset() == leaves(b).to_multiset(),
    ensures
        opt_t_eq(opt_t(spec_hit(a, ray, tminn, tmind, tmaxn, tmaxd)), opt_t(spec_hit(b, ray,
            tminn, tmind, tmaxn, tmaxd))),
{
    lemma_hit_is_best(a, ray, tminn, tmind, tmaxn, tmaxd);
    lemma_hit_is_best(b, ray, tminn, tmind, tmaxn, tmaxd);
    lemma_best_is_fold(a, ray, tminn, tmind, tmaxn, tmaxd);
    lemma_best_is_fold(b, ray, tminn, tmind, tmaxn, tmaxd);
    lemma_fold_perm_pub(leaves(a), leaves(b), ray, tminn, tmind, tmaxn, tmaxd);
    lemma_best_in_window(a, ray, tminn, tmind, tmaxn, tmaxd);
    lemma_best_in_window(b, ray, tminn, tmind, tmaxn, tmaxd);
    lemma_fold_den_pub(leaves(a), ray, tminn, tmind, tmaxn, tmaxd);
    lemma_fold_den_pub(leaves(b), ray, tminn, tmind, tmaxn, tmaxd);
    let sa = opt_t(spec_hit(a, ray, tminn, tmind, tmaxn, tmaxd));
    let sb = opt_t(spec_hit(b, ray, tminn, tmind, tmaxn, tmaxd));
    let ba = best_t(a, ray, tminn, tmind, tmaxn, tmaxd);
    let bb = best_t(b, ray, tminn, tmind, tmaxn, tmaxd);
    let fa = fold_min(leaves(a), ray, tminn, tmind, tmaxn, tmaxd);
    let fb = fold_min(leaves(b), ray, tminn, tmind, tmaxn, tmaxd);
    lemma_opt_t_eq_trans_pub(sa, ba, fa);
    lemma_opt_t_eq_trans_pub(sa, fa, fb);
    lemma_opt_t_eq_trans_pub(sa, fb, bb);
    lemma_opt_t_eq_trans_pub(sa, bb, sb);
}

/// The leaves of a sequence of objects, concatenated in order.
pub open spec fn leaves_of(s: Seq<Object>) -> Seq<Object>
    decreases s.len(),
{
    if s.len() == 0 {
        Seq::empty()
    } else {
        leaves(s[0]) + leaves_of(s.drop_first())
    }
}

/// The two spellings of the leaves of a scene tail agree.
pub proof fn lemma_leaves_list_is_of(v: Vec<Object>, i: int)
    requires
        0 <= i <= v@.len(),
    ensures
        crate::object::leaves_list(v, i) == leaves_of(v@.skip(i)),
    decreases v@.len() - i,
{
    if i < v@.len() {
        lemma_leaves_list_is_of(v, i + 1);
        assert(v@.skip(i)[0] == v@[i]);
        assert(v@.skip(i).drop_first() =~= v@.skip(i + 1));
    } else {
        assert(v@.skip(i) =~= Seq::<Object>::empty());
    }
}

/// Leaves of a concatenation are the concatenated leaves.
pub proof fn lemma_leaves_of_concat(a: Seq<Object>, b: Seq<Object>)
    ensures
        leaves_of(a + b) == leaves_of(a) + leaves_of(b),
    decreases a.len(),
{
    if a.len() == 0 {
        assert(a + b =~= b);
        assert(leaves_of(a) + leaves_of(b) =~= leaves_of(b));
    } else {
        lemma_leaves_of_concat(a.drop_first(), b);
        assert((a + b)[0] == a[0]);
        assert((a + b).drop_first() =~= a.drop_first() + b);
        assert(leaves(a[0]) + (leaves_of(a.drop_first()) + leaves_of(b)) =~= (leaves(a[0])
            + leaves_of(a.drop_first())) + leaves_of(b));
    }
}

/// Pulling one member's leaves out in front, as multisets.
proof fn lemma_leaves_of_extract(s: Seq<Object>, j: int)
    requires
        0 <= j < s.len(),
    ensures
        leaves_of(s).to_multiset() == leaves(s[j]).to_multiset().add(leaves_of(s.remove(
        j)).to_multiset()),
    decreases j,
{
    broadcast use vstd::multiset::group_multiset_axioms;

    vstd::seq_lib::lemma_multiset_commutative(leaves(s[0]), leaves_of(s.drop_first()));
    if j == 0 {
        assert(s.remove(0) =~= s.drop_first());
    } else {
        lemma_leaves_of_extract(s.drop_first(), j - 1);
        assert(s.drop_first()[j - 1] == s[j]);
        s.remove_ensures(j);
        s.drop_first().remove_ensures(j - 1);
        assert(s.remove(j).drop_first() =~= s.drop_first().remove(j - 1));
        assert(s.remove(j)[0] == s[0]);
        vstd::seq_lib::lemma_multiset_commutative(leaves(s[0]), leaves_of(s.remove(
        j).drop_first()));
        assert(leaves(s[0]).to_multiset().add(leaves(s[j]).to_multiset().add(leaves_of(
        s.drop_first().remove(j - 1)).to_multiset())) =~= leaves(s[j]).to_multiset().add(
        leaves(s[0]).to_multiset().add(leaves_of(s.drop_first().remove(j
            - 1)).to_multiset())));
    }
}

/// A permutation of the scene objects permutes the leaves.
pub proof fn lemma_leaves_of_perm(s1: Seq<Object>, s2: Seq<Object>)
    requires
        s1.to_multiset() == s2.to_multiset(),
    ensures
        leaves_of(s1).to_multiset() == leaves_of(s2).to_multiset(),
    decreases s1.len(),
{
    broadcast use vstd::multiset::group_multiset_axioms;

    s1.to_multiset_ensures();
    s2.to_multiset_ensures();
    if s1.len() == 0 {
        assert(s2.len() == 0);
    } else {
        let x = s1[0];
        assert(s1.contains(x));
        assert(s2.to_multiset().count(x) > 0);
        assert(s2.contains(x));
        let j = choose|j: int| 0 <= j < s2.len() && s2[j] == x;
        assert(s1.drop_first() =~= s1.remove(0));
        assert(s1.remove(0).to_multiset() =~= s1.to_multiset().remove(x));
        assert(s2.remove(j).to_multiset() =~= s2.to_multiset().remove(x));
        lemma_leaves_of_perm(s1.drop_first(), s2.remove(j));
        lemma_leaves_of_extract(s2, j);
        vstd::seq_lib::lemma_multiset_commutative(leaves(x), leaves_of(s1.drop_first()));
    }
}

/// The aggregate answers every query with the same parameter as the plain
/// collection of objects (via the leaf fold both reduce to).
pub open spec fn same_results(a: Object, objs: Vec<Object>) -> bool {
    forall|ray: Ray, tminn: int, tmind: int, tmaxn: int, tmaxd: int|
        tmind > 0 && tmaxd > 0 ==> #[trigger] opt_t_eq(fold_min(leaves(a), ray, tminn, tmind,
            tmaxn, tmaxd), fold_min(crate::object::leaves_list(objs, 0), ray, tminn, tmind,
            tmaxn, tmaxd))
}

/// A built hierarchy and the plain list over the same objects return hits
/// with equal parameters on every query.
pub proof fn lemma_built_matches_list(node: Object, objs: Vec<Object>, ray: Ray, tminn: int,
    tmind: int, tmaxn: int, tmaxd: int)
    requires
        node.wf(),
        wf_list(objs, 0),
        node.time_in_range(ray.time),
        time_in_range_list(objs, 0, ray.time),
        same_results(node, objs),
        tmind > 0,
        tmaxd > 0,
    ensures
        opt_t_eq(opt_t(spec_hit(node, ray, tminn, tmind, tmaxn, tmaxd)), opt_t(spec_hit(
            Object::HittableList { hittables: objs }, ray, tminn, tmind, tmaxn, tmaxd))),
{
    let lst = Object::HittableList { hittables: objs };
    lemma_hit_is_best(node, ray, tminn, tmind, tmaxn, tmaxd);
    lemma_hit_is_best(lst, ray, tminn, tmind, tmaxn, tmaxd);
    lemma_best_is_fold(node, ray, tminn, tmind, tmaxn, tmaxd);
    lemma_best_is_fold(lst, ray, tminn, tmind, tmaxn, tmaxd);
    assert(leaves(lst) == crate::object::leaves_list(objs, 0));
    assert(opt_t_eq(fold_min(leaves(node), ray, tminn, tmind, tmaxn, tmaxd), fold_min(
        crate::object::leaves_list(objs, 0), ray, tminn, tmind, tmaxn, tmaxd)));
    lemma_best_in_window(node, ray, tminn, tmind, tmaxn, tmaxd);
    lemma_best_in_window(lst, ray, tminn, tmind, tmaxn, tmaxd);
    lemma_fold_den_pub(leaves(node), ray, tminn, tmind, tmaxn, tmaxd);
    lemma_fold_den_pub(leaves(lst), ray, tminn, tmind, tmaxn, tmaxd);
    let sa = opt_t(spec_hit(node, ray, tminn, tmind, tmaxn, tmaxd));
    let sb = opt_t(spec_hit(lst, ray, tminn, tmind, tmaxn, tmaxd));
    let ba = best_t(node, ray, tminn, tmind, tmaxn, tmaxd);
    let bb = best_t(lst, ray, tminn, tmind, tmaxn, tmaxd);
    let fa = fold_min(leaves(node), ray, tminn, tmind, tmaxn, tmaxd);
    let fb = fold_min(leaves(lst), ray, tminn, tmind, tmaxn, tmaxd);
    lemma_opt_t_eq_trans_pub(sa, ba, fa);
    lemma_opt_t_eq_trans_pub(sa, fa, fb);
    lemma_opt_t_eq_trans_pub(sa, fb, bb);
    lemma_opt_t_eq_trans_pub(sa, bb, sb);
}

/// A concatenation contains exactly the members of its parts.
pub proof fn lemma_contains_concat(a: Seq<Object>, b: Seq<Object>, x: Object)
    ensures
        (a + b).contains(x) == (a.contains(x) || b.contains(x)),
{
    if a.contains(x) {
        let i = choose|i: int| 0 <= i < a.len() && a[i] == x;
        assert((a + b)[i] == x);
    }
    if b.contains(x) {
        let i = choose|i: int| 0 <= i < b.len() && b[i] == x;
        assert((a + b)[a.len() + i] == x);
    }
    if (a + b).contains(x) {
        let i = choose|i: int| 0 <= i < (a + b).len() && (a + b)[i] == x;
        if i < a.len() {
            assert(a[i] == x);
        } else {
            assert(b[i - a.len()] == x);
        }
    }
}

/// Sequences with equal multisets contain the same members.
pub proof fn lemma_mset_contains(s1: Seq<Object>, s2: Seq<Object>)
    requires
        s1.to_multiset() == s2.to_multiset(),
    ensures
        forall|y: Object|
            #![trigger s1.contains(y)]
            #![trigger s2.contains(y)]
            s1.contains(y) == s2.contains(y),
{
    broadcast use vstd::multiset::group_multiset_axioms;

    s1.to_multiset_ensures();
    s2.to_multiset_ensures();
    assert forall|y: Object|
        #![trigger s1.contains(y)]
        #![trigger s2.contains(y)]
        s1.contains(y) == s2.contains(y) by {
        if s1.contains(y) {
            assert(s1.to_multiset().count(y) > 0);
            assert(s2.to_multiset().count(y) > 0);
            assert(s2.contains(y));
        }
        if s2.contains(y) {
            assert(s2.to_multiset().count(y) > 0);
            assert(s1.to_multiset().count(y) > 0);
            assert(s1.contains(y));
        }
    }
}

/// The aggregate holds exactly the primitives of the plain collection,
/// as sets (the degenerate one-object node holds its object twice, so
/// multisets can differ).
pub open spec fn same_leaves(a: Object, objs: Vec<Object>) -> bool {
    forall|x: Object|
        #![trigger leaves(a).contains(x)]
        #![trigger crate::object::leaves_list(objs, 0).contains(x)]
        leaves(a).contains(x) == crate::object::leaves_list(objs, 0).contains(x)
}

} // verus!
