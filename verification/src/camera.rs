//! The perspective camera: maps image-plane coordinates and a random lens
//! offset to world-space rays.

use vstd::prelude::*;

use crate::geom::{in_bound, lemma_dot_range, lemma_scaled_range, Point, Vec3, COORD_MAX,
    DOT_BOUND};
use crate::num::{div_floor, lemma_div_bounds, lemma_div_range, lemma_mul_bound, wide_mul, ONE};
use crate::random::Random;
use crate::ray::Ray;

verus! {

/// Parameter bound for camera construction (64 real units): positions
/// stay far inside the scene bound.
pub const CAM_BOUND: i64 = 4194304;

/// The difference of two in-range points, as an executable vector.
pub open spec fn diff_vec(a: Vec3, b: Vec3) -> Vec3 {
    Vec3 { x: (a.x - b.x) as i64, y: (a.y - b.y) as i64, z: (a.z - b.z) as i64 }
}

/// The viewing geometry is nondegenerate: the look direction is nonzero
/// and the view-up vector is not exactly parallel to it (their exact,
/// unrounded cross product has a nonzero component).  Rejecting these at
/// construction keeps the orthonormal basis meaningful; a view-up within
/// one fixed-point unit of parallel can still round to a zero basis
/// vector.
pub open spec fn oriented(view_up: Vec3, look_from: Point, look_at: Point) -> bool {
    let d = diff_vec(look_from.0, look_at.0);
    !(d.x == 0 && d.y == 0 && d.z == 0) && !(view_up.y * d.z - view_up.z * d.y == 0
        && view_up.z * d.x - view_up.x * d.z == 0 && view_up.x * d.y - view_up.y * d.x == 0)
}

/// The fixed-point cross product of two in-range vectors, as an
/// executable vector (the same formula `Vec3::cross` computes).
pub open spec fn cross_vec(a: Vec3, b: Vec3) -> Vec3 {
    Vec3 {
        x: ((a.y * b.z - a.z * b.y) / (ONE as int)) as i64,
        y: ((a.z * b.x - a.x * b.z) / (ONE as int)) as i64,
        z: ((a.x * b.y - a.y * b.x) / (ONE as int)) as i64,
    }
}

/// An immutable snapshot of the viewing geometry, built once per render.
#[derive(Clone, Copy, Debug)]
pub struct Camera {
    pub origin: Point,
    pub lower_left_corner: Point,
    pub horizontal: Point,
    pub vertical: Point,
    pub u: Point,
    pub v: Point,
    pub w: Point,
    pub lens_radius: i64,
}

impl Camera {
    /// Everything a generated ray needs stays within the scene bound.
    pub open spec fn wf(self) -> bool {
        in_bound(self.origin.0, CAM_BOUND as int) && in_bound(self.lower_left_corner.0,
            67108864) && in_bound(self.horizontal.0, 67108864) && in_bound(self.vertical.0,
            33554432) && in_bound(self.u.0, ONE as int) && in_bound(self.v.0, 2 * ONE as int)
            && in_bound(self.w.0, ONE as int) && 0 <= self.lens_radius <= ONE
    }

    /// Build the camera from its user-facing parameters.
    ///
    /// `half_height` is the tangent of half the vertical field of view, in
    /// fixed point (the caller converts from degrees); `aspect_ratio`,
    /// `aperture` and `focus_dist` are fixed point as well.
    pub fn new(look_from: Point, look_at: Point, view_up: Point, half_height: i64,
        aspect_ratio: i64, aperture: i64, focus_dist: i64) -> (c: Camera)
        requires
            in_bound(look_from.0, CAM_BOUND as int),
            in_bound(look_at.0, CAM_BOUND as int),
            in_bound(view_up.0, 4 * ONE as int),
            0 <= half_height <= 4 * ONE,
            0 < aspect_ratio <= 4 * ONE,
            0 <= aperture <= 2 * ONE,
            0 < focus_dist <= 32 * ONE,
            oriented(view_up.0, look_from, look_at),
        ensures
            c.wf(),
            c.origin == look_from,
            c.lens_radius == aperture as int / 2,
            crate::geom::v3(c.w.0) == crate::geom::spec_unit_norm(diff_vec(look_from.0,
                look_at.0)),
            crate::geom::v3(c.u.0) == crate::geom::spec_unit_norm(cross_vec(view_up.0, c.w.0)),
            c.v.0 == cross_vec(c.w.0, c.u.0),
            ({
                let vh = 2 * half_height;
                let vw = (aspect_ratio * vh) / (ONE as int);
                let hl = (vw * focus_dist) / (ONE as int);
                let vl = (vh * focus_dist) / (ONE as int);
                c.horizontal.0.x == (c.u.0.x * hl) / (ONE as int) && c.horizontal.0.y == (
                c.u.0.y * hl) / (ONE as int) && c.horizontal.0.z == (c.u.0.z * hl) / (
                ONE as int) && c.vertical.0.x == (c.v.0.x * vl) / (ONE as int)
                    && c.vertical.0.y == (c.v.0.y * vl) / (ONE as int) && c.vertical.0.z == (
                c.v.0.z * vl) / (ONE as int)
            }),
            c.lower_left_corner.0.x == look_from.0.x - (c.horizontal.0.x * ONE) / (2
                * ONE as int) - (c.vertical.0.x * ONE) / (2 * ONE as int) - (c.w.0.x
                * focus_dist) / (ONE as int),
            c.lower_left_corner.0.y == look_from.0.y - (c.horizontal.0.y * ONE) / (2
                * ONE as int) - (c.vertical.0.y * ONE) / (2 * ONE as int) - (c.w.0.y
                * focus_dist) / (ONE as int),
            c.lower_left_corner.0.z == look_from.0.z - (c.horizontal.0.z * ONE) / (2
                * ONE as int) - (c.vertical.0.z * ONE) / (2 * ONE as int) - (c.w.0.z
                * focus_dist) / (ONE as int),
    {
        let diff = look_from.0.sub(&look_at.0);
        proof {
            assert(diff == diff_vec(look_from.0, look_at.0));
        }
        let w = diff.unit_norm();
        proof {
            lemma_cross_term(view_up.0.y as int, w.z as int, view_up.0.z as int, w.y as int,
                262144);
            lemma_cross_term(view_up.0.z as int, w.x as int, view_up.0.x as int, w.z as int,
                262144);
            lemma_cross_term(view_up.0.x as int, w.y as int, view_up.0.y as int, w.x as int,
                262144);
            lemma_div_range(view_up.0.y as int * w.z as int - view_up.0.z as int * w.y as int,
                2097152, ONE as int);
            lemma_div_range(view_up.0.z as int * w.x as int - view_up.0.x as int * w.z as int,
                2097152, ONE as int);
            lemma_div_range(view_up.0.x as int * w.y as int - view_up.0.y as int * w.x as int,
                2097152, ONE as int);
        }
        let crossed = view_up.0.cross(&w);
        proof {
            assert(crossed == cross_vec(view_up.0, w));
        }
        let u = crossed.unit_norm();
        proof {
            lemma_cross_term(w.y as int, u.z as int, w.z as int, u.y as int, 65536);
            lemma_cross_term(w.z as int, u.x as int, w.x as int, u.z as int, 65536);
            lemma_cross_term(w.x as int, u.y as int, w.y as int, u.x as int, 65536);
            lemma_div_range(w.y as int * u.z as int - w.z as int * u.y as int, 2 * ONE as int,
                ONE as int);
            lemma_div_range(w.z as int * u.x as int - w.x as int * u.z as int, 2 * ONE as int,
                ONE as int);
            lemma_div_range(w.x as int * u.y as int - w.y as int * u.x as int, 2 * ONE as int,
                ONE as int);
        }
        let v = w.cross(&u);
        proof {
            assert(v == cross_vec(w, u));
        }
        let origin = look_from;
        let viewport_height = 2 * half_height;
        proof {
            lemma_mul_bound(aspect_ratio as int, viewport_height as int, 262144, 524288);
            lemma_div_range(aspect_ratio as int * viewport_height as int, 2097152, ONE as int);
        }
        let viewport_width = div_floor(wide_mul(aspect_ratio, viewport_height) as i64, ONE);
        proof {
            lemma_mul_bound(viewport_width as int, focus_dist as int, 2097152, 2097152);
            lemma_div_range(viewport_width as int * focus_dist as int, 67108864, ONE as int);
            lemma_mul_bound(viewport_height as int, focus_dist as int, 524288, 2097152);
            lemma_div_range(viewport_height as int * focus_dist as int, 16777216, ONE as int);
        }
        let horiz_len = div_floor(wide_mul(viewport_width, focus_dist) as i64, ONE);
        let vert_len = div_floor(wide_mul(viewport_height, focus_dist) as i64, ONE);
        proof {
            lemma_scaled_range(u, horiz_len as int, 65536, 67108864, 67108864);
            lemma_scaled_range(v, vert_len as int, 131072, 16777216, 33554432);
            lemma_scaled_range(w, focus_dist as int, 65536, 2097152, 2097152);
        }
        let horizontal = u.scalar_mul(horiz_len);
        let vertical = v.scalar_mul(vert_len);
        proof {
            lemma_half_range(horizontal, 67108864, 33554432);
            lemma_half_range(vertical, 33554432, 16777216);
        }
        let half_h = horizontal.scalar_div(2 * ONE);
        let half_v = vertical.scalar_div(2 * ONE);
        let focus_w = w.scalar_mul(focus_dist);
        let lower_left_corner = Point(origin.0.sub(&half_h).sub(&half_v).sub(&focus_w));
        proof {
            lemma_div_bounds(aperture as int, 2);
        }
        Camera {
            origin,
            lower_left_corner,
            horizontal: Point(horizontal),
            vertical: Point(vertical),
            u: Point(u),
            v: Point(v),
            w: Point(w),
            lens_radius: div_floor(aperture, 2),
        }
    }

    /// The ray through image-plane coordinates `(s, t)` in `[0, ONE]`:
    /// the origin is jittered across the lens disk for depth of field, and
    /// the ray is aimed so that origin plus direction is the focal-plane
    /// point of `(s, t)` -- all rays of one image point meet there.
    pub fn ray(&self, s: i64, t: i64, r: &mut Random) -> (res: Ray)
        requires
            self.wf(),
            0 <= s <= ONE,
            0 <= t <= ONE,
        ensures
            res.wf(),
            res.time == 0,
            res.origin.0.x + res.direction.x == self.lower_left_corner.0.x + (
            self.horizontal.0.x * s) / (ONE as int) + (self.vertical.0.x * t) / (ONE as int),
            res.origin.0.y + res.direction.y == self.lower_left_corner.0.y + (
            self.horizontal.0.y * s) / (ONE as int) + (self.vertical.0.y * t) / (ONE as int),
            res.origin.0.z + res.direction.z == self.lower_left_corner.0.z + (
            self.horizontal.0.z * s) / (ONE as int) + (self.vertical.0.z * t) / (ONE as int),
            exists|rd0: Vec3|
                (#[trigger] crate::geom::disk_trace_some(old(r).state, crate::geom::v3(rd0),
                    final(r).state)) && in_bound(rd0, ONE as int) && ({
                    let rdx = (rd0.x * self.lens_radius) / (ONE as int);
                    let rdy = (rd0.y * self.lens_radius) / (ONE as int);
                    let offx = (self.u.0.x * rdx) / (ONE as int) + (self.v.0.x * rdy) / (
                    ONE as int);
                    let offy = (self.u.0.y * rdx) / (ONE as int) + (self.v.0.y * rdy) / (
                    ONE as int);
                    let offz = (self.u.0.z * rdx) / (ONE as int) + (self.v.0.z * rdy) / (
                    ONE as int);
                    res.origin.0.x == self.origin.0.x + offx && res.origin.0.y
                        == self.origin.0.y + offy && res.origin.0.z == self.origin.0.z + offz
                        && res.direction.x == self.lower_left_corner.0.x + (
                    self.horizontal.0.x * s) / (ONE as int) + (self.vertical.0.x * t) / (
                    ONE as int) - self.origin.0.x - offx && res.direction.y
                        == self.lower_left_corner.0.y + (self.horizontal.0.y * s) / (
                    ONE as int) + (self.vertical.0.y * t) / (ONE as int) - self.origin.0.y
                        - offy && res.direction.z == self.lower_left_corner.0.z + (
                    self.horizontal.0.z * s) / (ONE as int) + (self.vertical.0.z * t) / (
                    ONE as int) - self.origin.0.z - offz
                }),
    {
        let rd0 = Vec3::random_in_unit_disk(r);
        proof {
            lemma_scaled_range(rd0, self.lens_radius as int, 65536, 65536, 65536);
        }
        let rd = rd0.scalar_mul(self.lens_radius);
        proof {
            lemma_scaled_range(self.u.0, rd.x as int, 65536, 65536, 65536);
            lemma_scaled_range(self.v.0, rd.y as int, 131072, 65536, 131072);
            lemma_scaled_range(self.horizontal.0, s as int, 67108864, 65536, 67108864);
            lemma_scaled_range(self.vertical.0, t as int, 33554432, 65536, 33554432);
        }
        let offset = self.u.0.scalar_mul(rd.x).add(&self.v.0.scalar_mul(rd.y));
        let origin = Point(self.origin.0.add(&offset));
        let direction = self.lower_left_corner.0.add(&self.horizontal.0.scalar_mul(s)).add(
            &self.vertical.0.scalar_mul(t)).sub(&self.origin.0).sub(&offset);
        proof {
            assert(crate::geom::disk_trace_some(old(r).state, crate::geom::v3(rd0), r.state));
        }
        Ray::new(origin, direction, 0)
    }
}

/// A difference of products of values bounded by `bnd` stays within
/// `2 bnd^2`.
proof fn lemma_cross_term(a: int, b: int, c: int, d: int, bnd: int)
    requires
        -bnd <= a <= bnd,
        -bnd <= b <= bnd,
        -bnd <= c <= bnd,
        -bnd <= d <= bnd,
        0 <= bnd,
    ensures
        -(2 * (bnd * bnd)) <= a * b - c * d <= 2 * (bnd * bnd),
{
    lemma_mul_bound(a, b, bnd, bnd);
    lemma_mul_bound(c, d, bnd, bnd);
}

/// Fixed-point halving keeps each component within half the bound.
proof fn lemma_half_range(full: Vec3, b: int, bh: int)
    requires
        in_bound(full, b),
        b == 2 * bh,
        0 < b <= 134217728,
    ensures
        -bh <= (full.x as int * ONE) / (2 * ONE as int) <= bh,
        -bh <= (full.y as int * ONE) / (2 * ONE as int) <= bh,
        -bh <= (full.z as int * ONE) / (2 * ONE as int) <= bh,
{
    lemma_mul_bound(full.x as int, ONE as int, b, 65536);
    lemma_mul_bound(full.y as int, ONE as int, b, 65536);
    lemma_mul_bound(full.z as int, ONE as int, b, 65536);
    assert(b * 65536 == bh * (2 * ONE as int)) by (nonlinear_arith)
        requires
            b == 2 * bh,
    ;
    lemma_div_range(full.x as int * ONE, bh, 2 * ONE as int);
    lemma_div_range(full.y as int * ONE, bh, 2 * ONE as int);
    lemma_div_range(full.z as int * ONE, bh, 2 * ONE as int);
}

} // verus!
