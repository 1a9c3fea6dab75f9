//! Axis-aligned bounding boxes and the slab intersection test.
//!
//! The slab test here is exact: it clips the query window `[t_min, t_max]`
//! against the three per-axis parameter intervals using rational endpoint
//! comparisons, so its answer is precisely "some parameter in the window
//! puts the ray inside the box on every axis".

use vstd::prelude::*;

use crate::geom::{in_bound, Point, Vec3, COORD_MAX};
use crate::rat::{frac_le, lemma_frac_le_total, lemma_frac_le_trans, Rat};
use crate::ray::Ray;

verus! {

/// An axis-aligned box `[minimum, maximum]`, componentwise.
#[derive(Clone, Copy, PartialEq, Eq, Structural, Debug)]
pub struct AaBoundingBox {
    pub minimum: Point,
    pub maximum: Point,
}

/// `tn / td` lies in the closed window `[tminn/tmind, tmaxn/tmaxd]`.
pub open spec fn in_window_i(tminn: int, tmind: int, tmaxn: int, tmaxd: int, tn: int,
    td: int) -> bool {
    td > 0 && frac_le(tminn, tmind, tn, td) && frac_le(tn, td, tmaxn, tmaxd)
}

/// `tn / td` lies in the closed window `[tmin, tmax]`.
pub open spec fn in_window(tmin: Rat, tmax: Rat, tn: int, td: int) -> bool {
    in_window_i(tmin.num as int, tmin.den as int, tmax.num as int, tmax.den as int, tn, td)
}

/// At parameter `tn / td` the ray coordinate `o + t * d` lies in `[omin, omax]`.
pub open spec fn axis_ok(omin: int, omax: int, o: int, d: int, tn: int, td: int) -> bool {
    omin * td <= o * td + tn * d <= omax * td
}

/// The point at parameter `tn / td` lies inside `[lo, hi]` on all three axes.
pub open spec fn slab_ok_v(lo: crate::geom::V3, hi: crate::geom::V3, ray: Ray, tn: int,
    td: int) -> bool {
    axis_ok(lo.x, hi.x, ray.origin.0.x as int, ray.direction.x as int, tn, td) && axis_ok(lo.y,
        hi.y, ray.origin.0.y as int, ray.direction.y as int, tn, td) && axis_ok(lo.z, hi.z,
        ray.origin.0.z as int, ray.direction.z as int, tn, td)
}

/// The point at parameter `tn / td` lies inside the box on all three axes.
pub open spec fn slab_ok(bb: AaBoundingBox, ray: Ray, tn: int, td: int) -> bool {
    slab_ok_v(crate::geom::v3(bb.minimum.0), crate::geom::v3(bb.maximum.0), ray, tn, td)
}

/// `[lo2, hi2]` contains `[lo1, hi1]`, componentwise.
pub open spec fn contains_v(lo2: crate::geom::V3, hi2: crate::geom::V3, lo1: crate::geom::V3,
    hi1: crate::geom::V3) -> bool {
    lo2.x <= lo1.x && lo2.y <= lo1.y && lo2.z <= lo1.z && hi1.x <= hi2.x && hi1.y <= hi2.y
        && hi1.z <= hi2.z
}

/// Whatever the slab constraints accept for an inner range they accept for
/// any enclosing range: the per-axis constraints only relax.
pub proof fn lemma_slab_relax(lo2: crate::geom::V3, hi2: crate::geom::V3, lo1: crate::geom::V3,
    hi1: crate::geom::V3, ray: Ray, tn: int, td: int)
    requires
        contains_v(lo2, hi2, lo1, hi1),
        slab_ok_v(lo1, hi1, ray, tn, td),
        td > 0,
    ensures
        slab_ok_v(lo2, hi2, ray, tn, td),
{
    lemma_axis_relax(lo2.x, hi2.x, lo1.x, hi1.x, ray.origin.0.x as int, ray.direction.x as int,
        tn, td);
    lemma_axis_relax(lo2.y, hi2.y, lo1.y, hi1.y, ray.origin.0.y as int, ray.direction.y as int,
        tn, td);
    lemma_axis_relax(lo2.z, hi2.z, lo1.z, hi1.z, ray.origin.0.z as int, ray.direction.z as int,
        tn, td);
}

/// Some parameter in the window puts the ray inside the box.
pub open spec fn spec_slab_hit_i(bb: AaBoundingBox, ray: Ray, tminn: int, tmind: int,
    tmaxn: int, tmaxd: int) -> bool {
    exists|tn: int, td: int|
        #[trigger] in_window_i(tminn, tmind, tmaxn, tmaxd, tn, td) && slab_ok(bb, ray, tn, td)
}

/// Some parameter in the window puts the ray inside the box.
pub open spec fn spec_slab_hit(bb: AaBoundingBox, ray: Ray, tmin: Rat, tmax: Rat) -> bool {
    spec_slab_hit_i(bb, ray, tmin.num as int, tmin.den as int, tmax.num as int, tmax.den as int)
}

/// The componentwise union of two boxes.
pub open spec fn box_union(a: AaBoundingBox, b: AaBoundingBox) -> AaBoundingBox {
    AaBoundingBox {
        minimum: Point(
            Vec3 {
                x: imin(a.minimum.0.x, b.minimum.0.x),
                y: imin(a.minimum.0.y, b.minimum.0.y),
                z: imin(a.minimum.0.z, b.minimum.0.z),
            },
        ),
        maximum: Point(
            Vec3 {
                x: imax(a.maximum.0.x, b.maximum.0.x),
                y: imax(a.maximum.0.y, b.maximum.0.y),
                z: imax(a.maximum.0.z, b.maximum.0.z),
            },
        ),
    }
}

pub open spec fn imin(a: i64, b: i64) -> i64 {
    if a <= b {
        a
    } else {
        b
    }
}

pub open spec fn imax(a: i64, b: i64) -> i64 {
    if a <= b {
        b
    } else {
        a
    }
}

/// Box union is commutative.
pub proof fn lemma_union_commutative(a: AaBoundingBox, b: AaBoundingBox)
    ensures
        box_union(a, b) == box_union(b, a),
{
}

/// Box union is associative.
pub proof fn lemma_union_associative(a: AaBoundingBox, b: AaBoundingBox, c: AaBoundingBox)
    ensures
        box_union(box_union(a, b), c) == box_union(a, box_union(b, c)),
{
}

/// A box united with itself is itself.
pub proof fn lemma_union_idempotent(a: AaBoundingBox)
    ensures
        box_union(a, a) == a,
{
}

proof fn lemma_axis_relax(lo2: int, hi2: int, lo1: int, hi1: int, o: int, d: int, tn: int,
    td: int)
    requires
        lo2 <= lo1,
        hi1 <= hi2,
        td > 0,
        axis_ok(lo1, hi1, o, d, tn, td),
    ensures
        axis_ok(lo2, hi2, o, d, tn, td),
{
    assert(lo2 * td <= lo1 * td && hi1 * td <= hi2 * td) by (nonlinear_arith)
        requires
            lo2 <= lo1,
            hi1 <= hi2,
            td > 0,
    ;
}

impl AaBoundingBox {
    /// Componentwise ordered corners within the scene bound.
    pub open spec fn wf(self) -> bool {
        self.minimum.0.x <= self.maximum.0.x && self.minimum.0.y <= self.maximum.0.y
            && self.minimum.0.z <= self.maximum.0.z && in_bound(self.minimum.0, COORD_MAX as int)
            && in_bound(self.maximum.0, COORD_MAX as int)
    }

    pub fn new(minimum: Point, maximum: Point) -> (r: AaBoundingBox)
        ensures
            r == (AaBoundingBox { minimum, maximum }),
    {
        AaBoundingBox { minimum, maximum }
    }

    /// The smallest box containing `self` and `other`.
    pub fn surrounding_box(&self, other: &AaBoundingBox) -> (r: AaBoundingBox)
        ensures
            r == box_union(*self, *other),
    {
        let minimum = Vec3 {
            x: if self.minimum.0.x <= other.minimum.0.x {
                self.minimum.0.x
            } else {
                other.minimum.0.x
            },
            y: if self.minimum.0.y <= other.minimum.0.y {
                self.minimum.0.y
            } else {
                other.minimum.0.y
            },
            z: if self.minimum.0.z <= other.minimum.0.z {
                self.minimum.0.z
            } else {
                other.minimum.0.z
            },
        };
        let maximum = Vec3 {
            x: if self.maximum.0.x <= other.maximum.0.x {
                other.maximum.0.x
            } else {
                self.maximum.0.x
            },
            y: if self.maximum.0.y <= other.maximum.0.y {
                other.maximum.0.y
            } else {
                self.maximum.0.y
            },
            z: if self.maximum.0.z <= other.maximum.0.z {
                other.maximum.0.z
            } else {
                self.maximum.0.z
            },
        };
        AaBoundingBox { minimum: Point(minimum), maximum: Point(maximum) }
    }

    /// The slab test: exactly whether some parameter in `[t_min, t_max]`
    /// puts the ray inside the box on all three axes.
    pub fn hit(&self, ray: &Ray, t_min: &Rat, t_max: &Rat) -> (r: bool)
        requires
            self.wf(),
            ray.wf(),
            t_min.wf(),
            t_max.wf(),
        ensures
            r == spec_slab_hit(*self, *ray, *t_min, *t_max),
    {
        let (ok_x, lo_x, hi_x) = clip_axis(self.minimum.0.x, self.maximum.0.x, ray.origin.0.x,
            ray.direction.x, *t_min, *t_max);
        if !ok_x {
            proof {
                assert forall|tn: int, td: int|
                    !(#[trigger] in_window_i(t_min.num as int, t_min.den as int,
                    t_max.num as int, t_max.den as int, tn, td) && slab_ok(*self, *ray, tn,
                    td)) by {
                    if in_window(*t_min, *t_max, tn, td) && slab_ok(*self, *ray, tn, td) {
                    }
                }
            }
            return false;
        }
        let (ok_y, lo_y, hi_y) = clip_axis(self.minimum.0.y, self.maximum.0.y, ray.origin.0.y,
            ray.direction.y, lo_x, hi_x);
        if !ok_y {
            proof {
                assert forall|tn: int, td: int|
                    !(#[trigger] in_window_i(t_min.num as int, t_min.den as int,
                    t_max.num as int, t_max.den as int, tn, td) && slab_ok(*self, *ray, tn,
                    td)) by {
                    if in_window(*t_min, *t_max, tn, td) && slab_ok(*self, *ray, tn, td) {
                        assert(in_window(lo_x, hi_x, tn, td));
                    }
                }
            }
            return false;
        }
        let (ok_z, lo_z, hi_z) = clip_axis(self.minimum.0.z, self.maximum.0.z, ray.origin.0.z,
            ray.direction.z, lo_y, hi_y);
        let nonempty = if ok_z {
            lo_z.le(&hi_z)
        } else {
            false
        };
        proof {
            if ok_z && nonempty {
                assert(in_window(lo_z, hi_z, lo_z.num as int, lo_z.den as int));
                assert(in_window(lo_y, hi_y, lo_z.num as int, lo_z.den as int));
                assert(in_window(lo_x, hi_x, lo_z.num as int, lo_z.den as int));
                assert(in_window_i(t_min.num as int, t_min.den as int, t_max.num as int,
                    t_max.den as int, lo_z.num as int, lo_z.den as int) && slab_ok(*self, *ray,
                    lo_z.num as int, lo_z.den as int));
            } else {
                assert forall|tn: int, td: int|
                    !(#[trigger] in_window_i(t_min.num as int, t_min.den as int,
                    t_max.num as int, t_max.den as int, tn, td) && slab_ok(*self, *ray, tn,
                    td)) by {
                    if in_window(*t_min, *t_max, tn, td) && slab_ok(*self, *ray, tn, td) {
                        assert(in_window(lo_x, hi_x, tn, td));
                        assert(in_window(lo_y, hi_y, tn, td));
                        assert(in_window(lo_z, hi_z, tn, td));
                        lemma_frac_le_trans(lo_z.num as int, lo_z.den as int, tn, td,
                            hi_z.num as int, hi_z.den as int);
                    }
                }
            }
        }
        nonempty
    }
}

/// Clip the window `[lo, hi]` against one axis.
///
/// The returned flag and window characterise exactly the parameters that
/// were in the incoming window and keep the ray inside `[omin, omax]` on
/// this axis.
fn clip_axis(omin: i64, omax: i64, o: i64, d: i64, lo: Rat, hi: Rat) -> (res: (bool, Rat, Rat))
    requires
        lo.wf(),
        hi.wf(),
        -COORD_MAX <= omin <= COORD_MAX,
        -COORD_MAX <= omax <= COORD_MAX,
        -COORD_MAX <= o <= COORD_MAX,
        -COORD_MAX <= d <= COORD_MAX,
    ensures
        res.1.wf(),
        res.2.wf(),
        forall|tn: int, td: int|
            #![trigger in_window(lo, hi, tn, td)]
            #![trigger in_window(res.1, res.2, tn, td)]
            (in_window(lo, hi, tn, td) && axis_ok(omin as int, omax as int, o as int, d as int,
                tn, td)) == (res.0 && in_window(res.1, res.2, tn, td)),
{
    if d == 0 {
        let inside = omin <= o && o <= omax;
        proof {
            assert forall|tn: int, td: int| td > 0 implies axis_ok(omin as int, omax as int,
                o as int, d as int, tn, td) == inside by {
                assert((omin * td <= o * td + tn * 0 && o * td + tn * 0 <= omax * td) == (omin
                    <= o && o <= omax)) by (nonlinear_arith)
                    requires
                        td > 0,
                ;
            }
        }
        (inside, lo, hi)
    } else {
        let (a_lo, a_hi): (Rat, Rat) = if d > 0 {
            (Rat::new(omin - o, d), Rat::new(omax - o, d))
        } else {
            (Rat::new(o - omax, -d), Rat::new(o - omin, -d))
        };
        proof {
            assert forall|tn: int, td: int| td > 0 implies axis_ok(omin as int, omax as int,
                o as int, d as int, tn, td) == (frac_le(a_lo.num as int, a_lo.den as int, tn, td)
                && frac_le(tn, td, a_hi.num as int, a_hi.den as int)) by {
                if d > 0 {
                    assert((omin * td <= o * td + tn * d && o * td + tn * d <= omax * td) == ((
                    omin - o) * td <= tn * d && tn * d <= (omax - o) * td)) by (nonlinear_arith)
                        requires
                            td > 0,
                    ;
                } else {
                    assert((omin * td <= o * td + tn * d && o * td + tn * d <= omax * td) == (tn
                        * (-d) <= (o - omin) * td && (o - omax) * td <= tn * (-d)))
                        by (nonlinear_arith)
                        requires
                            td > 0,
                    ;
                }
            }
        }
        let new_lo = if lo.le(&a_lo) {
            a_lo
        } else {
            lo
        };
        let new_hi = if hi.le(&a_hi) {
            hi
        } else {
            a_hi
        };
        proof {
            assert forall|tn: int, td: int| td > 0 implies (frac_le(lo.num as int, lo.den as int,
                tn, td) && frac_le(a_lo.num as int, a_lo.den as int, tn, td)) == frac_le(
                new_lo.num as int, new_lo.den as int, tn, td) by {
                if lo.spec_le(a_lo) {
                    if frac_le(a_lo.num as int, a_lo.den as int, tn, td) {
                        lemma_frac_le_trans(lo.num as int, lo.den as int, a_lo.num as int,
                            a_lo.den as int, tn, td);
                    }
                } else {
                    lemma_frac_le_total(lo.num as int, lo.den as int, a_lo.num as int,
                        a_lo.den as int);
                    if frac_le(lo.num as int, lo.den as int, tn, td) {
                        lemma_frac_le_trans(a_lo.num as int, a_lo.den as int, lo.num as int,
                            lo.den as int, tn, td);
                    }
                }
            }
            assert forall|tn: int, td: int| td > 0 implies (frac_le(tn, td, hi.num as int,
                hi.den as int) && frac_le(tn, td, a_hi.num as int, a_hi.den as int)) == frac_le(
                tn, td, new_hi.num as int, new_hi.den as int) by {
                if hi.spec_le(a_hi) {
                    if frac_le(tn, td, hi.num as int, hi.den as int) {
                        lemma_frac_le_trans(tn, td, hi.num as int, hi.den as int,
                            a_hi.num as int, a_hi.den as int);
                    }
                } else {
                    lemma_frac_le_total(hi.num as int, hi.den as int, a_hi.num as int,
                        a_hi.den as int);
                    if frac_le(tn, td, a_hi.num as int, a_hi.den as int) {
                        lemma_frac_le_trans(tn, td, a_hi.num as int, a_hi.den as int,
                            hi.num as int, hi.den as int);
                    }
                }
            }
        }
        (true, new_lo, new_hi)
    }
}

} // verus!
