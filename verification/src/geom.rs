//! Three-component vector algebra over fixed-point scalars.
//!
//! An executable [`Vec3`] holds 16.16 fixed-point components.  The
//! specification layer works on [`V3`], the same vector with unbounded
//! integer components, on which the geometric identities (reflection,
//! refraction) are exact.

use vstd::prelude::*;

use crate::num::{div_floor, div_floor_i128, isqrt_u128, is_sqrt, lemma_div_bounds, lemma_mul_bound,
    sqrt_spec, wide_mul, ONE, ONE_SQ};
use crate::random::{next_state, range_sample, state_after, Random};

verus! {

/// A fixed-point vector; each component is a real value scaled by `ONE`.
#[derive(Clone, Copy, PartialEq, Eq, Structural, Debug)]
pub struct Vec3 {
    pub x: i64,
    pub y: i64,
    pub z: i64,
}

/// A position, as opposed to a direction; the representation is the same.
#[derive(Clone, Copy, PartialEq, Eq, Structural, Debug)]
pub struct Point(pub Vec3);

/// A vector with mathematical-integer components, for the specification layer.
pub ghost struct V3 {
    pub x: int,
    pub y: int,
    pub z: int,
}

/// The integer view of an executable vector.
pub open spec fn v3(v: Vec3) -> V3 {
    V3 { x: v.x as int, y: v.y as int, z: v.z as int }
}

pub open spec fn dotv(a: V3, b: V3) -> int {
    a.x * b.x + a.y * b.y + a.z * b.z
}

pub open spec fn addv(a: V3, b: V3) -> V3 {
    V3 { x: a.x + b.x, y: a.y + b.y, z: a.z + b.z }
}

pub open spec fn subv(a: V3, b: V3) -> V3 {
    V3 { x: a.x - b.x, y: a.y - b.y, z: a.z - b.z }
}

pub open spec fn scalev(c: int, a: V3) -> V3 {
    V3 { x: c * a.x, y: c * a.y, z: c * a.z }
}

/// The raw integer dot product of two executable vectors (scale `ONE * ONE`).
pub open spec fn dot3(a: Vec3, b: Vec3) -> int {
    dotv(v3(a), v3(b))
}

/// The raw squared length of an executable vector (scale `ONE * ONE`).
pub open spec fn norm2(a: Vec3) -> int {
    dot3(a, a)
}

/// All components of `v` are within `b` in magnitude.
pub open spec fn in_bound(v: Vec3, b: int) -> bool {
    -b <= v.x <= b && -b <= v.y <= b && -b <= v.z <= b
}

/// Component bound under which the raw dot product fits comfortably in `i64`.
pub const DOT_BOUND: i64 = 1073741824;

/// The scene bound: every coordinate, radius and time in a well-formed scene
/// stays within this magnitude (4096 in real units), which keeps the whole
/// intersection arithmetic within `i128`.
pub const COORD_MAX: i64 = 268435456;

/// Component bound for the material formulas (reflection, refraction),
/// amply above anything a unit-length fixed-point vector can hold.
pub const GEOM_BOUND: i64 = 1048576;

/// The zero vector has zero squared length.
pub proof fn lemma_zero_norm2()
    ensures
        norm2(Vec3 { x: 0, y: 0, z: 0 }) == 0,
{
}

/// The quarter-unit fallback sample has a quarter-unit squared length.
proof fn lemma_fallback_norm2()
    ensures
        norm2(Vec3 { x: 32768, y: 0, z: 0 }) == 0x40000000,
{
}

/// Squared norms are nonnegative.
pub proof fn lemma_norm2_nonneg(a: V3)
    ensures
        dotv(a, a) >= 0,
{
    assert(a.x * a.x + a.y * a.y + a.z * a.z >= 0) by (nonlinear_arith);
}

/// Products of pairs can be regrouped.
proof fn lemma_mul4(a: int, b: int, c: int, d: int)
    ensures
        (a * b) * (c * d) == (a * c) * (b * d),
{
    assert((a * b) * (c * d) == (a * c) * (b * d)) by (nonlinear_arith);
}

/// One component of the squared-norm expansion.
proof fn lemma_sq_expand(al: int, ax: int, be: int, bx: int)
    ensures
        (al * ax - be * bx) * (al * ax - be * bx)
            == (al * al) * (ax * ax) - 2 * ((al * be) * (ax * bx)) + (be * be) * (bx * bx),
{
    let p = al * ax;
    let q = be * bx;
    assert((p - q) * (p - q) == p * p - 2 * (p * q) + q * q) by (nonlinear_arith);
    lemma_mul4(al, ax, al, ax);
    lemma_mul4(al, ax, be, bx);
    lemma_mul4(be, bx, be, bx);
}

/// Multiplication distributes over a three-term sum.
proof fn lemma_mul_distrib3(c: int, p: int, q: int, r: int)
    ensures
        c * (p + q + r) == c * p + c * q + c * r,
{
    assert(c * (p + q + r) == c * p + c * q + c * r) by (nonlinear_arith);
}

/// Expansion of the squared norm of `alpha * a - beta * b`.
pub proof fn lemma_dot_sub_expand(alpha: int, a: V3, beta: int, b: V3)
    ensures
        dotv(subv(scalev(alpha, a), scalev(beta, b)), subv(scalev(alpha, a), scalev(beta, b)))
            == (alpha * alpha) * dotv(a, a) - 2 * ((alpha * beta) * dotv(a, b))
                + (beta * beta) * dotv(b, b),
{
    lemma_sq_expand(alpha, a.x, beta, b.x);
    lemma_sq_expand(alpha, a.y, beta, b.y);
    lemma_sq_expand(alpha, a.z, beta, b.z);
    lemma_mul_distrib3(alpha * alpha, a.x * a.x, a.y * a.y, a.z * a.z);
    lemma_mul_distrib3(alpha * beta, a.x * b.x, a.y * b.y, a.z * b.z);
    lemma_mul_distrib3(beta * beta, b.x * b.x, b.y * b.y, b.z * b.z);
}

/// One component of the dot-product linearity expansion.
proof fn lemma_lin_expand(al: int, ax: int, be: int, bx: int, cx: int)
    ensures
        (al * ax - be * bx) * cx == al * (ax * cx) - be * (bx * cx),
{
    let p = al * ax;
    let q = be * bx;
    assert((p - q) * cx == p * cx - q * cx) by (nonlinear_arith);
    assert((al * ax) * cx == al * (ax * cx)) by (nonlinear_arith);
    assert((be * bx) * cx == be * (bx * cx)) by (nonlinear_arith);
}

/// The dot product is linear in its left argument.
pub proof fn lemma_dot_sub_linear(alpha: int, a: V3, beta: int, b: V3, c: V3)
    ensures
        dotv(subv(scalev(alpha, a), scalev(beta, b)), c)
            == alpha * dotv(a, c) - beta * dotv(b, c),
{
    lemma_lin_expand(alpha, a.x, beta, b.x, c.x);
    lemma_lin_expand(alpha, a.y, beta, b.y, c.y);
    lemma_lin_expand(alpha, a.z, beta, b.z, c.z);
    lemma_mul_distrib3(alpha, a.x * c.x, a.y * c.y, a.z * c.z);
    lemma_mul_distrib3(beta, b.x * c.x, b.y * c.y, b.z * c.z);
}

/// Reflection preserves magnitude, and its normal component is the
/// negated normal component of the incoming direction.
///
/// Stated homogeneously: for a normal `n` with `n . n == m` (so `n / sqrt(m)`
/// is the unit normal), `r == m * d - 2 (d . n) n` is `m` times the exact
/// reflection of `d`, and satisfies `|r|^2 == m^2 |d|^2` --- that is,
/// `|reflect(d)| == |d|` --- and `r . n == -m (d . n)`.
pub proof fn lemma_reflect_preserves_magnitude(d: V3, n: V3, m: int)
    requires
        m > 0,
        dotv(n, n) == m,
    ensures
        dotv(subv(scalev(m, d), scalev(2 * dotv(d, n), n)),
            subv(scalev(m, d), scalev(2 * dotv(d, n), n))) == (m * m) * dotv(d, d),
        dotv(subv(scalev(m, d), scalev(2 * dotv(d, n), n)), n) == -(m * dotv(d, n)),
{
    let k = dotv(d, n);
    lemma_dot_sub_expand(m, d, 2 * k, n);
    assert(-(2 * ((m * (2 * k)) * k)) + ((2 * k) * (2 * k)) * m == 0) by (nonlinear_arith);
    lemma_dot_sub_linear(m, d, 2 * k, n, n);
    assert(m * k - (2 * k) * m == -(m * k)) by (nonlinear_arith);
}

/// What `unit_norm` returns: each component is `c * ONE / sqrt(|v|^2)`,
/// rounded toward minus infinity; the zero vector maps to itself.
pub open spec fn spec_unit_norm(v: Vec3) -> V3 {
    let l = sqrt_spec(norm2(v));
    if l == 0 {
        V3 { x: 0, y: 0, z: 0 }
    } else {
        V3 {
            x: (v.x * ONE) / (l as int),
            y: (v.y * ONE) / (l as int),
            z: (v.z * ONE) / (l as int),
        }
    }
}

/// What `reflect` returns, with the same two rounding steps as the code.
pub open spec fn spec_reflect(d: Vec3, n: Vec3) -> V3 {
    let twok = (2 * dot3(d, n)) / (ONE as int);
    V3 {
        x: d.x - (n.x * twok) / (ONE as int),
        y: d.y - (n.y * twok) / (ONE as int),
        z: d.z - (n.z * twok) / (ONE as int),
    }
}

/// Reflection of vectors bounded by `b` stays within `97 b`.
pub proof fn lemma_reflect_range(d: Vec3, n: Vec3, b: int)
    requires
        in_bound(d, b),
        in_bound(n, b),
        0 < b <= 262144,
    ensures
        -(97 * b) <= spec_reflect(d, n).x <= 97 * b,
        -(97 * b) <= spec_reflect(d, n).y <= 97 * b,
        -(97 * b) <= spec_reflect(d, n).z <= 97 * b,
{
    lemma_dot_range(d, n, b);
    let dd = dot3(d, n);
    assert(-(24 * b * (ONE as int)) <= 2 * dd <= 24 * b * (ONE as int)) by (nonlinear_arith)
        requires
            -(3 * (b * b)) <= dd <= 3 * (b * b),
            0 < b <= 262144,
    ;
    crate::num::lemma_div_range(2 * dd, 24 * b, ONE as int);
    let twok = (2 * dd) / (ONE as int);
    lemma_mul_bound(n.x as int, twok, b, 24 * b);
    lemma_mul_bound(n.y as int, twok, b, 24 * b);
    lemma_mul_bound(n.z as int, twok, b, 24 * b);
    assert(b * (24 * b) <= 96 * b * (ONE as int)) by (nonlinear_arith)
        requires
            0 < b <= 262144,
    ;
    crate::num::lemma_div_range(n.x as int * twok, 96 * b, ONE as int);
    crate::num::lemma_div_range(n.y as int * twok, 96 * b, ONE as int);
    crate::num::lemma_div_range(n.z as int * twok, 96 * b, ONE as int);
}

/// The clamped incidence cosine used by `refract` (fixed point).
pub open spec fn rf_cos(d: Vec3, n: Vec3) -> int {
    let c = (-dot3(d, n)) / (ONE as int);
    if c > ONE {
        ONE as int
    } else {
        c
    }
}

/// One component of the perpendicular part built by `refract`.
pub open spec fn rf_perp_c(dc: int, nc: int, cos: int, ratio: int) -> int {
    ((dc + (nc * cos) / (ONE as int)) * ratio) / (ONE as int)
}

/// The perpendicular part of the refracted direction.
pub open spec fn rf_perp(d: Vec3, n: Vec3, ratio: int) -> V3 {
    let cos = rf_cos(d, n);
    V3 {
        x: rf_perp_c(d.x as int, n.x as int, cos, ratio),
        y: rf_perp_c(d.y as int, n.y as int, cos, ratio),
        z: rf_perp_c(d.z as int, n.z as int, cos, ratio),
    }
}

/// The clamped squared length of the parallel part built by `refract`.
pub open spec fn rf_k(d: Vec3, n: Vec3, ratio: int) -> int {
    let p = rf_perp(d, n, ratio);
    let k = ONE_SQ - dotv(p, p);
    if k < 0 {
        0
    } else {
        k
    }
}

/// What `refract` returns.
pub open spec fn spec_refract(d: Vec3, n: Vec3, ratio: int) -> V3 {
    let p = rf_perp(d, n, ratio);
    let s = sqrt_spec(rf_k(d, n, ratio));
    V3 {
        x: p.x + (n.x * (-s)) / (ONE as int),
        y: p.y + (n.y * (-s)) / (ONE as int),
        z: p.z + (n.z * (-s)) / (ONE as int),
    }
}

/// Every component is bounded in magnitude by any integer square root
/// of the squared norm.
proof fn lemma_comp_le_sqrt(v: Vec3, l: int)
    requires
        is_sqrt(l, norm2(v)),
    ensures
        -l <= v.x <= l,
        -l <= v.y <= l,
        -l <= v.z <= l,
{
    assert(-l <= v.x <= l && -l <= v.y <= l && -l <= v.z <= l) by (nonlinear_arith)
        requires
            l >= 0,
            (l + 1) * (l + 1) > v.x as int * v.x as int + v.y as int * v.y as int + v.z as int
                * v.z as int,
    ;
}

/// A component no larger than the length divides to a unit-range value.
proof fn lemma_unit_comp(x: int, l: int)
    requires
        -l <= x <= l,
        l > 0,
    ensures
        -(ONE as int) <= (x * ONE) / l <= ONE as int,
{
    assert(x * ONE <= l * ONE && -(l * ONE) <= x * ONE) by (nonlinear_arith)
        requires
            -l <= x <= l,
            l > 0,
    ;
    vstd::arithmetic::div_mod::lemma_div_is_ordered(x * ONE, l * ONE, l);
    vstd::arithmetic::div_mod::lemma_div_is_ordered(-(l * (ONE as int)), x * ONE, l);
    vstd::arithmetic::div_mod::lemma_div_multiples_vanish(ONE as int, l);
    vstd::arithmetic::div_mod::lemma_div_multiples_vanish(-(ONE as int), l);
}


/// Floor-normalizing a vector of at least a quarter unit lands within a
/// narrow band of unit length: `ONE_SQ - 6 ONE <= |v / |v||^2 <= ONE_SQ
/// + 15 ONE`.
pub proof fn lemma_unit_norm_band(v: Vec3, l: int)
    requires
        is_sqrt(l, norm2(v)),
        l >= 16384,
    ensures
        ({
            let q = spec_unit_norm(v);
            ONE_SQ - 6 * (ONE as int) <= dotv(q, q) <= ONE_SQ + 15 * (ONE as int)
        }),
{
    crate::num::lemma_sqrt_spec(l, norm2(v));
    lemma_comp_le_sqrt(v, l);
    let n2 = norm2(v);
    let q = spec_unit_norm(v);
    lemma_band_comp(v.x as int, l);
    lemma_band_comp(v.y as int, l);
    lemma_band_comp(v.z as int, l);
    let qx = (v.x * ONE) / l;
    let qy = (v.y * ONE) / l;
    let qz = (v.z * ONE) / l;
    let one = ONE as int;
    assert(dotv(q, q) == qx * qx + qy * qy + qz * qz);
    lemma_mul_distrib3(l * l, qx * qx, qy * qy, qz * qz);
    lemma_mul4(l, qx, l, qx);
    lemma_mul4(l, qy, l, qy);
    lemma_mul4(l, qz, l, qz);
    assert(n2 == v.x * v.x + v.y * v.y + v.z * v.z);
    lemma_mul_distrib3(one * one, v.x * v.x, v.y * v.y, v.z * v.z);
    lemma_mul4(v.x as int, one, v.x as int, one);
    lemma_mul4(v.y as int, one, v.y as int, one);
    lemma_mul4(v.z as int, one, v.z as int, one);
    // the two sum bounds are now linear combinations of the per-component
    // bounds, through the regroupings above
    assert((l * l) * dotv(q, q) >= (one * one) * n2 - 6 * (one * (l * l)));
    assert((l * l) * dotv(q, q) <= (one * one) * n2 + 6 * (one * (l * l)) + 3 * (l * l));
    assert((one * one) * n2 >= (one * one) * (l * l)) by (nonlinear_arith)
        requires
            n2 >= l * l,
    ;
    assert((one * one) * n2 <= (one * one) * (l * l) + 2 * ((one * one) * l)) by (
    nonlinear_arith)
        requires
            n2 < (l + 1) * (l + 1),
            l > 0,
    ;
    assert(dotv(q, q) >= ONE_SQ - 6 * one) by (nonlinear_arith)
        requires
            (l * l) * dotv(q, q) >= (one * one) * (l * l) - 6 * (one * (l * l)),
            l > 0,
            one == 65536,
            ONE_SQ == 4294967296,
    ;
    assert(2 * ((one * one) * l) <= 8 * (one * (l * l))) by (nonlinear_arith)
        requires
            l >= 16384,
            one == 65536,
    ;
    assert(dotv(q, q) <= ONE_SQ + 15 * one) by (nonlinear_arith)
        requires
            (l * l) * dotv(q, q) <= (one * one) * (l * l) + 14 * (one * (l * l)) + 3 * (l
                * l),
            l > 0,
            one == 65536,
            ONE_SQ == 4294967296,
    ;
}

/// One component of the normalization band: the rescaled component is
/// within one floor step of the exact value.
proof fn lemma_band_comp(x: int, l: int)
    requires
        l > 0,
        -l <= x <= l,
    ensures
        (l * ((x * ONE) / l)) * (l * ((x * ONE) / l)) >= (x * (ONE as int)) * (x * (
        ONE as int)) - 2 * ((ONE as int) * (l * l)),
        (l * ((x * ONE) / l)) * (l * ((x * ONE) / l)) <= (x * (ONE as int)) * (x * (
        ONE as int)) + 2 * ((ONE as int) * (l * l)) + l * l,
{
    vstd::arithmetic::div_mod::lemma_fundamental_div_mod(x * ONE, l);
    vstd::arithmetic::div_mod::lemma_mod_division_less_than_divisor(x * ONE, l);
    let q = (x * ONE) / l;
    let rem = (x * ONE) % l;
    assert(l * q == x * (ONE as int) - rem);
    assert((x * (ONE as int) - rem) * (x * (ONE as int) - rem) >= (x * (ONE as int)) * (x * (
    ONE as int)) - 2 * ((ONE as int) * (l * l)) && (x * (ONE as int) - rem) * (x * (
    ONE as int) - rem) <= (x * (ONE as int)) * (x * (ONE as int)) + 2 * ((ONE as int) * (l
        * l)) + l * l) by (nonlinear_arith)
        requires
            0 <= rem < l,
            -l <= x <= l,
            l > 0,
    ;
}

/// The raw dot product of vectors bounded by `b` is within `3 b^2`.
pub proof fn lemma_dot_range(a: Vec3, w: Vec3, b: int)
    requires
        in_bound(a, b),
        in_bound(w, b),
        b >= 0,
    ensures
        -(3 * (b * b)) <= dot3(a, w) <= 3 * (b * b),
{
    lemma_mul_bound(a.x as int, w.x as int, b, b);
    lemma_mul_bound(a.y as int, w.y as int, b, b);
    lemma_mul_bound(a.z as int, w.z as int, b, b);
}

/// `scalar_mul` keeps components within `bout` whenever the product of the
/// argument bounds is at most `bout * ONE`.
pub proof fn lemma_scaled_range(v: Vec3, m: int, bv: int, bm: int, bout: int)
    requires
        in_bound(v, bv),
        -bm <= m <= bm,
        bv >= 0,
        bm >= 0,
        bv * bm <= bout * ONE,
    ensures
        -bout <= (v.x * m) / (ONE as int) <= bout,
        -bout <= (v.y * m) / (ONE as int) <= bout,
        -bout <= (v.z * m) / (ONE as int) <= bout,
{
    lemma_mul_bound(v.x as int, m, bv, bm);
    lemma_mul_bound(v.y as int, m, bv, bm);
    lemma_mul_bound(v.z as int, m, bv, bm);
    crate::num::lemma_div_range(v.x as int * m, bout, ONE as int);
    crate::num::lemma_div_range(v.y as int * m, bout, ONE as int);
    crate::num::lemma_div_range(v.z as int * m, bout, ONE as int);
}

/// Refraction with a ratio of one is the identity: matching media do not
/// bend rays.
///
/// Stated homogeneously and exactly, before fixed-point rounding: scale both
/// unit vectors by `m` (`u . u == n . n == m * m`) and let `d == u . n <= 0`
/// be the (scaled) incidence cosine of a front hit.  Then `m^3` times the
/// exact perpendicular part is `p == m^2 u - d n`, the parallel part has
/// exact squared length `m^6 - |p|^2 == (m d)^2` whose square root is
/// `-m d`, and perpendicular plus parallel give back `m^2 u`: the refracted
/// direction is the incoming one.
pub proof fn lemma_refract_vacuum(u: V3, n: V3, m: int)
    requires
        m > 0,
        dotv(u, u) == m * m,
        dotv(n, n) == m * m,
        dotv(u, n) <= 0,
    ensures
        ({
            let d = dotv(u, n);
            let p = subv(scalev(m * m, u), scalev(d, n));
            dotv(p, p) == ((m * m) * (m * m)) * (m * m) - (m * d) * (m * d)
                && sqrt_spec((m * d) * (m * d)) == -(m * d)
                && addv(p, scalev(d, n)) == scalev(m * m, u)
        }),
{
    let d = dotv(u, n);
    let p = subv(scalev(m * m, u), scalev(d, n));
    lemma_dot_sub_expand(m * m, u, d, n);
    assert(((m * m) * (m * m)) * (m * m) - 2 * (((m * m) * d) * d) + (d * d) * (m * m)
        == ((m * m) * (m * m)) * (m * m) - (m * d) * (m * d)) by (nonlinear_arith);
    assert(is_sqrt(-(m * d), (m * d) * (m * d))) by (nonlinear_arith)
        requires
            m > 0,
            d <= 0,
    ;
    crate::num::lemma_sqrt_spec(-(m * d), (m * d) * (m * d));
    assert(addv(p, scalev(d, n)) == scalev(m * m, u));
}

/// Tries a rejection sampler makes before it settles for a fixed fallback
/// (the origin for the disk, a quarter-unit axis vector for the ball).
/// The acceptance chance per try is about a half, so in practice the
/// first few tries decide; the cap only bounds the loop for the
/// termination checker.
pub const SAMPLE_CAP: usize = 65536;

/// The candidate the unit-sphere loop draws on its `k`-th try: three
/// uniform fixed-point values in `[-ONE, ONE]`.
pub open spec fn sph_cand(s: u64, k: nat) -> V3 {
    let s0 = state_after(s, 3 * k);
    let s1 = next_state(s0);
    V3 {
        x: range_sample(s0, -ONE as int, ONE as int),
        y: range_sample(s1, -ONE as int, ONE as int),
        z: range_sample(next_state(s1), -ONE as int, ONE as int),
    }
}

/// The `k`-th unit-sphere candidate is accepted: strictly inside the
/// unit ball, and long enough to normalize meaningfully (at least a
/// quarter unit; the float original leans on relative precision there).
pub open spec fn sph_ok(s: u64, k: nat) -> bool {
    268435456 <= dotv(sph_cand(s, k), sph_cand(s, k)) < ONE_SQ
}

/// What one unit-sphere sample did: it returned the first accepted
/// candidate, or the origin after `SAMPLE_CAP` rejections.
pub open spec fn sphere_sample_trace(s: u64, k: nat, v: V3, s2: u64) -> bool {
    if k < SAMPLE_CAP {
        (forall|j: nat| j < k ==> !sph_ok(s, j)) && sph_ok(s, k) && v == sph_cand(s, k) && s2
            == state_after(s, 3 * (k + 1))
    } else {
        k == SAMPLE_CAP && (forall|j: nat| j < SAMPLE_CAP ==> !sph_ok(s, j)) && v == (V3 {
            x: 32768,
            y: 0,
            z: 0,
        }) && s2 == state_after(s, 3 * SAMPLE_CAP as nat)
    }
}

/// The candidate the unit-disk loop draws on its `k`-th try.
pub open spec fn disk_cand(s: u64, k: nat) -> V3 {
    let s0 = state_after(s, 2 * k);
    V3 {
        x: range_sample(s0, -ONE as int, ONE as int),
        y: range_sample(next_state(s0), -ONE as int, ONE as int),
        z: 0,
    }
}

pub open spec fn disk_ok(s: u64, k: nat) -> bool {
    dotv(disk_cand(s, k), disk_cand(s, k)) < ONE_SQ
}

/// What one unit-disk sample did.
pub open spec fn disk_sample_trace(s: u64, k: nat, v: V3, s2: u64) -> bool {
    if k < SAMPLE_CAP {
        (forall|j: nat| j < k ==> !disk_ok(s, j)) && disk_ok(s, k) && v == disk_cand(s, k)
            && s2 == state_after(s, 2 * (k + 1))
    } else {
        k == SAMPLE_CAP && (forall|j: nat| j < SAMPLE_CAP ==> !disk_ok(s, j)) && v == (V3 {
            x: 0,
            y: 0,
            z: 0,
        }) && s2 == state_after(s, 2 * SAMPLE_CAP as nat)
    }
}

/// Some try of the unit-disk sampler produced this vector and state.
pub open spec fn disk_trace_some(s: u64, v: V3, s2: u64) -> bool {
    exists|k: nat| disk_sample_trace(s, k, v, s2)
}

/// Two runs of the unit-sphere sampler from the same state agree: the
/// first accepted try is unique.  With every other postcondition in the
/// library an exact function of its arguments, this is the stochastic
/// half of render determinism.
pub proof fn lemma_sphere_sample_deterministic(s: u64, k1: nat, v1: V3, s1: u64, k2: nat,
    v2: V3, s2: u64)
    requires
        sphere_sample_trace(s, k1, v1, s1),
        sphere_sample_trace(s, k2, v2, s2),
    ensures
        k1 == k2,
        v1 == v2,
        s1 == s2,
{
    if k1 < k2 {
        assert(!sph_ok(s, k1));
    }
    if k2 < k1 {
        assert(!sph_ok(s, k2));
    }
}

/// The unit-disk counterpart of [`lemma_sphere_sample_deterministic`].
pub proof fn lemma_disk_sample_deterministic(s: u64, k1: nat, v1: V3, s1: u64, k2: nat, v2: V3,
    s2: u64)
    requires
        disk_sample_trace(s, k1, v1, s1),
        disk_sample_trace(s, k2, v2, s2),
    ensures
        k1 == k2,
        v1 == v2,
        s1 == s2,
{
    if k1 < k2 {
        assert(!disk_ok(s, k1));
    }
    if k2 < k1 {
        assert(!disk_ok(s, k2));
    }
}

impl Vec3 {
    pub fn new(x: i64, y: i64, z: i64) -> (r: Vec3)
        ensures
            r == (Vec3 { x, y, z }),
    {
        Vec3 { x, y, z }
    }

    /// The vector with all three components equal to `v`.
    pub fn iso(v: i64) -> (r: Vec3)
        ensures
            r == (Vec3 { x: v, y: v, z: v }),
    {
        Vec3 { x: v, y: v, z: v }
    }

    pub fn as_slice(&self) -> (r: [i64; 3])
        ensures
            r[0] == self.x,
            r[1] == self.y,
            r[2] == self.z,
    {
        [self.x, self.y, self.z]
    }

    /// The component on axis `axis` (0, 1 or 2).
    pub fn get(&self, axis: usize) -> (r: i64)
        requires
            axis < 3,
        ensures
            r == self.spec_get(axis as int),
    {
        if axis == 0 {
            self.x
        } else if axis == 1 {
            self.y
        } else {
            self.z
        }
    }

    pub open spec fn spec_get(self, axis: int) -> i64 {
        if axis == 0 {
            self.x
        } else if axis == 1 {
            self.y
        } else {
            self.z
        }
    }

    pub fn add(&self, w: &Vec3) -> (r: Vec3)
        requires
            i64::MIN <= self.x + w.x <= i64::MAX,
            i64::MIN <= self.y + w.y <= i64::MAX,
            i64::MIN <= self.z + w.z <= i64::MAX,
        ensures
            v3(r) == addv(v3(*self), v3(*w)),
    {
        Vec3 { x: self.x + w.x, y: self.y + w.y, z: self.z + w.z }
    }

    pub fn sub(&self, w: &Vec3) -> (r: Vec3)
        requires
            i64::MIN <= self.x - w.x <= i64::MAX,
            i64::MIN <= self.y - w.y <= i64::MAX,
            i64::MIN <= self.z - w.z <= i64::MAX,
        ensures
            v3(r) == subv(v3(*self), v3(*w)),
    {
        Vec3 { x: self.x - w.x, y: self.y - w.y, z: self.z - w.z }
    }

    pub fn neg(&self) -> (r: Vec3)
        requires
            self.x > i64::MIN,
            self.y > i64::MIN,
            self.z > i64::MIN,
        ensures
            v3(r) == scalev(-1, v3(*self)),
    {
        Vec3 { x: -self.x, y: -self.y, z: -self.z }
    }

    /// Fixed-point scaling: each component becomes `c * mult / ONE`, rounded
    /// toward minus infinity.
    pub fn scalar_mul(&self, mult: i64) -> (r: Vec3)
        requires
            in_bound(*self, DOT_BOUND as int),
            -DOT_BOUND <= mult <= DOT_BOUND,
        ensures
            r.x == (self.x * mult) / (ONE as int),
            r.y == (self.y * mult) / (ONE as int),
            r.z == (self.z * mult) / (ONE as int),
    {
        proof {
            lemma_mul_bound(self.x as int, mult as int, DOT_BOUND as int, DOT_BOUND as int);
            lemma_mul_bound(self.y as int, mult as int, DOT_BOUND as int, DOT_BOUND as int);
            lemma_mul_bound(self.z as int, mult as int, DOT_BOUND as int, DOT_BOUND as int);
            lemma_div_bounds(self.x as int * mult as int, ONE as int);
            lemma_div_bounds(self.y as int * mult as int, ONE as int);
            lemma_div_bounds(self.z as int * mult as int, ONE as int);
        }
        let x = div_floor_i128(wide_mul(self.x, mult), ONE as i128) as i64;
        let y = div_floor_i128(wide_mul(self.y, mult), ONE as i128) as i64;
        let z = div_floor_i128(wide_mul(self.z, mult), ONE as i128) as i64;
        Vec3 { x, y, z }
    }

    /// Componentwise fixed-point product.
    pub fn index_wise_mul(&self, v: &Vec3) -> (r: Vec3)
        requires
            in_bound(*self, DOT_BOUND as int),
            in_bound(*v, DOT_BOUND as int),
        ensures
            r.x == (self.x * v.x) / (ONE as int),
            r.y == (self.y * v.y) / (ONE as int),
            r.z == (self.z * v.z) / (ONE as int),
    {
        proof {
            lemma_mul_bound(self.x as int, v.x as int, DOT_BOUND as int, DOT_BOUND as int);
            lemma_mul_bound(self.y as int, v.y as int, DOT_BOUND as int, DOT_BOUND as int);
            lemma_mul_bound(self.z as int, v.z as int, DOT_BOUND as int, DOT_BOUND as int);
            lemma_div_bounds(self.x as int * v.x as int, ONE as int);
            lemma_div_bounds(self.y as int * v.y as int, ONE as int);
            lemma_div_bounds(self.z as int * v.z as int, ONE as int);
        }
        let x = div_floor_i128(wide_mul(self.x, v.x), ONE as i128) as i64;
        let y = div_floor_i128(wide_mul(self.y, v.y), ONE as i128) as i64;
        let z = div_floor_i128(wide_mul(self.z, v.z), ONE as i128) as i64;
        Vec3 { x, y, z }
    }

    /// Fixed-point division by a scalar: each component becomes
    /// `c * ONE / div`, rounded toward minus infinity.
    pub fn scalar_div(&self, div: i64) -> (r: Vec3)
        requires
            div != 0,
            div > i64::MIN,
            in_bound(*self, DOT_BOUND as int),
        ensures
            div > 0 ==> r.x == (self.x * ONE) / (div as int) && r.y == (self.y * ONE) / (
            div as int) && r.z == (self.z * ONE) / (div as int),
            div < 0 ==> r.x == (-(self.x * ONE)) / (-div as int) && r.y == (-(self.y * ONE)) / (
            -div as int) && r.z == (-(self.z * ONE)) / (-div as int),
    {
        let (num_sign, d): (i64, i64) = if div > 0 {
            (1i64, div)
        } else {
            (-1i64, -div)
        };
        proof {
            lemma_mul_bound(self.x as int, ONE as int, DOT_BOUND as int, ONE as int);
            lemma_mul_bound(self.y as int, ONE as int, DOT_BOUND as int, ONE as int);
            lemma_mul_bound(self.z as int, ONE as int, DOT_BOUND as int, ONE as int);
            lemma_div_bounds(num_sign as int * (self.x as int * ONE as int), d as int);
            lemma_div_bounds(num_sign as int * (self.y as int * ONE as int), d as int);
            lemma_div_bounds(num_sign as int * (self.z as int * ONE as int), d as int);
        }
        let sx = wide_mul(self.x, ONE);
        let sy = wide_mul(self.y, ONE);
        let sz = wide_mul(self.z, ONE);
        let (nx, ny, nz) = if num_sign < 0 {
            (-sx, -sy, -sz)
        } else {
            (sx, sy, sz)
        };
        let x = div_floor_i128(nx, d as i128) as i64;
        let y = div_floor_i128(ny, d as i128) as i64;
        let z = div_floor_i128(nz, d as i128) as i64;
        Vec3 { x, y, z }
    }

    /// Raw integer dot product; the result carries scale `ONE * ONE`.
    pub fn dot(&self, w: &Vec3) -> (r: i64)
        requires
            in_bound(*self, DOT_BOUND as int),
            in_bound(*w, DOT_BOUND as int),
        ensures
            r == dot3(*self, *w),
    {
        proof {
            lemma_mul_bound(self.x as int, w.x as int, DOT_BOUND as int, DOT_BOUND as int);
            lemma_mul_bound(self.y as int, w.y as int, DOT_BOUND as int, DOT_BOUND as int);
            lemma_mul_bound(self.z as int, w.z as int, DOT_BOUND as int, DOT_BOUND as int);
        }
        let p = wide_mul(self.x, w.x) + wide_mul(self.y, w.y) + wide_mul(self.z, w.z);
        p as i64
    }

    /// Raw squared length; the result carries scale `ONE * ONE`.
    pub fn length_squared(&self) -> (r: i64)
        requires
            in_bound(*self, DOT_BOUND as int),
        ensures
            r == norm2(*self),
            r >= 0,
    {
        proof {
            lemma_norm2_nonneg(v3(*self));
        }
        self.dot(self)
    }

    /// Fixed-point length: the integer square root of the raw squared length
    /// carries scale `ONE`.
    pub fn length(&self) -> (r: i64)
        requires
            in_bound(*self, DOT_BOUND as int),
        ensures
            r == sqrt_spec(norm2(*self)),
            is_sqrt(r as int, norm2(*self)),
            r >= 0,
    {
        let n2 = self.length_squared();
        let r = isqrt_u128(n2 as u128);
        proof {
            let ri = r as int;
            let n2i = n2 as int;
            assert(ri * ri <= n2i);
            assert(ri <= 0x200000000int) by (nonlinear_arith)
                requires
                    ri >= 0,
                    ri * ri <= n2i,
                    n2i <= 0x10000000000000000int,
            ;
        }
        r as i64
    }

    /// Fixed-point cross product.
    pub fn cross(&self, w: &Vec3) -> (r: Vec3)
        requires
            in_bound(*self, DOT_BOUND as int),
            in_bound(*w, DOT_BOUND as int),
        ensures
            r.x == (self.y * w.z - self.z * w.y) / (ONE as int),
            r.y == (self.z * w.x - self.x * w.z) / (ONE as int),
            r.z == (self.x * w.y - self.y * w.x) / (ONE as int),
    {
        proof {
            lemma_mul_bound(self.y as int, w.z as int, DOT_BOUND as int, DOT_BOUND as int);
            lemma_mul_bound(self.z as int, w.y as int, DOT_BOUND as int, DOT_BOUND as int);
            lemma_mul_bound(self.z as int, w.x as int, DOT_BOUND as int, DOT_BOUND as int);
            lemma_mul_bound(self.x as int, w.z as int, DOT_BOUND as int, DOT_BOUND as int);
            lemma_mul_bound(self.x as int, w.y as int, DOT_BOUND as int, DOT_BOUND as int);
            lemma_mul_bound(self.y as int, w.x as int, DOT_BOUND as int, DOT_BOUND as int);
            lemma_div_bounds(self.y as int * w.z as int - self.z as int * w.y as int, ONE as int);
            lemma_div_bounds(self.z as int * w.x as int - self.x as int * w.z as int, ONE as int);
            lemma_div_bounds(self.x as int * w.y as int - self.y as int * w.x as int, ONE as int);
        }
        let x = div_floor_i128(wide_mul(self.y, w.z) - wide_mul(self.z, w.y), ONE as i128) as i64;
        let y = div_floor_i128(wide_mul(self.z, w.x) - wide_mul(self.x, w.z), ONE as i128) as i64;
        let z = div_floor_i128(wide_mul(self.x, w.y) - wide_mul(self.y, w.x), ONE as i128) as i64;
        Vec3 { x, y, z }
    }

    /// The unit-length direction of `self`, or zero for the zero vector.
    pub fn unit_norm(&self) -> (r: Vec3)
        requires
            in_bound(*self, DOT_BOUND as int),
        ensures
            v3(r) == spec_unit_norm(*self),
            in_bound(r, ONE as int),
            norm2(*self) >= 268435456 ==> ONE_SQ - 6 * (ONE as int) <= norm2(r) <= ONE_SQ
                + 15 * (ONE as int),
    {
        let len = self.length();
        proof {
            if norm2(*self) >= 268435456 {
                assert(len >= 16384) by (nonlinear_arith)
                    requires
                        (len as int + 1) * (len as int + 1) > norm2(*self),
                        norm2(*self) >= 268435456,
                        len >= 0,
                ;
                lemma_unit_norm_band(*self, len as int);
            }
        }
        if len == 0 {
            Vec3 { x: 0, y: 0, z: 0 }
        } else {
            proof {
                lemma_comp_le_sqrt(*self, len as int);
                lemma_unit_comp(self.x as int, len as int);
                lemma_unit_comp(self.y as int, len as int);
                lemma_unit_comp(self.z as int, len as int);
            }
            let x = div_floor_i128(wide_mul(self.x, ONE), len as i128) as i64;
            let y = div_floor_i128(wide_mul(self.y, ONE), len as i128) as i64;
            let z = div_floor_i128(wide_mul(self.z, ONE), len as i128) as i64;
            Vec3 { x, y, z }
        }
    }

    /// The reflection of `self` about `normal`: `self - 2 (self . normal) normal`,
    /// evaluated in fixed point as the original expression
    /// `self - normal.scalar_mul(2 * dot)`.
    pub fn reflect(&self, normal: &Vec3) -> (r: Vec3)
        requires
            in_bound(*self, GEOM_BOUND as int),
            in_bound(*normal, GEOM_BOUND as int),
        ensures
            v3(r) == spec_reflect(*self, *normal),
    {
        let d = self.dot(normal);
        proof {
            lemma_dot_range(*self, *normal, GEOM_BOUND as int);
            lemma_div_bounds(2 * d, ONE as int);
        }
        let twok = div_floor(2 * d, ONE);
        let scaled = normal.scalar_mul(twok);
        proof {
            lemma_mul_bound(normal.x as int, twok as int, GEOM_BOUND as int, 0x20000000000int);
            lemma_mul_bound(normal.y as int, twok as int, GEOM_BOUND as int, 0x20000000000int);
            lemma_mul_bound(normal.z as int, twok as int, GEOM_BOUND as int, 0x20000000000int);
            lemma_div_bounds(normal.x as int * twok as int, ONE as int);
            lemma_div_bounds(normal.y as int * twok as int, ONE as int);
            lemma_div_bounds(normal.z as int * twok as int, ONE as int);
        }
        self.sub(&scaled)
    }

    /// Snell refraction of the unit direction `self` about the unit `normal`,
    /// with ratio of refractive indices `eta_ratio` (fixed point).
    pub fn refract(&self, normal: &Vec3, eta_ratio: i64) -> (r: Vec3)
        requires
            in_bound(*self, 2 * ONE as int),
            in_bound(*normal, 2 * ONE as int),
            0 <= eta_ratio <= 16 * ONE,
        ensures
            v3(r) == spec_refract(*self, *normal, eta_ratio as int),
            in_bound(r, 27394048),
    {
        let d = self.dot(normal);
        proof {
            lemma_dot_range(*self, *normal, 131072);
            crate::num::lemma_div_range(-d as int, 786432, 65536);
        }
        let c0 = div_floor(-d, ONE);
        let cos = if c0 > ONE {
            ONE
        } else {
            c0
        };
        let scaled_n = normal.scalar_mul(cos);
        proof {
            lemma_scaled_range(*normal, cos as int, 131072, 786432, 1572864);
        }
        let summed = self.add(&scaled_n);
        let perp = summed.scalar_mul(eta_ratio);
        proof {
            lemma_scaled_range(summed, eta_ratio as int, 1703936, 1048576, 27262976);
        }
        let perp_n2 = perp.length_squared();
        let k = if ONE_SQ < perp_n2 {
            0
        } else {
            ONE_SQ - perp_n2
        };
        let s128 = isqrt_u128(k as u128);
        proof {
            assert(s128 as int <= ONE as int) by (nonlinear_arith)
                requires
                    s128 as int >= 0,
                    (s128 as int) * (s128 as int) <= k as int,
                    k as int <= (ONE as int) * (ONE as int),
            ;
        }
        let s = s128 as i64;
        let par = normal.scalar_mul(-s);
        proof {
            lemma_scaled_range(*normal, -s as int, 131072, 65536, 131072);
        }
        perp.add(&par)
    }


    /// A vector with three uniform channels in `[0, ONE)`.
    pub fn random(r: &mut Random) -> (v: Vec3)
        ensures
            v.x == crate::random::unit_sample(old(r).state),
            v.y == crate::random::unit_sample(next_state(old(r).state)),
            v.z == crate::random::unit_sample(state_after(old(r).state, 2)),
            final(r).state == state_after(old(r).state, 3),
            in_bound(v, ONE as int),
            0 <= v.x && 0 <= v.y && 0 <= v.z,
    {
        let ghost s0 = r.state;
        let x = r.random_double();
        let y = r.random_double();
        let z = r.random_double();
        proof {
            lemma_state_after_unfold(s0, 3);
        }
        Vec3 { x, y, z }
    }

    /// A vector with three uniform components in `[min, max]`.
    pub fn random_in(r: &mut Random, min: i64, max: i64) -> (v: Vec3)
        requires
            -0x100000000i64 <= min <= max <= 0x100000000i64,
        ensures
            v.x == range_sample(old(r).state, min as int, max as int),
            v.y == range_sample(next_state(old(r).state), min as int, max as int),
            v.z == range_sample(state_after(old(r).state, 2), min as int, max as int),
            final(r).state == state_after(old(r).state, 3),
            min <= v.x <= max,
            min <= v.y <= max,
            min <= v.z <= max,
    {
        let ghost s0 = r.state;
        let x = r.random_double_in(min, max);
        let y = r.random_double_in(min, max);
        let z = r.random_double_in(min, max);
        proof {
            lemma_state_after_unfold(s0, 3);
        }
        Vec3 { x, y, z }
    }

    /// A uniform point strictly inside the unit ball, by rejection.
    #[verifier::spinoff_prover]
    pub fn random_in_unit_sphere(r: &mut Random) -> (v: Vec3)
        ensures
            exists|k: nat| sphere_sample_trace(old(r).state, k, v3(v), final(r).state),
            in_bound(v, ONE as int),
            268435456 <= norm2(v) < ONE_SQ,
    {
        let ghost s0 = r.state;
        let mut i: usize = 0;
        while i < SAMPLE_CAP
            invariant
                i <= SAMPLE_CAP,
                s0 == old(r).state,
                r.state == state_after(s0, 3 * i as nat),
                forall|j: nat| j < i ==> !sph_ok(s0, j),
            decreases SAMPLE_CAP - i,
        {
            let ghost si = r.state;
            let p = Vec3::random_in(r, -ONE, ONE);
            proof {
                lemma_state_after_add(s0, 3 * i as nat, 3);
                lemma_state_after_unfold(si, 2);
                assert(v3(p) == sph_cand(s0, i as nat));
            }
            let n2 = p.length_squared();
            if 268435456 <= n2 && n2 < ONE_SQ {
                proof {
                    assert(sphere_sample_trace(s0, i as nat, v3(p), r.state));
                }
                return p;
            }
            i = i + 1;
        }
        proof {
            assert(i == SAMPLE_CAP);
            assert(r.state == state_after(s0, 3 * SAMPLE_CAP as nat));
            assert(forall|j: nat| j < SAMPLE_CAP ==> !sph_ok(s0, j));
            assert(sphere_sample_trace(s0, SAMPLE_CAP as nat, V3 { x: 32768, y: 0, z: 0 },
                r.state));
            lemma_fallback_norm2();
        }
        Vec3 { x: 32768, y: 0, z: 0 }
    }

    /// A uniform point strictly inside the unit disk (z = 0), by rejection.
    #[verifier::spinoff_prover]
    pub fn random_in_unit_disk(r: &mut Random) -> (v: Vec3)
        ensures
            exists|k: nat| disk_sample_trace(old(r).state, k, v3(v), final(r).state),
            in_bound(v, ONE as int),
            norm2(v) < ONE_SQ,
            v.z == 0,
    {
        let ghost s0 = r.state;
        let mut i: usize = 0;
        while i < SAMPLE_CAP
            invariant
                i <= SAMPLE_CAP,
                s0 == old(r).state,
                r.state == state_after(s0, 2 * i as nat),
                forall|j: nat| j < i ==> !disk_ok(s0, j),
            decreases SAMPLE_CAP - i,
        {
            let ghost si = r.state;
            let x = r.random_double_in(-ONE, ONE);
            let y = r.random_double_in(-ONE, ONE);
            let p = Vec3 { x, y, z: 0 };
            proof {
                lemma_state_after_add(s0, 2 * i as nat, 2);
                lemma_state_after_unfold(si, 2);
                assert(v3(p) == disk_cand(s0, i as nat));
            }
            if p.length_squared() < ONE_SQ {
                proof {
                    assert(disk_sample_trace(s0, i as nat, v3(p), r.state));
                }
                return p;
            }
            i = i + 1;
        }
        proof {
            assert(i == SAMPLE_CAP);
            assert(r.state == state_after(s0, 2 * SAMPLE_CAP as nat));
            assert(forall|j: nat| j < SAMPLE_CAP ==> !disk_ok(s0, j));
            assert(disk_sample_trace(s0, SAMPLE_CAP as nat, V3 { x: 0, y: 0, z: 0 }, r.state));
            lemma_zero_norm2();
        }
        Vec3 { x: 0, y: 0, z: 0 }
    }

    /// A unit-length random direction: a unit-ball sample, normalized.
    pub fn random_unit_vector(r: &mut Random) -> (v: Vec3)
        ensures
            exists|p: Vec3|
                (exists|k: nat| sphere_sample_trace(old(r).state, k, v3(p), final(r).state))
                    && v3(v) == spec_unit_norm(p) && in_bound(p, ONE as int),
            in_bound(v, ONE as int),
            ONE_SQ - 6 * (ONE as int) <= norm2(v) <= ONE_SQ + 15 * (ONE as int),
    {
        let p = Vec3::random_in_unit_sphere(r);
        let u = p.unit_norm();
        proof {
            assert((exists|k: nat| sphere_sample_trace(old(r).state, k, v3(p), r.state)) && v3(
            u) == spec_unit_norm(p) && in_bound(p, ONE as int));
        }
        u
    }

    /// Whether every component is closer to zero than the smallest
    /// representable fixed-point magnitude; only the zero vector qualifies.
    pub fn is_near_zero(&self) -> (r: bool)
        ensures
            r == (self.x == 0 && self.y == 0 && self.z == 0),
    {
        Vec3::component_is_near_zero(self.x) && Vec3::component_is_near_zero(self.y)
            && Vec3::component_is_near_zero(self.z)
    }

    fn component_is_near_zero(x: i64) -> (r: bool)
        ensures
            r == (x == 0),
    {
        x == 0
    }
}

/// Unfolding of the state iteration for small counts.
proof fn lemma_state_after_unfold(s: u64, n: nat)
    requires
        n <= 3,
    ensures
        n >= 1 ==> state_after(s, 1) == next_state(s),
        n >= 2 ==> state_after(s, 2) == next_state(next_state(s)),
        n >= 3 ==> state_after(s, 3) == next_state(next_state(next_state(s))),
{
    assert(state_after(s, 0) == s);
}

/// Iterating `a + b` steps is iterating `b` steps from the `a`-th state.
proof fn lemma_state_after_add(s: u64, a: nat, b: nat)
    ensures
        state_after(s, a + b) == state_after(state_after(s, a), b),
    decreases b,
{
    if b > 0 {
        lemma_state_after_add(s, a, (b - 1) as nat);
    }
}

} // verus!
