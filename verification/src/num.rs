//! Scalar helpers for the fixed-point number model.
//!
//! A scalar is an `i64` holding a real value scaled by `ONE` (16 fractional
//! bits).  The helpers here are the two primitives everything else rounds
//! with: floor division by a positive divisor and the integer square root.

use vstd::prelude::*;

verus! {

/// The fixed-point scale: a raw value `v` stands for the real number `v / ONE`.
pub const ONE: i64 = 65536;

/// `ONE * ONE`, the scale that a product of two fixed-point values carries.
pub const ONE_SQ: i64 = 4294967296;

/// Euclidean division by a positive divisor stays between the dividend and 0.
pub proof fn lemma_div_bounds(a: int, b: int)
    requires
        b > 0,
    ensures
        a >= 0 ==> 0 <= a / b <= a,
        a < 0 ==> a <= a / b <= 0,
{
    let q = a / b;
    let r = a % b;
    vstd::arithmetic::div_mod::lemma_fundamental_div_mod(a, b);
    vstd::arithmetic::div_mod::lemma_mod_division_less_than_divisor(a, b);
    assert(a >= 0 ==> 0 <= q <= a) by (nonlinear_arith)
        requires
            b > 0,
            a == b * q + r,
            0 <= r < b,
    ;
    assert(a < 0 ==> a <= q <= 0) by (nonlinear_arith)
        requires
            b > 0,
            a == b * q + r,
            0 <= r < b,
    ;
}

/// Floor division of an `i128` by a positive divisor.
///
/// For a positive divisor, Euclidean division (what `/` means on `int` in
/// specifications) and floor division agree, so the result is exactly
/// `a / b` on `int`.
pub fn div_floor_i128(a: i128, b: i128) -> (q: i128)
    requires
        b > 0,
    ensures
        q == a as int / b as int,
{
    proof {
        lemma_div_bounds(a as int, b as int);
    }
    let r = a.checked_div_euclid(b);
    r.unwrap()
}

/// Floor division of an `i64` by a positive divisor.
pub fn div_floor(a: i64, b: i64) -> (q: i64)
    requires
        b > 0,
    ensures
        q == a as int / b as int,
{
    proof {
        lemma_div_bounds(a as int, b as int);
    }
    let r = a.checked_div_euclid(b);
    r.unwrap()
}

/// A dividend within `bound * d` divides to a quotient within `bound`.
pub proof fn lemma_div_range(a: int, bound: int, d: int)
    requires
        d > 0,
        -(bound * d) <= a <= bound * d,
    ensures
        -bound <= a / d <= bound,
{
    vstd::arithmetic::mul::lemma_mul_is_commutative(bound, d);
    assert(d * (-bound) == -(bound * d)) by (nonlinear_arith);
    vstd::arithmetic::div_mod::lemma_div_is_ordered(a, d * bound, d);
    vstd::arithmetic::div_mod::lemma_div_multiples_vanish(bound, d);
    vstd::arithmetic::div_mod::lemma_div_is_ordered(d * (-bound), a, d);
    vstd::arithmetic::div_mod::lemma_div_multiples_vanish(-bound, d);
}

/// `|a| <= ba` and `|b| <= bb` bound the product by `ba * bb`.
pub proof fn lemma_mul_bound(a: int, b: int, ba: int, bb: int)
    requires
        -ba <= a <= ba,
        -bb <= b <= bb,
    ensures
        -(ba * bb) <= a * b <= ba * bb,
    decreases 0int,
{
    assert(-(ba * bb) <= a * b <= ba * bb) by (nonlinear_arith)
        requires
            -ba <= a <= ba,
            -bb <= b <= bb,
    ;
}

/// Product of two `i64` values, widened so it cannot overflow.
pub fn wide_mul(a: i64, b: i64) -> (r: i128)
    ensures
        r == a as int * b as int,
{
    proof {
        lemma_mul_bound(a as int, b as int, 0x8000000000000000, 0x8000000000000000);
    }
    (a as i128) * (b as i128)
}

/// `r` is the integer square root of `x`.
pub open spec fn is_sqrt(r: int, x: int) -> bool {
    r >= 0 && r * r <= x < (r + 1) * (r + 1)
}

/// The integer square root as a spec-level function: the unique `r`
/// with `r * r <= x < (r + 1) * (r + 1)`.
pub open spec fn sqrt_spec(x: int) -> int {
    choose|r: int| is_sqrt(r, x)
}

/// Two integer square roots of the same value are equal.
pub proof fn lemma_sqrt_unique(r1: int, r2: int, x: int)
    requires
        is_sqrt(r1, x),
        is_sqrt(r2, x),
    ensures
        r1 == r2,
{
    if r1 < r2 {
        assert((r1 + 1) * (r1 + 1) <= r2 * r2) by (nonlinear_arith)
            requires
                0 <= r1,
                r1 + 1 <= r2,
        ;
    }
    if r2 < r1 {
        assert((r2 + 1) * (r2 + 1) <= r1 * r1) by (nonlinear_arith)
            requires
                0 <= r2,
                r2 + 1 <= r1,
        ;
    }
}

/// `sqrt_spec` satisfies its characterisation whenever `x >= 0`.
pub proof fn lemma_sqrt_spec(r: int, x: int)
    requires
        is_sqrt(r, x),
    ensures
        sqrt_spec(x) == r,
{
    assert(is_sqrt(sqrt_spec(x), x)) by {
        assert(exists|s: int| is_sqrt(s, x));
    }
    lemma_sqrt_unique(sqrt_spec(x), r, x);
}

/// Integer square root of a `u128`, by binary search on the root.
pub fn isqrt_u128(x: u128) -> (r: u128)
    ensures
        is_sqrt(r as int, x as int),
        r == sqrt_spec(x as int),
{
    let mut lo: u128 = 0;
    let mut hi: u128 = 1u128 << 64;
    proof {
        assert((1u128 << 64) == 0x10000000000000000u128) by (bit_vector);
        assert(x < 0x10000000000000000int * 0x10000000000000000int) by (nonlinear_arith)
            requires
                x <= u128::MAX,
        ;
    }
    while lo + 1 < hi
        invariant
            lo < hi,
            hi <= 0x10000000000000000u128,
            lo * lo <= x,
            x < hi * hi,
        decreases hi - lo,
    {
        let mid = lo + (hi - lo) / 2;
        assert(mid * mid <= 0xffffffffffffffffint * 0xffffffffffffffffint) by (nonlinear_arith)
            requires
                mid < 0x10000000000000000u128,
        ;
        if mid * mid <= x {
            lo = mid;
        } else {
            hi = mid;
        }
    }
    proof {
        assert(is_sqrt(lo as int, x as int));
        lemma_sqrt_spec(lo as int, x as int);
    }
    lo
}

} // verus!
