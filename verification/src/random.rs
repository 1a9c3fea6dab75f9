//! The random source the tracer consumes: uniform fixed-point values.
//!
//! The generator is a 64-bit xorshift-star: the next state and output are
//! exact functions of the current state, so every consumer's postcondition
//! can pin its result, and two runs from the same seed coincide.  A
//! convenience constructor seeds from the process's entropy.

use vstd::prelude::*;

use crate::num::{div_floor, lemma_div_bounds, lemma_div_range, lemma_mul_bound, wide_mul, ONE};

verus! {

/// A deterministic, seedable pseudorandom generator.
#[derive(Clone, Copy, Debug)]
pub struct Random {
    pub state: u64,
}

/// The xorshift state transition.
#[verifier::opaque]
pub open spec fn next_state(s: u64) -> u64 {
    let a = s ^ (s >> 12);
    let b = a ^ (a << 25);
    b ^ (b >> 27)
}

/// The state after `n` draws.
pub open spec fn state_after(s: u64, n: nat) -> u64
    decreases n,
{
    if n == 0 {
        s
    } else {
        next_state(state_after(s, (n - 1) as nat))
    }
}

/// The output drawn from a state.
#[verifier::opaque]
pub open spec fn out_bits(s: u64) -> u64 {
    s.wrapping_mul(0x2545F4914F6CDD1D)
}

/// A unit-interval sample from a state: the top 16 output bits, a fixed
/// point value in `[0, ONE)`.
pub open spec fn unit_sample(s: u64) -> i64 {
    (out_bits(next_state(s)) >> 48) as i64
}

/// A sample in `[min, max]`: `min + (max - min) * u / ONE`.
pub open spec fn range_sample(s: u64, min: int, max: int) -> int {
    min + ((max - min) * unit_sample(s)) / (ONE as int)
}

/// Relies on `rand::random`: one machine-entropy value; nothing is
/// promised of it.
#[verifier::external_body]
fn entropy_seed() -> u64 {
    rand::random::<u64>()
}

impl Random {
    /// A generator seeded from machine entropy (not reproducible).
    pub fn new_random() -> (r: Random)
        ensures
            r.state != 0,
    {
        let seed = entropy_seed();
        Random::with_seed(seed)
    }

    /// A generator with a fixed seed: two generators from the same seed
    /// produce the same sequence.
    pub fn with_seed(seed: u64) -> (r: Random)
        ensures
            r.state == (if seed == 0 {
                0x9E3779B97F4A7C15u64
            } else {
                seed
            }),
            r.state != 0,
    {
        if seed == 0 {
            proof {
                assert(0x9E3779B97F4A7C15u64 != 0u64) by (bit_vector);
            }
            Random { state: 0x9E3779B97F4A7C15 }
        } else {
            Random { state: seed }
        }
    }

    /// A uniform fixed-point value in `[0, ONE)`.
    pub fn random_double(&mut self) -> (r: i64)
        ensures
            final(self).state == next_state(old(self).state),
            r == unit_sample(old(self).state),
            0 <= r < ONE,
    {
        proof {
            reveal(crate::random::next_state);
            reveal(crate::random::out_bits);
        }
        let a = self.state ^ (self.state >> 12);
        let b = a ^ (a << 25);
        let c = b ^ (b >> 27);
        self.state = c;
        let out = c.wrapping_mul(0x2545F4914F6CDD1D);
        let bits = out >> 48;
        proof {
            assert(out >> 48 < 65536u64) by (bit_vector);
        }
        bits as i64
    }

    /// A uniform fixed-point value in `[min, max]`.
    pub fn random_double_in(&mut self, min: i64, max: i64) -> (r: i64)
        requires
            -0x100000000i64 <= min <= max <= 0x100000000i64,
        ensures
            final(self).state == next_state(old(self).state),
            r == range_sample(old(self).state, min as int, max as int),
            min <= r <= max,
    {
        let u = self.random_double();
        proof {
            lemma_mul_bound((max - min) as int, u as int, 0x200000000int, 65536int);
            crate::num::lemma_div_range((max - min) as int * u as int, 0x200000000int,
                ONE as int);
            assert(((max - min) as int * u as int) / (ONE as int) <= (max - min) as int && 0
                <= ((max - min) as int * u as int) / (ONE as int)) by {
                assert(((max - min) as int) * (u as int) <= ((max - min) as int) * (
                ONE as int) && 0 <= ((max - min) as int) * (u as int)) by (nonlinear_arith)
                    requires
                        0 <= u < ONE,
                        max >= min,
                ;
                vstd::arithmetic::div_mod::lemma_div_is_ordered((max - min) as int
                    * u as int, (max - min) as int * (ONE as int), ONE as int);
                assert((max - min) as int * (ONE as int) == (ONE as int) * ((max
                    - min) as int)) by (nonlinear_arith);
                vstd::arithmetic::div_mod::lemma_div_multiples_vanish((max - min) as int,
                    ONE as int);
                lemma_div_bounds((max - min) as int * u as int, ONE as int);
            }
        }
        let q = div_floor_wide(max - min, u);
        min + q
    }

    /// A uniform integer in `[min, max]`.
    pub fn random_int_in(&mut self, min: usize, max: usize) -> (r: usize)
        requires
            min <= max,
            max < 0x10000000,
        ensures
            final(self).state == next_state(old(self).state),
            min <= r <= max,
            r as int == min + ((max - min + 1) * unit_sample(old(self).state)) / (ONE as int),
    {
        let u = self.random_double();
        let span = max - min + 1;
        proof {
            lemma_mul_bound(span as int, u as int, 0x10000000int, 65536int);
            assert((span as int) * (u as int) < (span as int) * (ONE as int) && 0 <= (
            span as int) * (u as int)) by (nonlinear_arith)
                requires
                    0 <= u < ONE,
                    span >= 1,
            ;
            assert(span as int * (ONE as int) == (ONE as int) * (span as int))
                by (nonlinear_arith);
            vstd::arithmetic::div_mod::lemma_div_multiples_vanish(span as int, ONE as int);
            lemma_div_bounds(span as int * u as int, ONE as int);
            assert((span as int * u as int) / (ONE as int) < span as int) by {
                vstd::arithmetic::div_mod::lemma_div_is_ordered(span as int * u as int, (
                span as int) * (ONE as int) - 1, ONE as int);
                vstd::arithmetic::div_mod::lemma_div_is_ordered(((span as int) - 1) * (
                ONE as int), (span as int) * (ONE as int) - 1, ONE as int);
                assert((span as int) * (ONE as int) - 1 < (span as int) * (ONE as int));
                if (span as int * u as int) / (ONE as int) >= span as int {
                    vstd::arithmetic::div_mod::lemma_div_is_ordered((span as int) * (
                    ONE as int), span as int * u as int, ONE as int);
                }
            }
        }
        let q = div_floor(wide_mul(span as i64, u) as i64, ONE);
        min + (q as usize)
    }
}

/// `(a * u) / ONE` where the product needs widening.
fn div_floor_wide(a: i64, u: i64) -> (q: i64)
    requires
        -0x200000000i64 <= a <= 0x200000000i64,
        0 <= u < 65536,
    ensures
        q == (a as int * u as int) / (ONE as int),
{
    proof {
        lemma_mul_bound(a as int, u as int, 0x200000000int, 65536int);
        lemma_div_bounds(a as int * u as int, ONE as int);
    }
    crate::num::div_floor_i128(wide_mul(a, u), ONE as i128) as i64
}

} // verus!
