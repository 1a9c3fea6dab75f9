//! Exact rational ray parameters.
//!
//! The parametric distance `t` along a ray is kept as an exact fraction with a
//! positive denominator, so comparisons between candidate intersections are
//! decided without any rounding.  Fractions are never reduced; equality and
//! order are by cross multiplication.

use vstd::prelude::*;

use crate::num::wide_mul;

verus! {

/// A fraction `num / den` with `den > 0` (see [`Rat::wf`]).
#[derive(Clone, Copy, Debug)]
pub struct Rat {
    pub num: i64,
    pub den: i64,
}

/// `an / ad <= bn / bd`, for positive denominators.
pub open spec fn frac_le(an: int, ad: int, bn: int, bd: int) -> bool {
    an * bd <= bn * ad
}

/// `an / ad == bn / bd`, for positive denominators.
pub open spec fn frac_eq(an: int, ad: int, bn: int, bd: int) -> bool {
    an * bd == bn * ad
}

/// Order by cross multiplication is transitive.
pub proof fn lemma_frac_le_trans(an: int, ad: int, bn: int, bd: int, cn: int, cd: int)
    requires
        ad > 0,
        bd > 0,
        cd > 0,
        frac_le(an, ad, bn, bd),
        frac_le(bn, bd, cn, cd),
    ensures
        frac_le(an, ad, cn, cd),
{
    assert(an * cd <= cn * ad) by (nonlinear_arith)
        requires
            ad > 0,
            bd > 0,
            cd > 0,
            an * bd <= bn * ad,
            bn * cd <= cn * bd,
    ;
}

/// Cross-multiplied order is total: of two fractions one is below the other.
pub proof fn lemma_frac_le_total(an: int, ad: int, bn: int, bd: int)
    requires
        ad > 0,
        bd > 0,
    ensures
        frac_le(an, ad, bn, bd) || frac_le(bn, bd, an, ad),
{
}

/// Equal fractions compare the same way against any third fraction.
pub proof fn lemma_frac_eq_le(an: int, ad: int, bn: int, bd: int, cn: int, cd: int)
    requires
        ad > 0,
        bd > 0,
        cd > 0,
        frac_eq(an, ad, bn, bd),
    ensures
        frac_le(an, ad, cn, cd) == frac_le(bn, bd, cn, cd),
        frac_le(cn, cd, an, ad) == frac_le(cn, cd, bn, bd),
{
    assert((an * cd <= cn * ad) == (bn * cd <= cn * bd)) by (nonlinear_arith)
        requires
            ad > 0,
            bd > 0,
            cd > 0,
            an * bd == bn * ad,
    ;
    assert((cn * ad <= an * cd) == (cn * bd <= bn * cd)) by (nonlinear_arith)
        requires
            ad > 0,
            bd > 0,
            cd > 0,
            an * bd == bn * ad,
    ;
}

impl Rat {
    /// The denominator is positive; every function below assumes this.
    pub open spec fn wf(self) -> bool {
        self.den > 0
    }

    pub open spec fn spec_le(self, o: Rat) -> bool {
        frac_le(self.num as int, self.den as int, o.num as int, o.den as int)
    }

    pub open spec fn spec_lt(self, o: Rat) -> bool {
        !o.spec_le(self)
    }

    /// Equality as rational values (cross multiplication, not field equality).
    pub open spec fn spec_eq(self, o: Rat) -> bool {
        frac_eq(self.num as int, self.den as int, o.num as int, o.den as int)
    }

    pub fn new(num: i64, den: i64) -> (r: Rat)
        requires
            den > 0,
        ensures
            r.wf(),
            r.num == num,
            r.den == den,
    {
        Rat { num, den }
    }

    pub fn le(&self, o: &Rat) -> (r: bool)
        requires
            self.wf(),
            o.wf(),
        ensures
            r == self.spec_le(*o),
    {
        wide_mul(self.num, o.den) <= wide_mul(o.num, self.den)
    }

    pub fn lt(&self, o: &Rat) -> (r: bool)
        requires
            self.wf(),
            o.wf(),
        ensures
            r == self.spec_lt(*o),
    {
        wide_mul(o.num, self.den) > wide_mul(self.num, o.den)
    }

    /// Equality as rational values.
    pub fn eq_rat(&self, o: &Rat) -> (r: bool)
        requires
            self.wf(),
            o.wf(),
        ensures
            r == self.spec_eq(*o),
    {
        wide_mul(self.num, o.den) == wide_mul(o.num, self.den)
    }
}

} // verus!
