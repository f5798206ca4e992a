//! Extended rationals for day averages and runway projections. A division
//! whose denominator is zero does not trap: it yields an explicit
//! non-finite value that callers must recognize, as the summary's contract
//! documents.

use vstd::prelude::*;

verus! {

/// The value of a division that may not be finite: a finite fraction
/// (`den > 0`), a signed infinity (a non-zero amount spread over zero
/// days), or an undefined value (zero over zero).
#[derive(Clone, Copy, Debug, PartialEq, Eq, Structural)]
pub enum Ratio {
    Finite { num: i128, den: i128 },
    PosInfinite,
    NegInfinite,
    Undefined,
}

/// `r` is the extended quotient `num / den`: an exact finite fraction when
/// `den != 0`, and otherwise the signed infinity (or undefined value)
/// that the sign of `num` calls for.
pub open spec fn is_quotient(r: Ratio, num: int, den: int) -> bool {
    match r {
        Ratio::Finite { num: n, den: d } => den != 0 && d > 0 && n * den == num * d,
        Ratio::PosInfinite => den == 0 && num > 0,
        Ratio::NegInfinite => den == 0 && num < 0,
        Ratio::Undefined => den == 0 && num == 0,
    }
}

impl Ratio {
    pub open spec fn wf(self) -> bool {
        match self {
            Ratio::Finite { num: _, den: d } => d > 0,
            _ => true,
        }
    }

    /// Whether the value is an ordinary finite number.
    pub fn is_finite(&self) -> (b: bool)
        ensures
            b == (self is Finite),
    {
        match self {
            Ratio::Finite { .. } => true,
            _ => false,
        }
    }
}

/// The extended quotient `num / den`, with the denominator normalized to be
/// positive.
pub fn ratio_of(num: i128, den: i128) -> (r: Ratio)
    requires
        -i128::MAX <= num,
        -i128::MAX <= den,
    ensures
        is_quotient(r, num as int, den as int),
        r.wf(),
{
    if den > 0 {
        Ratio::Finite { num, den }
    } else if den < 0 {
        proof {
            assert((-num) * den == num * (-den)) by (nonlinear_arith);
        }
        Ratio::Finite { num: -num, den: -den }
    } else if num > 0 {
        Ratio::PosInfinite
    } else if num < 0 {
        Ratio::NegInfinite
    } else {
        Ratio::Undefined
    }
}

} // verus!
