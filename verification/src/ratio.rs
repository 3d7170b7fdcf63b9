//! Exact fractions: the library's stand-in for real numbers.

use vstd::prelude::*;

verus! {

/// A non-negative fraction `num / den`. A value the library hands out always
/// has `den > 0`.
#[derive(Clone, Copy, Debug, PartialEq, Eq, Structural)]
pub struct Ratio {
    pub num: u128,
    pub den: u128,
}

/// A caller-chosen bound `num / den` against which a `Ratio` is compared. The
/// comparison multiplies crosswise and never divides, so a bound with `den == 0`
/// and `num > 0` lies above every ratio.
#[derive(Clone, Copy, Debug, PartialEq, Eq, Structural)]
pub struct Threshold {
    pub num: u64,
    pub den: u64,
}

impl Ratio {
    /// Whether the fraction is the number zero.
    pub open spec fn is_zero(self) -> bool {
        self.num == 0 && self.den > 0
    }

    /// `self < bound` as fractions, by cross-multiplication.
    pub open spec fn below(self, bound: Threshold) -> bool {
        self.num * bound.den < bound.num * self.den
    }

    /// Whether both cross products of `self` and `bound` fit in 128 bits.
    pub open spec fn comparable(self, bound: Threshold) -> bool {
        self.num * bound.den <= u128::MAX && bound.num * self.den <= u128::MAX
    }

    /// Decides `self < bound` exactly, or returns `None` when a cross product
    /// does not fit in 128 bits.
    pub fn is_below(&self, bound: &Threshold) -> (verdict: Option<bool>)
        ensures
            verdict is Some <==> self.comparable(*bound),
            verdict matches Some(b) ==> b == self.below(*bound),
    {
        let left: Option<u128> = self.num.checked_mul(bound.den as u128);
        let right: Option<u128> = (bound.num as u128).checked_mul(self.den);
        match (left, right) {
            (Some(l), Some(r)) => Some(l < r),
            _ => None,
        }
    }
}

} // verus!
