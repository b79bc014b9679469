//! Decimal numbers: a mantissa times ten to an exponent.

use vstd::prelude::*;

verus! {

/// `mantissa * 10^exponent`.
#[derive(Debug, Clone, Copy, PartialEq, Eq, Structural)]
pub struct CPDecimal {
    pub mantissa: i64,
    pub exponent: i8,
}

impl CPDecimal {
    pub fn new(mantissa: i64, exponent: i8) -> (r: Self)
        ensures
            r.mantissa == mantissa,
            r.exponent == exponent,
    {
        CPDecimal { mantissa, exponent }
    }

    pub fn mantissa(&self) -> (r: i64)
        ensures
            r == self.mantissa,
    {
        self.mantissa
    }

    pub fn exponent(&self) -> (r: i8)
        ensures
            r == self.exponent,
    {
        self.exponent
    }
}

} // verus!
