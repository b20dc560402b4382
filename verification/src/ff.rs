//! A typed wrapper around one GF(2^8) field value.

use vstd::prelude::*;

use crate::gf2_8::GF2k;
use crate::gf2_8::fdiv;
use crate::gf2_8::fmul;
use crate::gf2_8::fpow;

verus! {

/// One field value, copied by value; two elements are interchangeable
/// exactly when their values are equal.
#[derive(Debug, Clone, Copy, PartialEq, Eq, Structural)]
pub struct FieldElement {
    /// The wrapped field value.
    pub value: u8,
}

impl FieldElement {
    /// Wraps a raw field value.
    pub fn new(value: u8) -> (r: Self)
        ensures
            r.value == value,
    {
        FieldElement { value }
    }

    /// The additive identity.
    pub fn zero() -> (r: Self)
        ensures
            r.value == 0,
    {
        FieldElement { value: GF2k::zero() }
    }

    /// The multiplicative identity.
    pub fn one() -> (r: Self)
        ensures
            r.value == 1,
    {
        FieldElement { value: GF2k::one() }
    }

    /// Field addition of two elements.
    pub fn add(self, rhs: FieldElement) -> (r: Self)
        ensures
            r.value == (self.value ^ rhs.value),
    {
        FieldElement { value: GF2k::add(self.value, rhs.value) }
    }

    /// Field subtraction, which coincides with addition.
    pub fn sub(self, rhs: FieldElement) -> (r: Self)
        ensures
            r.value == (self.value ^ rhs.value),
    {
        FieldElement { value: GF2k::sub(self.value, rhs.value) }
    }

    /// Field negation, the identity map.
    pub fn neg(self) -> (r: Self)
        ensures
            r.value == self.value,
    {
        FieldElement { value: GF2k::neg(self.value) }
    }

    /// Field multiplication through the engine.
    pub fn mul(self, rhs: FieldElement, f: &GF2k) -> (r: Self)
        requires
            f.wf(),
        ensures
            r.value == fmul(*f, self.value, rhs.value),
    {
        FieldElement { value: f.mul(self.value, rhs.value) }
    }

    /// Field division through the engine; the divisor must be nonzero.
    pub fn div(self, rhs: FieldElement, f: &GF2k) -> (r: Self)
        requires
            f.wf(),
            rhs.value != 0,
        ensures
            r.value == fdiv(*f, self.value, rhs.value),
    {
        let v = match f.div(self.value, rhs.value) {
            Some(v) => v,
            None => 0,
        };
        FieldElement { value: v }
    }

    /// Raises the element to the given power through the engine.
    pub fn pow(self, power: usize, f: &GF2k) -> (r: Self)
        requires
            f.wf(),
        ensures
            r.value == fpow(*f, self.value, power as nat),
    {
        FieldElement { value: f.exp(self.value, power) }
    }
}

} // verus!
