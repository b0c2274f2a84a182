//! The blend factor: a binary32 number (IEEE 754 single precision), held by
//! its bit pattern, and the number that a bit pattern stands for.

use vstd::arithmetic::power2::{
    lemma2_to64,
    lemma_pow2_adds,
    lemma_pow2_pos,
    lemma_pow2_strictly_increases,
    pow2,
};
use vstd::prelude::*;

verus! {

/// What a binary32 bit pattern stands for.
///
/// The magnitude of a finite number is counted in units of 2^-149, the
/// smallest positive binary32 number: every finite binary32 number is a whole
/// number of them, and one is `pow2(149)` units. Zero keeps its sign.
pub enum Binary32 {
    NotANumber,
    Infinite { negative: bool },
    Finite { negative: bool, units: nat },
}

/// The magnitude, in units, from which binary32 has no finite number left:
/// 2^128.
pub open spec fn infinity_units() -> nat {
    pow2(277)
}

/// A blend factor, as the bit pattern of a binary32 number: one sign bit, eight
/// exponent bits, twenty-three fraction bits. Every pattern is a blend factor.
#[derive(Copy, Clone, Debug)]
pub struct Extent {
    pub bits: u32,
}

impl Extent {
    /// Whether the sign bit is set.
    pub open spec fn sign(self) -> bool {
        self.bits >= 0x8000_0000
    }

    /// The exponent field.
    pub open spec fn exponent(self) -> nat {
        (self.bits / 0x80_0000 % 0x100) as nat
    }

    /// The fraction field.
    pub open spec fn fraction(self) -> nat {
        (self.bits % 0x80_0000) as nat
    }

    /// The number that the bit pattern stands for.
    ///
    /// The highest exponent field marks infinity (fraction zero) and the
    /// patterns that are no numbers. The lowest marks zero and the subnormal
    /// numbers, which are `fraction` units. Every other number has an implicit
    /// leading bit above its fraction and doubles with each exponent step.
    pub open spec fn value(self) -> Binary32 {
        if self.exponent() == 0xff {
            if self.fraction() == 0 {
                Binary32::Infinite { negative: self.sign() }
            } else {
                Binary32::NotANumber
            }
        } else if self.exponent() == 0 {
            Binary32::Finite { negative: self.sign(), units: self.fraction() }
        } else {
            Binary32::Finite {
                negative: self.sign(),
                units: (0x80_0000 + self.fraction()) * pow2((self.exponent() - 1) as nat),
            }
        }
    }

    /// Whether the bit pattern stands for a finite number.
    pub open spec fn is_finite(self) -> bool {
        self.value() is Finite
    }

    /// Whether the bit pattern stands for zero, of either sign.
    pub open spec fn is_zero(self) -> bool {
        self.bits == 0 || self.bits == 0x8000_0000
    }

    /// Whether the bit pattern stands for a number from zero to one, both
    /// included.
    pub open spec fn is_within_unit(self) -> bool {
        self.is_zero() || self.bits <= 0x3f80_0000
    }

    /// Whether the bit pattern stands for one half.
    pub open spec fn is_half(self) -> bool {
        self.bits == 0x3f00_0000
    }

    /// Whether the bit pattern stands for one.
    pub open spec fn is_one(self) -> bool {
        self.bits == 0x3f80_0000
    }

    /// The blend factor with the given bit pattern.
    pub fn from_bits(bits: u32) -> (extent: Extent)
        ensures
            extent.bits == bits,
    {
        Extent { bits }
    }

    /// The bit pattern of the blend factor.
    pub fn to_bits(&self) -> (bits: u32)
        ensures
            bits == self.bits,
    {
        self.bits
    }

    /// The blend factor zero: nothing of the target.
    pub fn zero() -> (extent: Extent)
        ensures
            extent.bits == 0,
            extent.is_zero(),
    {
        Extent { bits: 0 }
    }

    /// The blend factor one half: midway to the target.
    pub fn half() -> (extent: Extent)
        ensures
            extent.is_half(),
    {
        Extent { bits: 0x3f00_0000 }
    }

    /// The blend factor one: all the way to the target.
    pub fn one() -> (extent: Extent)
        ensures
            extent.is_one(),
    {
        Extent { bits: 0x3f80_0000 }
    }
}

/// Zero stands for the finite number of no units.
pub proof fn lemma_value_of_zero(extent: Extent)
    requires
        extent.is_zero(),
    ensures
        extent.value() == (Binary32::Finite { negative: extent.sign(), units: 0 }),
{
}

/// A number from zero to one is finite and of at most `pow2(149)` units.
pub proof fn lemma_value_within_unit(extent: Extent)
    requires
        extent.is_within_unit(),
    ensures
        extent.value() is Finite,
        extent.value()->Finite_units <= pow2(149),
        extent.value()->Finite_negative ==> extent.value()->Finite_units == 0,
{
    let exponent = extent.exponent();
    let fraction = extent.fraction();
    lemma2_to64();
    lemma_pow2_pos(149);
    if !extent.is_zero() {
        assert(exponent <= 127);
        assert(exponent == 127 ==> fraction == 0);
        if exponent == 0 {
            lemma_pow2_strictly_increases(23, 149);
        } else if exponent == 127 {
            lemma_pow2_adds(23, 126);
        } else {
            let step = pow2((exponent - 1) as nat);
            lemma_pow2_adds(24, 125);
            if exponent < 126 {
                lemma_pow2_strictly_increases((exponent - 1) as nat, 125);
            }
            assert((0x80_0000 + fraction) * step <= pow2(149)) by (nonlinear_arith)
                requires
                    fraction < 0x80_0000,
                    step <= pow2(125),
                    pow2(149) == 0x100_0000 * pow2(125),
            ;
        }
    }
}

/// One half stands for `pow2(148)` units, and one for `pow2(149)`.
pub proof fn lemma_value_of_half_and_one(extent: Extent)
    ensures
        extent.is_half() ==> extent.value() == (Binary32::Finite {
            negative: false,
            units: pow2(148),
        }),
        extent.is_one() ==> extent.value() == (Binary32::Finite {
            negative: false,
            units: pow2(149),
        }),
{
    lemma2_to64();
    lemma_pow2_adds(23, 125);
    lemma_pow2_adds(23, 126);
    if extent.is_half() {
        assert(extent.exponent() == 126);
        assert(extent.fraction() == 0);
    }
    if extent.is_one() {
        assert(extent.exponent() == 127);
        assert(extent.fraction() == 0);
    }
}

} // verus!
