use vstd::prelude::*;

use vstd::arithmetic::power2::pow2;

verus! {

/// Bit pattern of positive zero.
pub const POS_ZERO_BITS: u64 = 0x0000_0000_0000_0000;

/// Bit pattern of negative zero.
pub const NEG_ZERO_BITS: u64 = 0x8000_0000_0000_0000;

/// Bit pattern of one.
pub const ONE_BITS: u64 = 0x3FF0_0000_0000_0000;

/// An interpolation position, carried as the IEEE 754 binary64 bit
/// pattern of the caller's fraction, so that every classification the
/// policy needs is exact integer logic on the encoded fields.
#[derive(Clone, Copy, PartialEq, Eq, Structural, Debug)]
pub struct Fraction {
    /// The IEEE 754 binary64 bit pattern of the fraction.
    pub bits: u64,
}

/// The sign field: bit 63.
pub open spec fn sign_field(bits: u64) -> u64 {
    bits >> 63
}

/// The biased exponent field: bits 52 to 62.
pub open spec fn exponent_field(bits: u64) -> u64 {
    (bits >> 52) & 0x7ff
}

/// The mantissa field: bits 0 to 51.
pub open spec fn mantissa_field(bits: u64) -> u64 {
    bits & 0xf_ffff_ffff_ffff
}

/// NaN: the exponent field all ones, with a nonzero mantissa field.
pub open spec fn is_nan(bits: u64) -> bool {
    exponent_field(bits) == 0x7ff && mantissa_field(bits) != 0
}

/// A zero of either sign: both the exponent and the mantissa field zero.
pub open spec fn is_zero(bits: u64) -> bool {
    exponent_field(bits) == 0 && mantissa_field(bits) == 0
}

/// The encoded magnitude is at most one. Within one sign, finite binary64
/// values are ordered lexicographically by (exponent field, mantissa
/// field); one is encoded with exponent field 0x3ff and mantissa field 0.
pub open spec fn at_most_one_magnitude(bits: u64) -> bool {
    exponent_field(bits) < 0x3ff || (exponent_field(bits) == 0x3ff && mantissa_field(bits) == 0)
}

/// The significand encoded by the bits: the mantissa field, with the
/// implicit leading one of a normal value.
pub open spec fn significand(bits: u64) -> nat {
    if exponent_field(bits) == 0 {
        mantissa_field(bits) as nat
    } else {
        (mantissa_field(bits) + pow2(52)) as nat
    }
}

/// The power of two that scales the significand: in magnitude, a finite
/// encoded value is `significand(bits) * 2^binary_exponent(bits)`.
pub open spec fn binary_exponent(bits: u64) -> int {
    if exponent_field(bits) == 0 {
        -1074
    } else {
        exponent_field(bits) - 1075
    }
}

/// The encoded value lies in the closed unit interval: it is not NaN, it
/// is at least zero (the sign bit clear, or a negative zero), and it is at
/// most one (the sign bit set only for a negative zero).
pub open spec fn in_unit_interval(bits: u64) -> bool {
    &&& !is_nan(bits)
    &&& (sign_field(bits) == 0 || is_zero(bits))
    &&& (sign_field(bits) == 1 || at_most_one_magnitude(bits))
}

impl Fraction {
    /// Wraps a binary64 bit pattern.
    pub fn from_bits(bits: u64) -> (r: Fraction)
        ensures
            r.bits == bits,
    {
        Fraction { bits }
    }

    /// True exactly when the fraction is NaN.
    pub fn is_nan(&self) -> (r: bool)
        ensures
            r == is_nan(self.bits),
    {
        (self.bits >> 52) & 0x7ff == 0x7ff && self.bits & 0xf_ffff_ffff_ffff != 0
    }

    /// True exactly when the fraction lies in the closed unit interval.
    /// A single unsigned comparison decides it: non-negative binary64 bit
    /// patterns are ordered as their values are, and the only in-range
    /// value with the sign bit set is negative zero.
    pub fn in_unit_interval(&self) -> (r: bool)
        ensures
            r == in_unit_interval(self.bits),
    {
        let b: u64 = self.bits;
        proof {
            assert((b == 0x8000_0000_0000_0000u64 || b <= 0x3FF0_0000_0000_0000u64) == ({
                &&& !((b >> 52) & 0x7ff == 0x7ff && b & 0xf_ffff_ffff_ffff != 0)
                &&& (b >> 63 == 0u64 || ((b >> 52) & 0x7ff == 0u64 && b & 0xf_ffff_ffff_ffff == 0u64))
                &&& (b >> 63 == 1u64 || ((b >> 52) & 0x7ff < 0x3ffu64
                    || ((b >> 52) & 0x7ff == 0x3ffu64 && b & 0xf_ffff_ffff_ffff == 0u64)))
            })) by (bit_vector);
        }
        b == NEG_ZERO_BITS || b <= ONE_BITS
    }
}

} // verus!
