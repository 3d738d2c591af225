//! The 16-bit posit with one exponent bit, and its integer conversions.

use crate::magnitude::{
    convert_p16bits_to_u32, convert_p16bits_to_u64, convert_u32_to_p16bits, convert_u64_to_p16bits,
};
use crate::model::{
    decode_signed, decode_unsigned, encode_magnitude, encode_signed, negate_pattern,
    NEGATIVE_SATURATION,
};
use vstd::prelude::*;

verus! {

/// A posit held as its 16-bit pattern: sign, regime, one exponent bit and
/// fraction. Every pattern is a valid value.
#[derive(Clone, Copy, Debug, PartialEq, Eq, Structural)]
pub struct P16E1(pub u16);

impl P16E1 {
    /// Zero, the all-clear pattern.
    pub fn zero() -> (r: Self)
        ensures
            r.0 == 0x0000,
    {
        P16E1(0x0000)
    }

    /// One.
    pub fn one() -> (r: Self)
        ensures
            r.0 == 0x4000,
    {
        P16E1(0x4000)
    }

    /// Not-a-real: the sign bit alone; its own negation.
    pub fn nar() -> (r: Self)
        ensures
            r.0 == 0x8000,
    {
        P16E1(0x8000)
    }

    /// The largest finite posit.
    pub fn max_value() -> (r: Self)
        ensures
            r.0 == 0x7FFF,
    {
        P16E1(0x7FFF)
    }

    /// The most negative finite posit, the negation of `max_value`.
    pub fn min_value() -> (r: Self)
        ensures
            r.0 == 0x8001,
    {
        P16E1(0x8001)
    }

    /// The smallest positive posit.
    pub fn min_positive() -> (r: Self)
        ensures
            r.0 == 0x0001,
    {
        P16E1(0x0001)
    }

    pub const SIGN_MASK: u16 = 0x8000;

    /// The posit whose pattern is the two's-complement bits of `i`.
    pub fn new(i: i16) -> (r: Self)
        ensures
            r.0 as int == if i < 0 { i + 0x10000 } else { i as int },
    {
        if i < 0 {
            P16E1((i as i32 + 0x10000) as u16)
        } else {
            P16E1(i as u16)
        }
    }

    pub fn from_bits(bits: u16) -> (r: Self)
        ensures
            r.0 == bits,
    {
        P16E1(bits)
    }

    pub fn to_bits(self) -> (r: u16)
        ensures
            r == self.0,
    {
        self.0
    }

    pub fn is_zero(self) -> (r: bool)
        ensures
            r == (self.0 == 0),
    {
        self.0 == 0
    }

    pub fn is_nar(self) -> (r: bool)
        ensures
            r == (self.0 == 0x8000),
    {
        self.0 == 0x8000
    }

    /// The negation of this posit: the two's complement of its pattern.
    pub fn neg(self) -> (r: Self)
        ensures
            r.0 as nat == negate_pattern(self.0 as nat),
    {
        if self.0 == 0 {
            self
        } else {
            P16E1((0x1_0000u32 - self.0 as u32) as u16)
        }
    }

    /// This posit, negated when `sign` is set.
    pub fn with_sign(self, sign: bool) -> (r: Self)
        ensures
            r.0 as nat == if sign { negate_pattern(self.0 as nat) } else { self.0 as nat },
    {
        if sign {
            self.neg()
        } else {
            self
        }
    }

    /// Nearest posit to a signed integer, ties to even; inputs below
    /// `-134_217_728` saturate to `MIN`.
    pub fn from_i32(i_a: i32) -> (r: Self)
        ensures
            r.0 as nat == encode_signed(i_a as int),
    {
        if (i_a as i64) < NEGATIVE_SATURATION {
            return Self::min_value();
        }
        let sign = i_a < 0;
        let mag: u32 = if sign {
            (-i_a) as u32
        } else {
            i_a as u32
        };
        Self::from_bits(convert_u32_to_p16bits(mag)).with_sign(sign)
    }

    /// Nearest posit to an unsigned integer, ties to even.
    pub fn from_u32(a: u32) -> (r: Self)
        ensures
            r.0 as nat == encode_magnitude(a as nat),
    {
        Self::from_bits(convert_u32_to_p16bits(a))
    }

    /// Nearest posit to a signed integer, ties to even; inputs below
    /// `-134_217_728` saturate to `MIN`.
    pub fn from_i64(i_a: i64) -> (r: Self)
        ensures
            r.0 as nat == encode_signed(i_a as int),
    {
        if i_a < NEGATIVE_SATURATION {
            return Self::min_value();
        }
        let sign = i_a < 0;
        let mag: u64 = if sign {
            (-i_a) as u64
        } else {
            i_a as u64
        };
        Self::from_bits(convert_u64_to_p16bits(mag)).with_sign(sign)
    }

    /// Nearest posit to an unsigned integer, ties to even.
    pub fn from_u64(a: u64) -> (r: Self)
        ensures
            r.0 as nat == encode_magnitude(a as nat),
    {
        Self::from_bits(convert_u64_to_p16bits(a))
    }

    /// Nearest integer to this posit, ties to even; not-a-real gives zero.
    pub fn to_i32(self) -> (r: i32)
        ensures
            r as int == decode_signed(self.0 as nat),
    {
        let ui_a = self.to_bits();
        if ui_a == 0x8000 {
            return 0;
        }
        let sign = ui_a > 0x8000;
        let mag_bits: u16 = if sign {
            (0x1_0000u32 - ui_a as u32) as u16
        } else {
            ui_a
        };
        let i_z = convert_p16bits_to_u32(mag_bits);
        if sign {
            -(i_z as i32)
        } else {
            i_z as i32
        }
    }

    /// Nearest unsigned integer to this posit, ties to even; patterns with
    /// the sign bit set, not-a-real included, give zero.
    pub fn to_u32(self) -> (r: u32)
        ensures
            r as nat == decode_unsigned(self.0 as nat),
    {
        let ui_a = self.to_bits();
        if ui_a >= 0x8000 {
            return 0;
        }
        convert_p16bits_to_u32(ui_a)
    }

    /// Nearest integer to this posit, ties to even; not-a-real gives zero.
    pub fn to_i64(self) -> (r: i64)
        ensures
            r as int == decode_signed(self.0 as nat),
    {
        let ui_a = self.to_bits();
        if ui_a == 0x8000 {
            return 0;
        }
        let sign = (ui_a & Self::SIGN_MASK) != 0;
        proof {
            assert((ui_a & 0x8000) != 0 <==> ui_a >= 0x8000) by (bit_vector);
        }
        let mag_bits: u16 = if sign {
            (0x1_0000u32 - ui_a as u32) as u16
        } else {
            ui_a
        };
        let i_z = convert_p16bits_to_u64(mag_bits);
        if sign {
            -(i_z as i64)
        } else {
            i_z as i64
        }
    }

    /// Nearest unsigned integer to this posit, ties to even; patterns with
    /// the sign bit set, not-a-real included, give zero.
    pub fn to_u64(self) -> (r: u64)
        ensures
            r as nat == decode_unsigned(self.0 as nat),
    {
        let ui_a = self.to_bits();
        if ui_a >= 0x8000 {
            return 0;
        }
        convert_p16bits_to_u64(ui_a)
    }
}

} // verus!
