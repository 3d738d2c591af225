//! Conversions between posit patterns and IEEE-754 binary32 / binary64 bit
//! patterns.

use crate::magnitude::{large_fields, lemma_floor_log2};
use crate::model::{
    decode_f32_bits, decode_f64_bits, encode_f32_bits, encode_f64_bits, float_pattern,
    floor_log2, low_exponent_bit, low_fraction_bits, pattern_fraction, pattern_fraction_width,
    pattern_scale, regime_prefix,
};
use crate::p16e1::P16E1;
use vstd::arithmetic::power2::{
    lemma2_to64, lemma2_to64_rest, lemma_pow2_adds, lemma_pow2_pos, lemma_pow2_strictly_increases,
    lemma_pow2_unfold, pow2,
};
use vstd::bits::{lemma_u64_pow2_no_overflow, lemma_u64_shl_is_mul};
use vstd::prelude::*;

verus! {

/// `1 << n` as the power of two it is.
fn pow2_u64(n: u64) -> (r: u64)
    requires
        n < 64,
    ensures
        r as nat == pow2(n as nat),
        r >= 1,
{
    proof {
        lemma_pow2_pos(n as nat);
        lemma_u64_pow2_no_overflow(n as nat);
        lemma_u64_shl_is_mul(1, n);
    }
    1u64 << n
}

/// Position of the regime's closing one, exponent bit and fraction bits of
/// a pattern of value below one.
fn small_fields(p: u64) -> (r: (u64, u64, u64))
    requires
        0 < p < 0x4000,
    ensures
        r.0 as nat == floor_log2(p as nat),
        r.1 as nat == low_exponent_bit(p as nat),
        r.2 as nat == low_fraction_bits(p as nat),
        r.0 <= 13,
        r.1 < 2,
        r.0 == 0 ==> r.2 == 0,
        r.0 > 0 ==> r.2 < pow2((r.0 - 1) as nat),
{
    let mut l: u64 = 13;
    let mut pw: u64 = 0x2000;
    proof {
        lemma2_to64();
    }
    while pw > p
        invariant
            l <= 13,
            pw as nat == pow2(l as nat),
            0 < p < 2 * pw,
        decreases l,
    {
        proof {
            lemma2_to64();
            lemma_pow2_unfold(l as nat);
        }
        pw = pw / 2;
        l = l - 1;
    }
    proof {
        lemma_floor_log2(p as nat, l as nat);
    }
    if l == 0 {
        return (0, 0, 0);
    }
    let half: u64 = pow2_u64(l - 1);
    proof {
        lemma_pow2_unfold(l as nat);
    }
    let rem: u64 = p - pw;
    let e: u64 = rem / half;
    let f: u64 = rem % half;
    proof {
        assert(e < 2) by (nonlinear_arith)
            requires
                rem < 2 * half,
                e == rem / half,
                half > 0,
        ;
    }
    (l, e, f)
}

/// Scale, fraction bits and fraction width of a positive pattern.
fn pattern_fields(p: u16) -> (r: (i64, u64, u64))
    requires
        0 < p < 0x8000,
    ensures
        r.0 as int == pattern_scale(p as nat),
        r.1 as nat == pattern_fraction(p as nat),
        r.2 as nat == pattern_fraction_width(p as nat),
        -28 <= r.0 <= 28,
        r.2 <= 12,
        r.1 < pow2(r.2 as nat),
{
    if p >= 0x4000 {
        let (k, e, f, fw) = large_fields(p as u32);
        ((2 * k + e) as i64, f as u64, fw as u64)
    } else {
        let (l, e, f) = small_fields(p as u64);
        proof {
            lemma2_to64();
            if l > 0 {
                assert(pow2((l - 1) as nat) >= 1) by {
                    lemma_pow2_pos((l - 1) as nat);
                }
            }
        }
        let fw: u64 = if l == 0 {
            0
        } else {
            l - 1
        };
        (2 * (l as i64 - 14) + e as i64, f, fw)
    }
}

/// Binary64 bits of a positive pattern's value.
fn positive_to_f64(p: u16) -> (r: u64)
    requires
        0 < p < 0x8000,
    ensures
        r as nat == crate::model::positive_f64_bits(p as nat),
        r < 0x8000_0000_0000_0000,
{
    let (s, f, fw) = pattern_fields(p);
    let exp: u64 = (s + 1023) as u64;
    let p52: u64 = pow2_u64(52);
    let shift: u64 = pow2_u64(52 - fw);
    proof {
        lemma2_to64();
        lemma2_to64_rest();
        lemma_pow2_adds(fw as nat, (52 - fw) as nat);
        assert(f * shift < pow2(fw as nat) * shift) by (nonlinear_arith)
            requires
                f < pow2(fw as nat),
                shift > 0,
        ;
        assert(exp * p52 <= 1051 * p52) by (nonlinear_arith)
            requires
                exp <= 1051,
        ;
        assert(p52 == 0x10_0000_0000_0000);
        assert(pow2(fw as nat) * shift == p52);
    }
    exp * p52 + f * shift
}

/// Binary32 bits of a positive pattern's value.
fn positive_to_f32(p: u16) -> (r: u32)
    requires
        0 < p < 0x8000,
    ensures
        r as nat == crate::model::positive_f32_bits(p as nat),
        r < 0x8000_0000,
{
    let (s, f, fw) = pattern_fields(p);
    let exp: u64 = (s + 127) as u64;
    let p23: u64 = pow2_u64(23);
    let shift: u64 = pow2_u64(23 - fw);
    proof {
        lemma2_to64();
        lemma_pow2_adds(fw as nat, (23 - fw) as nat);
        assert(f * shift < pow2(fw as nat) * shift) by (nonlinear_arith)
            requires
                f < pow2(fw as nat),
                shift > 0,
        ;
        assert(exp * p23 <= 155 * p23) by (nonlinear_arith)
            requires
                exp <= 155,
        ;
        assert(p23 == 0x80_0000);
        assert(pow2(fw as nat) * shift == p23);
    }
    (exp * p23 + f * shift) as u32
}

/// Pattern of the positive value `2^s * (1 + m / 2^52)`: regime, exponent
/// and mantissa bits laid out and rounded to the nearest pattern, ties to
/// even.
fn float_to_pattern(s: i64, m: u64) -> (r: u16)
    requires
        -28 <= s <= 27,
        m < pow2(52),
    ensures
        r as nat == float_pattern(s as int, m as nat),
        r <= 0x7FFF,
{
    let sp: u64 = (s + 28) as u64;
    let k: i64 = (sp / 2) as i64 - 14;
    let e: u64 = sp % 2;
    proof {
        lemma2_to64();
        lemma2_to64_rest();
        assert(k == (s as int) / 2);
        assert(e == (s as int) % 2);
    }
    let head: u64;
    let t2: u64;
    if k >= 0 {
        let g: u64 = pow2_u64((14 - k) as u64);
        proof {
            if k > 0 {
                lemma_pow2_strictly_increases((14 - k) as nat, 14);
            }
            assert(regime_prefix(k as nat) == 0x8000 - g);
        }
        head = 0x8000 - g;
        t2 = (14 - k) as u64;
    } else {
        head = pow2_u64((14 + k) as u64);
        t2 = (15 + k) as u64;
        proof {
            lemma_pow2_unfold(t2 as nat);
            if k < -1 {
                lemma_pow2_strictly_increases((14 + k) as nat, 13);
            }
        }
    }
    let pt: u64 = pow2_u64(t2);
    proof {
        if k >= 0 {
            if k < 13 {
                lemma_pow2_strictly_increases(1, t2 as nat);
            }
        }
    }
    let a: u64 = if e == 1 {
        4 * head + pt
    } else {
        4 * head
    };
    proof {
        assert(a + pt <= 0x1FFFC);
        assert(e * pt == if e == 1 { pt } else { 0 }) by (nonlinear_arith)
            requires
                e < 2,
        ;
    }
    let p52: u64 = pow2_u64(52);
    let d: u128 = pow2_u64(54) as u128;
    proof {
        assert(m * pt < p52 * pt) by (nonlinear_arith)
            requires
                m < p52,
                pt > 0,
        ;
        assert((a + pt) * p52 <= 0x1FFFC * p52) by (nonlinear_arith)
            requires
                a + pt <= 0x1FFFC,
        ;
        assert(a * p52 + pt * p52 == (a + pt) * p52) by (nonlinear_arith);
    }
    let n: u128 = (a as u128) * (p52 as u128) + (m as u128) * (pt as u128);
    let q: u128 = n / d;
    let rem: u128 = n % d;
    proof {
        assert(d == 4 * p52);
        assert(q < 0x7FFF) by (nonlinear_arith)
            requires
                n < 0x7FFF * d,
                q == n / d,
                d > 0,
        ;
    }
    if 2 * rem > d || (2 * rem == d && q % 2 == 1) {
        (q + 1) as u16
    } else {
        q as u16
    }
}

impl P16E1 {
    /// The posit nearest to the binary64 value with bits `ui`, ties to
    /// even: zero for both zeros, not-a-real for infinities and NaNs,
    /// `max_value` / `min_value` from magnitude `2^28` up, and the smallest
    /// positive posit or its negation for magnitudes up to `2^-28`.
    pub fn from_f64_bits(ui: u64) -> (r: Self)
        ensures
            r.0 as nat == encode_f64_bits(ui as nat),
    {
        let sign = ui >= 0x8000_0000_0000_0000;
        let uip: u64 = ui % 0x8000_0000_0000_0000;
        if uip == 0 {
            Self::zero()
        } else if uip >= 0x7FF0_0000_0000_0000 {
            Self::nar()
        } else if uip >= 0x41B0_0000_0000_0000 {
            if sign {
                Self::min_value()
            } else {
                Self::max_value()
            }
        } else if uip == 0x3FF0_0000_0000_0000 {
            Self::one().with_sign(sign)
        } else if uip <= 0x3E30_0000_0000_0000 {
            Self::min_positive().with_sign(sign)
        } else {
            proof {
                lemma2_to64_rest();
            }
            let exp: u64 = uip / 0x10_0000_0000_0000;
            let m: u64 = uip % 0x10_0000_0000_0000;
            let mag = float_to_pattern(exp as i64 - 1023, m);
            P16E1(mag).with_sign(sign)
        }
    }

    /// The posit nearest to the binary32 value with bits `ui`, ties to
    /// even, with the same special cases as `from_f64_bits`.
    pub fn from_f32_bits(ui: u32) -> (r: Self)
        ensures
            r.0 as nat == encode_f32_bits(ui as nat),
    {
        let sign = ui >= 0x8000_0000;
        let uip: u32 = ui % 0x8000_0000;
        if uip == 0 {
            Self::zero()
        } else if uip >= 0x7F80_0000 {
            Self::nar()
        } else if uip >= 0x4D80_0000 {
            if sign {
                Self::min_value()
            } else {
                Self::max_value()
            }
        } else if uip == 0x3F80_0000 {
            Self::one().with_sign(sign)
        } else if uip <= 0x3180_0000 {
            Self::min_positive().with_sign(sign)
        } else {
            proof {
                lemma2_to64();
                lemma2_to64_rest();
            }
            let exp: u32 = uip / 0x80_0000;
            let m: u64 = (uip % 0x80_0000) as u64 * 0x2000_0000;
            let mag = float_to_pattern(exp as i64 - 127, m);
            P16E1(mag).with_sign(sign)
        }
    }

    /// Bits of the binary64 value equal to this posit; not-a-real gives
    /// the quiet NaN. Exact: every posit of this width is a binary64 value.
    pub fn to_f64_bits(self) -> (r: u64)
        ensures
            r as nat == decode_f64_bits(self.0 as nat),
    {
        let ui_a = self.0;
        if ui_a == 0 {
            return 0;
        }
        if ui_a == 0x8000 {
            return 0x7FF8_0000_0000_0000;
        }
        let sign = ui_a > 0x8000;
        let mag: u16 = if sign {
            (0x1_0000u32 - ui_a as u32) as u16
        } else {
            ui_a
        };
        let bits = positive_to_f64(mag);
        if sign {
            0x8000_0000_0000_0000 + bits
        } else {
            bits
        }
    }

    /// Bits of the binary32 value equal to this posit; not-a-real gives
    /// the quiet NaN. Exact: every posit of this width is a binary32 value.
    pub fn to_f32_bits(self) -> (r: u32)
        ensures
            r as nat == decode_f32_bits(self.0 as nat),
    {
        let ui_a = self.0;
        if ui_a == 0 {
            return 0;
        }
        if ui_a == 0x8000 {
            return 0x7FC0_0000;
        }
        let sign = ui_a > 0x8000;
        let mag: u16 = if sign {
            (0x1_0000u32 - ui_a as u32) as u16
        } else {
            ui_a
        };
        let bits = positive_to_f32(mag);
        if sign {
            0x8000_0000 + bits
        } else {
            bits
        }
    }
}

} // verus!
