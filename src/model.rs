//! Mathematical model of the 16-bit, one-exponent-bit posit format and of
//! the conversions between posit bit patterns and integer magnitudes.

use vstd::arithmetic::power2::pow2;
use vstd::prelude::*;

verus! {

/// Magnitudes above this saturate to the largest finite pattern.
pub const OVERFLOW_THRESHOLD: u32 = 0x0800_0000;

/// Magnitudes above this (and not above the overflow threshold) give the
/// second-largest finite pattern.
pub const NEAR_OVERFLOW_THRESHOLD: u32 = 0x02FF_FFFF;

/// Signed inputs below this saturate to the most negative finite pattern.
pub const NEGATIVE_SATURATION: i64 = -134_217_728;

/// Position of the most significant set bit of `a` (0 for `a < 2`).
pub open spec fn floor_log2(a: nat) -> nat
    decreases a,
{
    if a < 2 {
        0
    } else {
        1 + floor_log2(a / 2)
    }
}

/// `n / d` rounded to the nearest integer, ties to the even one.
pub open spec fn round_half_even(n: nat, d: nat) -> nat {
    let q = n / d;
    let r = n % d;
    if 2 * r > d || (2 * r == d && q % 2 == 1) {
        q + 1
    } else {
        q
    }
}

/// The pattern bits of a positive posit whose regime is a run of `k + 1`
/// ones followed by a zero, with exponent and fraction bits clear.
pub open spec fn regime_prefix(k: nat) -> nat {
    (0x8000 - pow2((14 - k) as nat)) as nat
}

/// Pattern of a magnitude `a >= 2`: regime and exponent from the position
/// of its leading bit, the bits below it as fraction, rounded to nearest
/// (ties to even) where the fraction field is too short to hold them.
pub open spec fn assemble_pattern(a: nat) -> nat {
    let l = floor_log2(a);
    let k = l / 2;
    let e = l % 2;
    let fw = (12 - k) as nat;
    let frac = (a - pow2(l)) as nat;
    let head = regime_prefix(k) + e * pow2(fw);
    if l <= fw {
        head + frac * pow2((fw - l) as nat)
    } else {
        head + round_half_even(frac, pow2((l - fw) as nat))
    }
}

/// The posit pattern that an unsigned magnitude encodes to.
pub open spec fn encode_magnitude(a: nat) -> nat {
    if a > OVERFLOW_THRESHOLD {
        0x7FFF
    } else if a > NEAR_OVERFLOW_THRESHOLD {
        0x7FFE
    } else if a < 2 {
        a * 0x4000
    } else {
        assemble_pattern(a)
    }
}

/// Regime value of a pattern `p >= 0x4000`, whose regime is a run of ones,
/// searched upward from `k`: the first `j` in `k..=14` whose next prefix
/// lies above `p`, or 14.
pub open spec fn regime_run(p: nat, k: nat) -> nat
    decreases 14 - k,
{
    if k >= 14 || p < regime_prefix(k + 1) {
        k
    } else {
        regime_run(p, k + 1)
    }
}

/// Width of the fraction field after a regime of `k + 1` ones.
pub open spec fn fraction_width(k: nat) -> nat {
    if k >= 12 {
        0
    } else {
        (12 - k) as nat
    }
}

/// Exponent bit of a pattern `p >= 0x4000` whose regime length is `k`.
pub open spec fn exponent_bit(p: nat, k: nat) -> nat {
    if k >= 13 {
        0
    } else {
        ((p - regime_prefix(k)) as nat) / pow2(fraction_width(k))
    }
}

/// Fraction bits of a pattern `p >= 0x4000` whose regime length is `k`.
pub open spec fn fraction_bits(p: nat, k: nat) -> nat {
    if k >= 13 {
        0
    } else {
        ((p - regime_prefix(k)) as nat) % pow2(fraction_width(k))
    }
}

/// The value of a pattern `0x4000 <= p < 0x8000` (a posit of at least one)
/// rounded to the nearest integer, ties to even: the significand
/// `1.fraction` scaled by `2^(2k + e)`.
pub open spec fn round_large_pattern(p: nat) -> nat {
    let k = regime_run(p, 0);
    let fw = fraction_width(k);
    let s = 2 * k + exponent_bit(p, k);
    let n = pow2(fw) + fraction_bits(p, k);
    if s >= fw {
        n * pow2((s - fw) as nat)
    } else {
        round_half_even(n, pow2((fw - s) as nat))
    }
}

/// The integer magnitude that a non-negative posit pattern decodes to.
pub open spec fn decode_magnitude(p: nat) -> nat {
    if p <= 0x3000 {
        0
    } else if p < 0x4800 {
        1
    } else if p <= 0x5400 {
        2
    } else {
        round_large_pattern(p)
    }
}

/// Two's-complement negation of a 16-bit pattern.
pub open spec fn negate_pattern(p: nat) -> nat {
    if p == 0 {
        0
    } else {
        (0x10000 - p) as nat
    }
}

/// The posit pattern that a signed integer encodes to.
pub open spec fn encode_signed(i: int) -> nat {
    if i < NEGATIVE_SATURATION {
        0x8001
    } else if i < 0 {
        negate_pattern(encode_magnitude((-i) as nat))
    } else {
        encode_magnitude(i as nat)
    }
}

/// The signed integer that a posit pattern decodes to; the not-a-real
/// pattern decodes to zero.
pub open spec fn decode_signed(p: nat) -> int {
    if p == 0x8000 {
        0
    } else if p > 0x8000 {
        -decode_magnitude((0x10000 - p) as nat)
    } else {
        decode_magnitude(p) as int
    }
}

/// The unsigned integer that a posit pattern decodes to; every pattern with
/// the sign bit set, not-a-real included, decodes to zero.
pub open spec fn decode_unsigned(p: nat) -> nat {
    if p >= 0x8000 {
        0
    } else {
        decode_magnitude(p)
    }
}

/// Exponent bit of a pattern `0 < p < 0x4000`, whose regime is a run of
/// zeros ended by the one at bit `floor_log2(p)`.
pub open spec fn low_exponent_bit(p: nat) -> nat {
    let l = floor_log2(p);
    if l == 0 {
        0
    } else {
        ((p - pow2(l)) as nat) / pow2((l - 1) as nat)
    }
}

/// Fraction bits of a pattern `0 < p < 0x4000`.
pub open spec fn low_fraction_bits(p: nat) -> nat {
    let l = floor_log2(p);
    if l == 0 {
        0
    } else {
        ((p - pow2(l)) as nat) % pow2((l - 1) as nat)
    }
}

/// Scale (power of two of the leading bit) of a pattern `0 < p < 0x8000`.
pub open spec fn pattern_scale(p: nat) -> int {
    if p >= 0x4000 {
        let k = regime_run(p, 0);
        (2 * k + exponent_bit(p, k)) as int
    } else {
        2 * (floor_log2(p) - 14) + low_exponent_bit(p)
    }
}

/// Fraction bits of a pattern `0 < p < 0x8000`.
pub open spec fn pattern_fraction(p: nat) -> nat {
    if p >= 0x4000 {
        fraction_bits(p, regime_run(p, 0))
    } else {
        low_fraction_bits(p)
    }
}

/// Width of the fraction field of a pattern `0 < p < 0x8000`.
pub open spec fn pattern_fraction_width(p: nat) -> nat {
    if p >= 0x4000 {
        fraction_width(regime_run(p, 0))
    } else if floor_log2(p) == 0 {
        0
    } else {
        (floor_log2(p) - 1) as nat
    }
}

/// Binary64 bits of the value of a pattern `0 < p < 0x8000`: biased scale
/// as exponent, fraction bits at the top of the mantissa.
pub open spec fn positive_f64_bits(p: nat) -> nat {
    ((pattern_scale(p) + 1023) * pow2(52) + pattern_fraction(p) * pow2(
        (52 - pattern_fraction_width(p)) as nat,
    )) as nat
}

/// Binary32 bits of the value of a pattern `0 < p < 0x8000`.
pub open spec fn positive_f32_bits(p: nat) -> nat {
    ((pattern_scale(p) + 127) * pow2(23) + pattern_fraction(p) * pow2(
        (23 - pattern_fraction_width(p)) as nat,
    )) as nat
}

/// Binary64 bits of the value of any pattern; not-a-real gives the quiet
/// NaN.
pub open spec fn decode_f64_bits(p: nat) -> nat {
    if p == 0 {
        0
    } else if p == 0x8000 {
        0x7FF8_0000_0000_0000
    } else if p > 0x8000 {
        0x8000_0000_0000_0000 + positive_f64_bits((0x10000 - p) as nat)
    } else {
        positive_f64_bits(p)
    }
}

/// Binary32 bits of the value of any pattern; not-a-real gives the quiet
/// NaN.
pub open spec fn decode_f32_bits(p: nat) -> nat {
    if p == 0 {
        0
    } else if p == 0x8000 {
        0x7FC0_0000
    } else if p > 0x8000 {
        0x8000_0000 + positive_f32_bits((0x10000 - p) as nat)
    } else {
        positive_f32_bits(p)
    }
}

/// Pattern of the positive value `2^s * (1 + m / 2^52)` for
/// `-28 <= s <= 27`: the regime, exponent and mantissa bits are laid out
/// past the end of the 15 value bits, and the result rounded to nearest
/// pattern, ties to even.
pub open spec fn float_pattern(s: int, m: nat) -> nat {
    let k = s / 2;
    let e = s % 2;
    let head = if k >= 0 {
        regime_prefix(k as nat)
    } else {
        pow2((14 + k) as nat)
    };
    let t2: nat = if k >= 0 {
        (14 - k) as nat
    } else {
        (15 + k) as nat
    };
    round_half_even(((4 * head + e * pow2(t2)) * pow2(52) + m * pow2(t2)) as nat, pow2(54))
}

/// Pattern of the posit nearest to a binary64 value given by its bits.
pub open spec fn encode_f64_bits(ui: nat) -> nat {
    let sign = ui >= 0x8000_0000_0000_0000;
    let u = ui % 0x8000_0000_0000_0000;
    if u == 0 {
        0
    } else if u >= 0x7FF0_0000_0000_0000 {
        0x8000
    } else if u >= 0x41B0_0000_0000_0000 {
        if sign { 0x8001 } else { 0x7FFF }
    } else if u == 0x3FF0_0000_0000_0000 {
        if sign { 0xC000 } else { 0x4000 }
    } else if u <= 0x3E30_0000_0000_0000 {
        if sign { 0xFFFF } else { 0x0001 }
    } else {
        let mag = float_pattern(u / pow2(52) - 1023, u % pow2(52));
        if sign { negate_pattern(mag) } else { mag }
    }
}

/// Pattern of the posit nearest to a binary32 value given by its bits.
pub open spec fn encode_f32_bits(ui: nat) -> nat {
    let sign = ui >= 0x8000_0000;
    let u = ui % 0x8000_0000;
    if u == 0 {
        0
    } else if u >= 0x7F80_0000 {
        0x8000
    } else if u >= 0x4D80_0000 {
        if sign { 0x8001 } else { 0x7FFF }
    } else if u == 0x3F80_0000 {
        if sign { 0xC000 } else { 0x4000 }
    } else if u <= 0x3180_0000 {
        if sign { 0xFFFF } else { 0x0001 }
    } else {
        let mag = float_pattern(u / pow2(23) - 127, (u % pow2(23)) * pow2(29));
        if sign { negate_pattern(mag) } else { mag }
    }
}

} // verus!
