//! Unsigned magnitudes to posit patterns and back.

use crate::model::{
    assemble_pattern, decode_magnitude, encode_magnitude, exponent_bit, floor_log2, fraction_bits,
    fraction_width, regime_prefix, regime_run, round_large_pattern, NEAR_OVERFLOW_THRESHOLD,
    OVERFLOW_THRESHOLD,
};
use vstd::arithmetic::power2::{lemma2_to64, lemma_pow2_adds, lemma_pow2_pos, lemma_pow2_strictly_increases, lemma_pow2_unfold, pow2};
use vstd::bits::{lemma_u32_pow2_no_overflow, lemma_u32_shl_is_mul};
use vstd::prelude::*;

verus! {

/// The leading bit of a magnitude bracketed by `2^l` and `2^(l+1)` is at `l`.
pub(crate) proof fn lemma_floor_log2(a: nat, l: nat)
    requires
        pow2(l) <= a < 2 * pow2(l),
    ensures
        floor_log2(a) == l,
    decreases l,
{
    if l == 0 {
        lemma2_to64();
    } else {
        lemma_pow2_unfold(l);
        lemma_floor_log2(a / 2, (l - 1) as nat);
    }
}

/// `1 << n` as the power of two it is.
fn pow2_u32(n: u32) -> (r: u32)
    requires
        n < 32,
    ensures
        r as nat == pow2(n as nat),
        r >= 1,
{
    proof {
        lemma_pow2_pos(n as nat);
        lemma_u32_pow2_no_overflow(n as nat);
        lemma_u32_shl_is_mul(1, n);
    }
    1u32 << n
}

/// Assembles the pattern of a magnitude in the range where it is neither
/// saturated nor written directly.
fn assemble_u32(a: u32) -> (r: u16)
    requires
        2 <= a <= NEAR_OVERFLOW_THRESHOLD,
    ensures
        r as nat == assemble_pattern(a as nat),
{
    let mut l: u32 = 25;
    let mut p: u32 = 0x0200_0000;
    proof {
        lemma2_to64();
    }
    while p > a
        invariant
            1 <= l <= 25,
            p as nat == pow2(l as nat),
            2 <= a <= NEAR_OVERFLOW_THRESHOLD,
            a < 2 * p,
        decreases l,
    {
        proof {
            lemma2_to64();
            lemma_pow2_unfold(l as nat);
        }
        p = p / 2;
        l = l - 1;
    }
    proof {
        lemma_floor_log2(a as nat, l as nat);
    }
    let k: u32 = l / 2;
    let e: u32 = l % 2;
    let fw: u32 = 12 - k;
    let frac: u32 = a - p;
    let big: u32 = pow2_u32(14 - k);
    let unit: u32 = pow2_u32(fw);
    proof {
        lemma_pow2_unfold((14 - k) as nat);
        lemma_pow2_unfold((13 - k) as nat);
        lemma2_to64();
        if fw < 12 {
            lemma_pow2_strictly_increases(fw as nat, 12);
        }
        assert(big == 4 * unit);
        assert(unit <= 4096);
        assert(e * unit == if e == 1 { unit } else { 0 }) by (nonlinear_arith)
            requires
                e < 2,
        ;
    }
    let head: u32 = if e == 1 {
        0x8000 - big + unit
    } else {
        0x8000 - big
    };
    if l <= fw {
        let scale: u32 = pow2_u32(fw - l);
        proof {
            lemma_pow2_adds(l as nat, (fw - l) as nat);
            assert(frac * scale < p * scale) by (nonlinear_arith)
                requires
                    frac < p,
                    scale > 0,
            ;
        }
        (head + frac * scale) as u16
    } else {
        let d: u32 = l - fw;
        let pd: u32 = pow2_u32(d);
        let q: u32 = frac / pd;
        let rem: u32 = frac % pd;
        proof {
            lemma_pow2_adds(fw as nat, d as nat);
            assert(q < unit) by (nonlinear_arith)
                requires
                    frac < unit * pd,
                    q == frac / pd,
                    pd > 0,
            ;
        }
        if 2 * rem > pd || (2 * rem == pd && q % 2 == 1) {
            (head + q + 1) as u16
        } else {
            (head + q) as u16
        }
    }
}

/// Encodes an unsigned 32-bit magnitude as a posit pattern, rounding to
/// nearest with ties to even and saturating large values.
pub fn convert_u32_to_p16bits(a: u32) -> (r: u16)
    ensures
        r as nat == encode_magnitude(a as nat),
{
    if a > OVERFLOW_THRESHOLD {
        0x7FFF
    } else if a > NEAR_OVERFLOW_THRESHOLD {
        0x7FFE
    } else if a < 2 {
        (a as u16) * 0x4000
    } else {
        assemble_u32(a)
    }
}

/// Encodes an unsigned 64-bit magnitude as a posit pattern, rounding to
/// nearest with ties to even and saturating large values.
pub fn convert_u64_to_p16bits(a: u64) -> (r: u16)
    ensures
        r as nat == encode_magnitude(a as nat),
{
    if a > OVERFLOW_THRESHOLD as u64 {
        0x7FFF
    } else {
        convert_u32_to_p16bits(a as u32)
    }
}

/// Regime length, exponent bit, fraction bits and fraction width of a
/// pattern of value at least one.
pub(crate) fn large_fields(p: u32) -> (r: (u32, u32, u32, u32))
    requires
        0x4000 <= p < 0x8000,
    ensures
        r.0 as nat == regime_run(p as nat, 0),
        r.1 as nat == exponent_bit(p as nat, r.0 as nat),
        r.2 as nat == fraction_bits(p as nat, r.0 as nat),
        r.3 as nat == fraction_width(r.0 as nat),
        r.0 <= 14,
        r.1 < 2,
        r.0 == 14 ==> r.1 == 0,
        r.2 < pow2(r.3 as nat),
        r.3 <= 12,
{
    let mut k: u32 = 0;
    let mut gap: u32 = 0x4000;
    proof {
        lemma2_to64();
    }
    while k < 14 && p >= 0x8000 - gap / 2
        invariant
            k <= 14,
            gap as nat == pow2((14 - k) as nat),
            gap <= 0x4000,
            p >= 0x8000 - gap,
            0x4000 <= p < 0x8000,
            regime_run(p as nat, 0) == regime_run(p as nat, k as nat),
        decreases 14 - k,
    {
        proof {
            lemma_pow2_unfold((14 - k) as nat);
            assert(regime_prefix((k + 1) as nat) == 0x8000 - gap / 2);
        }
        gap = gap / 2;
        k = k + 1;
    }
    proof {
        if k < 14 {
            lemma_pow2_unfold((14 - k) as nat);
            assert(regime_prefix((k + 1) as nat) == 0x8000 - gap / 2);
        }
        assert(regime_run(p as nat, k as nat) == k);
        assert(regime_prefix(k as nat) == 0x8000 - gap);
    }
    let rem: u32 = p - (0x8000 - gap);
    let fw: u32 = if k >= 12 {
        0
    } else {
        12 - k
    };
    let unit: u32 = pow2_u32(fw);
    let mut e: u32 = 0;
    let mut f: u32 = 0;
    if k < 13 {
        proof {
            lemma_pow2_unfold((14 - k) as nat);
            lemma_pow2_unfold((13 - k) as nat);
            if k == 12 {
                lemma2_to64();
            }
            assert(gap == 4 * unit || (k == 12 && gap == 4 && unit == 1));
        }
        e = rem / unit;
        f = rem % unit;
        proof {
            assert(e < 2) by (nonlinear_arith)
                requires
                    rem < 2 * unit,
                    e == rem / unit,
                    unit > 0,
            ;
        }
    } else {
        proof {
            lemma2_to64();
            if k == 13 {
                lemma_pow2_unfold(1);
            }
        }
    }
    (k, e, f, fw)
}

/// Rounds a pattern of value at least one to the nearest integer, ties to
/// even.
fn round_large_u32(ui_a: u16) -> (r: u32)
    requires
        0x4000 <= ui_a < 0x8000,
    ensures
        r as nat == round_large_pattern(ui_a as nat),
        r <= 0x1000_0000,
{
    let p: u32 = ui_a as u32;
    let (k, e, f, fw) = large_fields(p);
    let unit: u32 = pow2_u32(fw);
    proof {
        lemma2_to64();
        if fw < 12 {
            lemma_pow2_strictly_increases(fw as nat, 12);
        }
    }
    let s: u32 = 2 * k + e;
    let n: u32 = unit + f;
    if s >= fw {
        let scale: u32 = pow2_u32(s - fw);
        proof {
            lemma2_to64();
            lemma_pow2_adds(fw as nat, (s - fw) as nat);
            lemma_pow2_unfold((s + 1) as nat);
            if s < 28 {
                lemma_pow2_strictly_increases(s as nat, 28);
            }
            assert(n * scale <= unit * scale + f * scale) by (nonlinear_arith)
                requires
                    n == unit + f,
            ;
            assert(f * scale < unit * scale) by (nonlinear_arith)
                requires
                    f < unit,
                    scale > 0,
            ;
        }
        n * scale
    } else {
        let pd: u32 = pow2_u32(fw - s);
        let q: u32 = n / pd;
        let r2: u32 = n % pd;
        proof {
            assert(q <= n) by (nonlinear_arith)
                requires
                    q == n / pd,
                    pd > 0,
            ;
        }
        if 2 * r2 > pd || (2 * r2 == pd && q % 2 == 1) {
            q + 1
        } else {
            q
        }
    }
}

/// Decodes a non-negative posit pattern to the nearest unsigned integer,
/// ties to even.
pub fn convert_p16bits_to_u32(ui_a: u16) -> (r: u32)
    requires
        ui_a < 0x8000,
    ensures
        r as nat == decode_magnitude(ui_a as nat),
        r <= 0x1000_0000,
{
    if ui_a <= 0x3000 {
        0
    } else if ui_a < 0x4800 {
        1
    } else if ui_a <= 0x5400 {
        2
    } else {
        round_large_u32(ui_a)
    }
}

/// Decodes a non-negative posit pattern to the nearest unsigned integer,
/// ties to even.
pub fn convert_p16bits_to_u64(ui_a: u16) -> (r: u64)
    requires
        ui_a < 0x8000,
    ensures
        r as nat == decode_magnitude(ui_a as nat),
        r <= 0x1000_0000,
{
    convert_p16bits_to_u32(ui_a) as u64
}

} // verus!
