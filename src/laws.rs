//! Properties that hold across the conversions.

use crate::model::{
    decode_f32_bits, decode_f64_bits, decode_magnitude, decode_signed, decode_unsigned,
    encode_f32_bits, encode_f64_bits, encode_magnitude, encode_signed, exponent_bit,
    float_pattern, floor_log2, fraction_bits, fraction_width, low_exponent_bit,
    pattern_fraction, pattern_fraction_width, pattern_scale, positive_f32_bits,
    positive_f64_bits, regime_prefix, regime_run, round_half_even, round_large_pattern, NEGATIVE_SATURATION,
    OVERFLOW_THRESHOLD,
};
use vstd::arithmetic::power2::{
    lemma2_to64, lemma2_to64_rest, lemma_pow2_adds, lemma_pow2_pos,
    lemma_pow2_strictly_increases, lemma_pow2_unfold, pow2,
};
use vstd::arithmetic::div_mod::{
    lemma_div_is_ordered, lemma_fundamental_div_mod, lemma_fundamental_div_mod_converse,
};
use vstd::prelude::*;

verus! {

/// Every signed input below `-134_217_728` encodes to the most negative
/// finite pattern, and every magnitude above the overflow threshold, signed
/// or not, to the largest finite pattern.
pub proof fn lemma_saturation(i: int, a: nat)
    ensures
        i < NEGATIVE_SATURATION ==> encode_signed(i) == 0x8001,
        a > OVERFLOW_THRESHOLD ==> encode_magnitude(a) == 0x7FFF,
        a > OVERFLOW_THRESHOLD ==> encode_signed(a as int) == 0x7FFF,
{
}

/// Decoding not-a-real to a signed integer gives zero, and decoding any
/// pattern with the sign bit set to an unsigned integer gives zero.
pub proof fn lemma_nar_decodes_to_zero(p: nat)
    ensures
        decode_signed(0x8000) == 0,
        p >= 0x8000 ==> decode_unsigned(p) == 0,
{
}

/// Patterns up to `0x3000` decode to 0, those strictly between `0x3000`
/// and `0x4800` to 1, and those from `0x4800` to `0x5400` to 2.
pub proof fn lemma_small_integer_decode(p: nat)
    ensures
        p <= 0x3000 ==> decode_magnitude(p) == 0,
        0x3000 < p < 0x4800 ==> decode_magnitude(p) == 1,
        0x4800 <= p <= 0x5400 ==> decode_magnitude(p) == 2,
{
}

/// Leading-bit position bounds.
proof fn lemma_floor_log2_brackets(a: nat)
    requires
        a >= 1,
    ensures
        pow2(floor_log2(a)) <= a < 2 * pow2(floor_log2(a)),
    decreases a,
{
    if a < 2 {
        lemma2_to64();
    } else {
        lemma_floor_log2_brackets(a / 2);
        lemma_pow2_unfold(floor_log2(a));
    }
}

/// The prefixes grow with the regime length.
proof fn lemma_prefix_increases(i: nat, j: nat)
    requires
        i < j <= 14,
    ensures
        regime_prefix(i) < regime_prefix(j),
{
    lemma2_to64();
    if i > 0 {
        lemma_pow2_strictly_increases((14 - i) as nat, 14);
    }
    lemma_pow2_strictly_increases((14 - j) as nat, (14 - i) as nat);
}

/// The regime length found from `k` on brackets the pattern between two
/// consecutive prefixes.
proof fn lemma_regime_run_bounds(p: nat, k: nat)
    requires
        p < 0x8000,
        k <= 14,
        regime_prefix(k) <= p,
    ensures
        k <= regime_run(p, k) <= 14,
        regime_prefix(regime_run(p, k)) <= p,
        regime_run(p, k) < 14 ==> p < regime_prefix(regime_run(p, k) + 1),
    decreases 14 - k,
{
    if k < 14 && p >= regime_prefix(k + 1) {
        lemma_regime_run_bounds(p, k + 1);
    }
}

/// A positive pattern is its regime prefix plus its exponent and fraction
/// fields; its scale is `2k + e`, with `k` the signed regime value.
proof fn lemma_pattern_fields(q: nat)
    requires
        0 < q < 0x8000,
    ensures
        -28 <= pattern_scale(q) <= 28,
        pattern_fraction_width(q) <= 12,
        pattern_fraction(q) < pow2(pattern_fraction_width(q)),
        pattern_scale(q) == 28 <==> q == 0x7FFF,
        (pattern_scale(q) == 0 && pattern_fraction(q) == 0) <==> q == 0x4000,
        pattern_scale(q) == -28 <==> q == 1,
        q != 1 && q != 0x7FFF ==> float_pattern(
            pattern_scale(q),
            pattern_fraction(q) * pow2((52 - pattern_fraction_width(q)) as nat),
        ) == q,
{
    lemma2_to64();
    lemma2_to64_rest();
    let s = pattern_scale(q);
    let f = pattern_fraction(q);
    let fw = pattern_fraction_width(q);
    let m = f * pow2((52 - fw) as nat);
    let d = pow2(54);
    lemma_pow2_pos((52 - fw) as nat);
    lemma_pow2_adds((52 - fw) as nat, fw + 2);
    lemma_pow2_adds(2, fw);
    lemma_pow2_adds(2, 52);
    if q >= 0x4000 {
        let k = regime_run(q, 0);
        lemma_regime_run_bounds(q, 0);
        let e = exponent_bit(q, k);
        if k + 1 < 14 {
            lemma_prefix_increases(k + 1, 14);
        }
        assert(regime_prefix(0) == 0x4000);
        if k < 13 {
            lemma_pow2_unfold((14 - k) as nat);
            lemma_pow2_unfold((13 - k) as nat);
            lemma_pow2_pos(fraction_width(k));
            let rem = (q - regime_prefix(k)) as nat;
            assert(rem == e * pow2(fw) + f) by (nonlinear_arith)
                requires
                    e == rem / pow2(fw),
                    f == rem % pow2(fw),
                    pow2(fw) > 0,
            ;
            assert(rem < 2 * pow2(fw));
            assert(e < 2) by (nonlinear_arith)
                requires
                    rem < 2 * pow2(fw),
                    e == rem / pow2(fw),
                    pow2(fw) > 0,
            ;
            if k == 0 && e == 0 && f == 0 {
                assert(e * pow2(fw) == 0) by (nonlinear_arith)
                    requires
                        e == 0,
                ;
                assert(rem == 0);
                assert(q == regime_prefix(k));
                assert(q == 0x4000);
            }
            if q == 0x4000 {
                assert(k == 0) by {
                    if k > 0 {
                        lemma_prefix_increases(0, k);
                    }
                }
            }
            if q != 1 && q != 0x7FFF {
                assert(s / 2 == k as int && s % 2 == e as int);
                assert(pow2(fw + 2) == 4 * pow2(fw));
                let n = ((4 * regime_prefix(k) + e * pow2(fw + 2)) * pow2(52) + m * pow2(
                    fw + 2,
                )) as nat;
                assert(m * pow2(fw + 2) == f * d) by (nonlinear_arith)
                    requires
                        m == f * pow2((52 - fw) as nat),
                        pow2((52 - fw) as nat) * pow2(fw + 2) == d,
                ;
                assert(n == q * d) by (nonlinear_arith)
                    requires
                        n == (4 * regime_prefix(k) + e * (4 * pow2(fw))) * pow2(52) + f * d,
                        d == 4 * pow2(52),
                        q == regime_prefix(k) + e * pow2(fw) + f,
                ;
                assert(n / d == q && n % d == 0) by (nonlinear_arith)
                    requires
                        n == q * d,
                        d > 0,
                ;
                assert(round_half_even(n, d) == q);
                assert((14 - s / 2) as nat == fw + 2);
                assert(float_pattern(s, m) == round_half_even(n, d));
            }
        } else {
            if k == 13 {
                lemma_pow2_unfold(1);
                assert(q == 0x7FFE);
                if q != 1 && q != 0x7FFF {
                    let n = ((4 * regime_prefix(k)) * pow2(52)) as nat;
                    assert(n == q * d);
                    assert(n / d == q && n % d == 0) by (nonlinear_arith)
                        requires
                            n == q * d,
                            d > 0,
                    ;
                    assert(s == 26);
                    assert(f == 0);
                    assert(m == 0) by (nonlinear_arith)
                        requires
                            m == f * pow2((52 - fw) as nat),
                            f == 0,
                    ;
                    assert(float_pattern(s, m) == round_half_even(n, d));
                }
            }
        }
    } else {
        lemma_floor_log2_brackets(q);
        let l = floor_log2(q);
        if l >= 14 {
            lemma_pow2_strictly_increases(14, l);
        }
        if l > 0 {
            lemma_pow2_unfold(l);
            lemma_pow2_pos((l - 1) as nat);
            let e = low_exponent_bit(q);
            let rem = (q - pow2(l)) as nat;
            assert(rem == e * pow2(fw) + f) by (nonlinear_arith)
                requires
                    e == rem / pow2(fw),
                    f == rem % pow2(fw),
                    pow2(fw) > 0,
            ;
            assert(e < 2) by (nonlinear_arith)
                requires
                    rem < 2 * pow2(fw),
                    e == rem / pow2(fw),
                    pow2(fw) > 0,
            ;
            let k = l - 14;
            assert(s / 2 == k && s % 2 == e as int);
            assert(pow2(fw + 2) == 4 * pow2(fw));
            assert(pow2((14 + k) as nat) == pow2(l));
            let n = ((4 * pow2(l) + e * pow2(fw + 2)) * pow2(52) + m * pow2(fw + 2)) as nat;
            assert(m * pow2(fw + 2) == f * d) by (nonlinear_arith)
                requires
                    m == f * pow2((52 - fw) as nat),
                    pow2((52 - fw) as nat) * pow2(fw + 2) == d,
            ;
            assert(n == q * d) by (nonlinear_arith)
                requires
                    n == (4 * pow2(l) + e * (4 * pow2(fw))) * pow2(52) + f * d,
                    d == 4 * pow2(52),
                    q == pow2(l) + e * pow2(fw) + f,
            ;
            assert(n / d == q && n % d == 0) by (nonlinear_arith)
                requires
                    n == q * d,
                    d > 0,
            ;
            assert(round_half_even(n, d) == q);
            assert(float_pattern(s, m) == round_half_even(n, d));
        }
    }
}

/// The mantissa of a positive pattern's binary64 or binary32 image: its
/// fraction bits at the top, below the biased scale.
proof fn lemma_float_fields(q: nat, width: nat, bias: int)
    requires
        0 < q < 0x8000,
        width == 52 || width == 23,
        bias == 1023 || bias == 127,
    ensures
        ({
            let fw = pattern_fraction_width(q);
            let fr = pattern_fraction(q) * pow2((width - fw) as nat);
            let u = (pattern_scale(q) + bias) * pow2(width) + fr;
            &&& fr < pow2(width)
            &&& u / (pow2(width) as int) == pattern_scale(q) + bias
            &&& u % (pow2(width) as int) == fr
            &&& (fr == 0 <==> pattern_fraction(q) == 0)
            &&& fr * pow2((52 - width) as nat) == pattern_fraction(q) * pow2((52 - fw) as nat)
        }),
{
    lemma_pattern_fields(q);
    let f = pattern_fraction(q);
    let fw = pattern_fraction_width(q);
    let sh = pow2((width - fw) as nat);
    let fr = f * sh;
    lemma_pow2_pos((width - fw) as nat);
    lemma_pow2_pos(width);
    lemma_pow2_adds(fw, (width - fw) as nat);
    lemma_pow2_adds((width - fw) as nat, (52 - width) as nat);
    assert(fr < pow2(width)) by (nonlinear_arith)
        requires
            f < pow2(fw),
            sh > 0,
            fr == f * sh,
            pow2(fw) * sh == pow2(width),
    ;
    assert(fr == 0 <==> f == 0) by (nonlinear_arith)
        requires
            fr == f * sh,
            sh > 0,
    ;
    assert(fr * pow2((52 - width) as nat) == f * pow2((52 - fw) as nat)) by (nonlinear_arith)
        requires
            fr == f * sh,
            sh * pow2((52 - width) as nat) == pow2((52 - fw) as nat),
    ;
    let u = (pattern_scale(q) + bias) * pow2(width) + fr;
    lemma_fundamental_div_mod_converse(u, pow2(width) as int, pattern_scale(q) + bias, fr as int);
}

/// Every pattern converted to binary64 bits and back gives itself.
pub proof fn lemma_f64_round_trip(p: u16)
    ensures
        encode_f64_bits(decode_f64_bits(p as nat)) == p,
{
    lemma2_to64();
    lemma2_to64_rest();
    if p != 0 && p != 0x8000 {
        let q: nat = if p > 0x8000 {
            (0x10000 - p) as nat
        } else {
            p as nat
        };
        lemma_pattern_fields(q);
        lemma_float_fields(q, 52, 1023);
        assert(positive_f64_bits(q) < 0x8000_0000_0000_0000);
    }
}

/// Every pattern converted to binary32 bits and back gives itself.
pub proof fn lemma_f32_round_trip(p: u16)
    ensures
        encode_f32_bits(decode_f32_bits(p as nat)) == p,
{
    lemma2_to64();
    lemma2_to64_rest();
    if p != 0 && p != 0x8000 {
        let q: nat = if p > 0x8000 {
            (0x10000 - p) as nat
        } else {
            p as nat
        };
        lemma_pattern_fields(q);
        lemma_float_fields(q, 23, 127);
        assert(positive_f32_bits(q) < 0x8000_0000);
    }
}

/// Rounding to nearest, ties to even, does not decrease as the dividend
/// grows.
proof fn lemma_round_half_even_monotonic(n1: nat, n2: nat, d: nat)
    requires
        n1 <= n2,
        d > 0,
    ensures
        round_half_even(n1, d) <= round_half_even(n2, d),
{
    lemma_div_is_ordered(n1 as int, n2 as int, d as int);
    let q1 = n1 / d;
    let q2 = n2 / d;
    if q1 == q2 {
        assert(n1 % d <= n2 % d) by (nonlinear_arith)
            requires
                n1 <= n2,
                n1 / d == n2 / d,
                d > 0,
        ;
    }
}

/// Scaling dividend and divisor alike leaves the rounded quotient alone.
proof fn lemma_round_half_even_scale(n: nat, d: nat, c: nat)
    requires
        d > 0,
        c > 0,
    ensures
        round_half_even(n * c, d * c) == round_half_even(n, d),
{
    let q = n / d;
    let r = n % d;
    lemma_fundamental_div_mod(n as int, d as int);
    assert(n * c == q * (d * c) + r * c && r * c < d * c) by (nonlinear_arith)
        requires
            n == q * d + r,
            r < d,
            c > 0,
    ;
    lemma_fundamental_div_mod_converse((n * c) as int, (d * c) as int, q as int, (r * c) as int);
    assert((2 * (r * c) > d * c) == (2 * r > d) && (2 * (r * c) == d * c) == (2 * r == d))
        by (nonlinear_arith)
        requires
            c > 0,
    ;
}

/// Fields of a pattern of value at least one, other than `max_value`.
proof fn lemma_large_fields(p: nat)
    requires
        0x4000 <= p <= 0x7FFE,
    ensures
        ({
            let k = regime_run(p, 0);
            let fw = fraction_width(k);
            let e = exponent_bit(p, k);
            let f = fraction_bits(p, k);
            &&& k <= 13
            &&& regime_prefix(k) <= p < regime_prefix(k + 1)
            &&& e < 2
            &&& f < pow2(fw)
            &&& p == regime_prefix(k) + e * pow2(fw) + f
            &&& k <= 12 ==> fw == 12 - k
            &&& k == 13 ==> e == 0 && f == 0 && fw == 0
        }),
{
    lemma2_to64();
    let k = regime_run(p, 0);
    assert(regime_prefix(0) == 0x4000);
    lemma_regime_run_bounds(p, 0);
    if k == 14 {
        assert(regime_prefix(14) == 0x7FFF);
    }
    let fw = fraction_width(k);
    let e = exponent_bit(p, k);
    let f = fraction_bits(p, k);
    lemma_pow2_pos(fw);
    if k < 13 {
        lemma_pow2_unfold((14 - k) as nat);
        lemma_pow2_unfold((13 - k) as nat);
        let rem = (p - regime_prefix(k)) as nat;
        assert(rem == e * pow2(fw) + f) by (nonlinear_arith)
            requires
                e == rem / pow2(fw),
                f == rem % pow2(fw),
                pow2(fw) > 0,
        ;
        assert(e < 2) by (nonlinear_arith)
            requires
                rem < 2 * pow2(fw),
                e == rem / pow2(fw),
                pow2(fw) > 0,
        ;
    } else {
        lemma_pow2_unfold(1);
        assert(e * pow2(fw) == 0) by (nonlinear_arith)
            requires
                e == 0,
        ;
    }
}

/// The value of a pattern of value at least one, times `2^12`.
spec fn scaled_value(p: nat) -> nat {
    let k = regime_run(p, 0);
    let fw = fraction_width(k);
    let s = 2 * k + exponent_bit(p, k);
    (pow2(fw) + fraction_bits(p, k)) * pow2((s + 12 - fw) as nat)
}

/// Where a pattern's scaled value lies between powers of two, and that it
/// decodes to that value rounded to a multiple of `2^12`.
proof fn lemma_scaled_value(p: nat)
    requires
        0x4000 <= p <= 0x7FFE,
    ensures
        ({
            let k = regime_run(p, 0);
            let s = 2 * k + exponent_bit(p, k);
            &&& pow2(s + 12) <= scaled_value(p) < pow2(s + 13)
            &&& round_large_pattern(p) == round_half_even(scaled_value(p), pow2(12))
        }),
{
    lemma_large_fields(p);
    let k = regime_run(p, 0);
    let fw = fraction_width(k);
    let f = fraction_bits(p, k);
    let s = 2 * k + exponent_bit(p, k);
    let n = pow2(fw) + f;
    let c = pow2((s + 12 - fw) as nat);
    let w = n * c;
    lemma_pow2_pos(fw);
    lemma_pow2_pos((s + 12 - fw) as nat);
    lemma_pow2_adds(fw, (s + 12 - fw) as nat);
    lemma_pow2_unfold(fw + 1);
    lemma_pow2_adds(fw + 1, (s + 12 - fw) as nat);
    assert(pow2(fw) * c <= w && w < 2 * pow2(fw) * c) by (nonlinear_arith)
        requires
            w == n * c,
            pow2(fw) <= n < 2 * pow2(fw),
            c > 0,
    ;
    lemma_pow2_unfold(s + 13);
    if s >= fw {
        let e = pow2((s - fw) as nat);
        lemma_pow2_adds((s - fw) as nat, 12);
        lemma2_to64();
        assert(w == (n * e) * pow2(12)) by (nonlinear_arith)
            requires
                w == n * c,
                c == e * pow2(12),
        ;
        assert(w / pow2(12) == n * e && w % pow2(12) == 0) by (nonlinear_arith)
            requires
                w == (n * e) * pow2(12),
                pow2(12) > 0,
        ;
    } else {
        let d = pow2((fw - s) as nat);
        lemma_pow2_pos((fw - s) as nat);
        lemma_pow2_adds((fw - s) as nat, (s + 12 - fw) as nat);
        lemma_round_half_even_scale(n, d, c);
    }
}

/// The scale never decreases as the pattern grows, and with equal scales
/// the fraction does not either.
proof fn lemma_scale_monotonic(p: nat, q: nat)
    requires
        0x4000 <= p <= q <= 0x7FFE,
    ensures
        ({
            let kp = regime_run(p, 0);
            let kq = regime_run(q, 0);
            let sp = 2 * kp + exponent_bit(p, kp);
            let sq = 2 * kq + exponent_bit(q, kq);
            &&& sp <= sq
            &&& sp == sq ==> kp == kq && fraction_bits(p, kp) <= fraction_bits(q, kq)
        }),
{
    lemma_large_fields(p);
    lemma_large_fields(q);
    let kp = regime_run(p, 0);
    let kq = regime_run(q, 0);
    if kq < kp {
        lemma_prefix_increases_or_equal(kq + 1, kp);
    } else if kp < kq {
        lemma_prefix_increases_or_equal(kp + 1, kq);
    } else {
        let fw = fraction_width(kp);
        let ep = exponent_bit(p, kp);
        let eq = exponent_bit(q, kq);
        if eq < ep {
            assert(false) by (nonlinear_arith)
                requires
                    p <= q,
                    p == regime_prefix(kp) + ep * pow2(fw) + fraction_bits(p, kp),
                    q == regime_prefix(kp) + eq * pow2(fw) + fraction_bits(q, kq),
                    fraction_bits(q, kq) < pow2(fw),
                    eq == 0,
                    ep == 1,
            ;
        }
    }
}

proof fn lemma_prefix_increases_or_equal(i: nat, j: nat)
    requires
        i <= j <= 14,
    ensures
        regime_prefix(i) <= regime_prefix(j),
{
    if i < j {
        lemma_prefix_increases(i, j);
    }
}

/// The scaled value does not decrease as the pattern grows.
proof fn lemma_scaled_value_monotonic(p: nat, q: nat)
    requires
        0x4000 <= p <= q <= 0x7FFE,
    ensures
        scaled_value(p) <= scaled_value(q),
{
    lemma_scaled_value(p);
    lemma_scaled_value(q);
    lemma_scale_monotonic(p, q);
    let kp = regime_run(p, 0);
    let kq = regime_run(q, 0);
    let sp = 2 * kp + exponent_bit(p, kp);
    let sq = 2 * kq + exponent_bit(q, kq);
    if sp < sq {
        if sp + 13 < sq + 12 {
            lemma_pow2_strictly_increases(sp + 13, sq + 12);
        }
    } else {
        assert(scaled_value(p) <= scaled_value(q)) by (nonlinear_arith)
            requires
                fraction_bits(p, kp) <= fraction_bits(q, kq),
                scaled_value(p) == (pow2(fraction_width(kp)) + fraction_bits(p, kp)) * pow2(
                    (sp + 12 - fraction_width(kp)) as nat,
                ),
                scaled_value(q) == (pow2(fraction_width(kp)) + fraction_bits(q, kq)) * pow2(
                    (sp + 12 - fraction_width(kp)) as nat,
                ),
        ;
    }
}

/// From `0x5401` to `0x7FFE` the decoded magnitude lies strictly between
/// 2 and `0x1000_0000` and does not decrease as the pattern grows.
pub proof fn lemma_decode_monotonic(p: nat, q: nat)
    requires
        0x5401 <= p <= q <= 0x7FFE,
    ensures
        2 < decode_magnitude(p) < 0x1000_0000,
        decode_magnitude(p) <= decode_magnitude(q),
{
    lemma2_to64();
    lemma2_to64_rest();
    lemma_scaled_value(p);
    lemma_scaled_value(q);
    lemma_scaled_value_monotonic(p, q);
    lemma_round_half_even_monotonic(scaled_value(p), scaled_value(q), pow2(12));
    // the lowest pattern of the range decodes to 3
    let lo: nat = 0x5401;
    assert(regime_prefix(1) == 0x6000);
    assert(regime_run(lo, 0) == 0);
    assert(regime_prefix(0) == 0x4000);
    assert(fraction_width(0) == 12);
    assert(pow2(12) == 4096);
    assert(0x1401nat / 4096 == 1 && 0x1401nat % 4096 == 0x401);
    assert(exponent_bit(lo, 0) == 1);
    assert(fraction_bits(lo, 0) == 0x401);
    assert(pow2(1) == 2);
    assert(scaled_value(lo) == (4096 + 0x401) * pow2(1));
    assert(scaled_value(lo) == 10242);
    lemma_scaled_value_monotonic(lo, p);
    lemma_round_half_even_monotonic(10242, scaled_value(p), pow2(12));
    assert(round_half_even(10242, 4096) == 3);
    // an upper bound from the scale
    let kp = regime_run(p, 0);
    let sp = 2 * kp + exponent_bit(p, kp);
    lemma_large_fields(p);
    if kp < 13 {
        lemma_pow2_strictly_increases(sp + 13, 39);
    }
    assert(scaled_value(p) < pow2(39));
    assert(round_half_even(scaled_value(p), pow2(12)) <= scaled_value(p) / pow2(12) + 1);
}

} // verus!
