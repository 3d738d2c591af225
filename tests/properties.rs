use posit16::magnitude::{
    convert_p16bits_to_u32, convert_p16bits_to_u64, convert_u32_to_p16bits, convert_u64_to_p16bits,
};
use posit16::p16e1::P16E1;

#[test]
fn fixed_points_of_the_unsigned_encoder() {
    assert_eq!(convert_u32_to_p16bits(0), 0x0000);
    assert_eq!(convert_u32_to_p16bits(1), 0x4000);
    assert_eq!(convert_u32_to_p16bits(0x1000_0000), 0x7FFF);
    assert_eq!(convert_u64_to_p16bits(u64::MAX), 0x7FFF);
    assert_eq!(convert_u32_to_p16bits(2), 0x5000);
}

#[test]
fn literal_vectors() {
    assert_eq!(convert_u64_to_p16bits(32), 0b0_1110_1_00_0000_0000);
    assert_eq!(convert_u64_to_p16bits(15), 0b0_110_1_111_0000_0000);
    assert_eq!(convert_u32_to_p16bits(3), 0b0_10_1_1000_0000_0000);
    assert_eq!(convert_u32_to_p16bits(128), 0b0_11110_1_0_0000_0000);
}

#[test]
fn near_overflow_gap() {
    assert_eq!(convert_u32_to_p16bits(0x0800_0001), 0x7FFF);
    assert_eq!(convert_u32_to_p16bits(0x0800_0000), 0x7FFE);
    assert_eq!(convert_u32_to_p16bits(0x0300_0000), 0x7FFE);
    assert_eq!(convert_u32_to_p16bits(0x02FF_FFFF), 0x7FFD);
    assert_eq!(convert_u64_to_p16bits(0x0800_0000), 0x7FFE);
}

#[test]
fn rounding_ties_go_to_even() {
    // 8256 lies halfway between patterns 0x7F40 and 0x7F41
    assert_eq!(convert_u32_to_p16bits(8256), 0x7F40);
    // 8384 lies halfway between patterns 0x7F41 and 0x7F42
    assert_eq!(convert_u32_to_p16bits(8384), 0x7F42);
    // just above a tie rounds up
    assert_eq!(convert_u32_to_p16bits(8257), 0x7F41);
    assert_eq!(convert_u64_to_p16bits(8384), 0x7F42);
}

#[test]
fn saturation_boundary() {
    assert_eq!(P16E1::from_i32(i32::MIN), P16E1::min_value());
    assert_eq!(P16E1::from_i32(-134_217_729), P16E1::min_value());
    assert_eq!(P16E1::from_i64(i64::MIN), P16E1::min_value());
    assert_eq!(P16E1::from_i64(-134_217_729), P16E1::min_value());
    // the threshold itself goes through the magnitude encoder
    assert_eq!(P16E1::from_i32(-134_217_728).to_bits(), 0x8002);
    assert_eq!(P16E1::from_u32(0x0800_0001), P16E1::max_value());
    assert_eq!(P16E1::from_i32(i32::MAX), P16E1::max_value());
    assert_eq!(P16E1::from_u64(u64::MAX), P16E1::max_value());
}

#[test]
fn signed_encoding_negates_the_pattern() {
    assert_eq!(P16E1::from_i32(-3).to_bits(), 0xA800);
    assert_eq!(P16E1::from_i64(-3).to_bits(), 0xA800);
    assert_eq!(P16E1::from_i32(-1).to_bits(), 0xC000);
    assert_eq!(P16E1::from_i32(0), P16E1::zero());
    assert_eq!(P16E1::from_i64(128).to_bits(), 0x7A00);
}

#[test]
fn nar_decodes_to_zero() {
    assert_eq!(P16E1::nar().to_i32(), 0);
    assert_eq!(P16E1::nar().to_i64(), 0);
    for bits in 0x8000..=0xFFFFu16 {
        let p = P16E1::from_bits(bits);
        assert_eq!(p.to_u32(), 0);
        assert_eq!(p.to_u64(), 0);
    }
}

#[test]
fn signed_decoding() {
    assert_eq!(P16E1::from_bits(0xA800).to_i32(), -3);
    assert_eq!(P16E1::from_bits(0xA800).to_i64(), -3);
    assert_eq!(P16E1::min_value().to_i32(), -0x1000_0000);
    assert_eq!(P16E1::max_value().to_i64(), 0x1000_0000);
    assert_eq!(P16E1::max_value().to_u32(), 0x1000_0000);
}

#[test]
fn monotonic_decode() {
    let mut last = convert_p16bits_to_u32(0x5401);
    for n in 0x5401..=0x7FFEu16 {
        let u = convert_p16bits_to_u32(n);
        assert!(u > 2);
        assert!(u < 0x1000_0000);
        assert!(u >= last);
        assert_eq!(u as u64, convert_p16bits_to_u64(n));
        last = u;
    }
}

#[test]
fn small_integer_fast_path() {
    assert_eq!(convert_p16bits_to_u32(0x0000), 0);
    assert_eq!(convert_p16bits_to_u32(0x3000), 0);
    assert_eq!(convert_p16bits_to_u32(0x3001), 1);
    assert_eq!(convert_p16bits_to_u32(0x47FF), 1);
    assert_eq!(convert_p16bits_to_u32(0x4800), 2);
    assert_eq!(convert_p16bits_to_u64(0x5400), 2);
    assert_eq!(convert_p16bits_to_u64(0x5401), 3);
}

#[test]
fn decoding_rounds_ties_to_even() {
    // 0x5C00 is 3.5, 0x6100 is 4.5
    assert_eq!(convert_p16bits_to_u32(0x5C00), 4);
    assert_eq!(convert_p16bits_to_u32(0x6100), 4);
    // 0x7FFE is 2^26
    assert_eq!(convert_p16bits_to_u32(0x7FFE), 0x0400_0000);
}

#[test]
fn float_special_values() {
    assert_eq!(P16E1::from_f64_bits(f64::NAN.to_bits()), P16E1::nar());
    assert_eq!(P16E1::from_f64_bits(f64::INFINITY.to_bits()), P16E1::nar());
    assert_eq!(P16E1::from_f64_bits(f64::NEG_INFINITY.to_bits()), P16E1::nar());
    assert_eq!(P16E1::from_f64_bits((-0.0f64).to_bits()), P16E1::zero());
    assert_eq!(P16E1::from_f64_bits(1e9f64.to_bits()), P16E1::max_value());
    assert_eq!(P16E1::from_f64_bits((-1e9f64).to_bits()), P16E1::min_value());
    assert_eq!(P16E1::from_f64_bits((-1.0f64).to_bits()).to_bits(), 0xC000);
    assert_eq!(P16E1::from_f64_bits(1e-10f64.to_bits()), P16E1::min_positive());
    assert_eq!(P16E1::from_f64_bits((-1e-10f64).to_bits()).to_bits(), 0xFFFF);
    assert_eq!(P16E1::from_f32_bits(f32::NAN.to_bits()), P16E1::nar());
    assert_eq!(P16E1::from_f32_bits(3.0e8f32.to_bits()), P16E1::max_value());
    assert_eq!(P16E1::from_f32_bits(1.0f32.to_bits()), P16E1::one());
    assert!(f64::from_bits(P16E1::nar().to_f64_bits()).is_nan());
    assert!(f32::from_bits(P16E1::nar().to_f32_bits()).is_nan());
    assert_eq!(P16E1::zero().to_f64_bits(), 0);
}

#[test]
fn float_values() {
    assert_eq!(f64::from_bits(P16E1::from_bits(0x5800).to_f64_bits()), 3.0);
    assert_eq!(f32::from_bits(P16E1::from_bits(0xA800).to_f32_bits()), -3.0);
    assert_eq!(f64::from_bits(P16E1::min_positive().to_f64_bits()), 2f64.powi(-28));
    assert_eq!(f64::from_bits(P16E1::max_value().to_f64_bits()), 2f64.powi(28));
    assert_eq!(P16E1::from_f64_bits(3.0f64.to_bits()).to_bits(), 0x5800);
    assert_eq!(P16E1::from_f64_bits(0.5f64.to_bits()).to_bits(), 0x3000);
    assert_eq!(P16E1::from_f32_bits(0.75f32.to_bits()).to_bits(), 0x3800);
}

#[test]
fn float_rounding_ties_to_even() {
    // halfway between 1 (0x4000) and the next posit 1 + 2^-12 (0x4001)
    let tie = 1.0f64 + 2f64.powi(-13);
    assert_eq!(P16E1::from_f64_bits(tie.to_bits()).to_bits(), 0x4000);
    // halfway between 0x4001 and 0x4002
    let tie_up = 1.0f64 + 3.0 * 2f64.powi(-13);
    assert_eq!(P16E1::from_f64_bits(tie_up.to_bits()).to_bits(), 0x4002);
    assert_eq!(P16E1::from_f32_bits((tie_up as f32).to_bits()).to_bits(), 0x4002);
}

#[test]
fn construction_from_signed_bits() {
    assert_eq!(P16E1::new(-1).to_bits(), 0xFFFF);
    assert_eq!(P16E1::new(i16::MIN), P16E1::nar());
    assert_eq!(P16E1::new(0x4000), P16E1::one());
    assert_eq!(P16E1::one().neg().to_bits(), 0xC000);
    assert_eq!(P16E1::nar().neg(), P16E1::nar());
    assert!(P16E1::zero().is_zero());
    assert!(P16E1::nar().is_nar());
    assert_eq!(P16E1::one().with_sign(true).to_bits(), 0xC000);
    assert_eq!(P16E1::one().with_sign(false), P16E1::one());
}
