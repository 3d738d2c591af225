use posit16::magnitude::{
    convert_p16bits_to_u32, convert_p16bits_to_u64, convert_u32_to_p16bits, convert_u64_to_p16bits,
};
use posit16::p16e1::P16E1;

#[test]
fn convert_p16bits_u64() {
    for n in 0x5401..0x7fffu16 {
        let u = convert_p16bits_to_u64(n);
        assert!(u > 2);
        assert!(u < 0x1000_0000);
    }
}

#[test]
fn convert_p16bits_u32() {
    for n in 0x5401..0x7fffu16 {
        let u = convert_p16bits_to_u32(n);
        assert!(u > 2);
        assert!(u < 0x1000_0000);
    }
}

#[test]
fn convert_u64_p16bits() {
    assert_eq!(P16E1::zero().to_bits(), convert_u64_to_p16bits(0));
    assert_eq!(P16E1::one().to_bits(), convert_u64_to_p16bits(1));
    assert_eq!(P16E1::max_value().to_bits(), convert_u64_to_p16bits(0x1000_0000));
    assert_eq!(0b0_1110_1_00_0000_0000u16, convert_u64_to_p16bits(32));
    assert_eq!(0b0_110_1_111_0000_0000u16, convert_u64_to_p16bits(15));
}

#[test]
fn convert_u32_p16bits() {
    assert_eq!(P16E1::zero().to_bits(), convert_u32_to_p16bits(0));
    assert_eq!(P16E1::one().to_bits(), convert_u32_to_p16bits(1));
    assert_eq!(P16E1::max_value().to_bits(), convert_u32_to_p16bits(0x1000_0000));
    assert_eq!(0b0_10_1_1000_0000_0000u16, convert_u32_to_p16bits(3));
    assert_eq!(0b0_11110_1_0_0000_0000u16, convert_u32_to_p16bits(128));
}

fn to_f64(p: P16E1) -> f64 {
    f64::from_bits(p.to_f64_bits())
}

fn to_f32(p: P16E1) -> f32 {
    f32::from_bits(p.to_f32_bits())
}

fn from_f64(f: f64) -> P16E1 {
    P16E1::from_f64_bits(f.to_bits())
}

fn from_f32(f: f32) -> P16E1 {
    P16E1::from_f32_bits(f.to_bits())
}

/// Whether the posit is an exact multiple of one half.
fn is_half_multiple(p: P16E1) -> bool {
    (to_f64(p) * 2.0).fract() == 0.0
}

#[test]
fn convert_p16_f64() {
    for n in -0x_8000_i16..0x_7fff {
        let p = P16E1::new(n);
        let f = to_f64(p);
        assert_eq!(p, from_f64(f));
    }
}

#[test]
fn convert_p16_f32() {
    for n in -0x_8000_i16..0x_7fff {
        let p = P16E1::new(n);
        let f = to_f32(p);
        assert_eq!(p, from_f32(f));
    }
}

#[test]
fn convert_p16_i32() {
    for n in -0x_8000_i16..0x_7fff {
        let p = P16E1::new(n);
        let f = to_f64(p).round();
        if is_half_multiple(p) {
            continue;
        }
        assert_eq!(p.to_i32(), f as i32);
    }
}

#[test]
fn convert_p16_i64() {
    for n in -0x_8000_i16..0x_7fff {
        let p = P16E1::new(n);
        let f = to_f64(p).round();
        if is_half_multiple(p) {
            continue;
        }
        assert_eq!(p.to_i64(), f as i64);
    }
}
