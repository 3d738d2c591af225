//! Conversions between the 16-bit posit format with one exponent bit and
//! native integers, with bit-exact rounding and saturation.

pub mod model;
pub mod magnitude;
pub mod p16e1;
pub mod float;
pub mod laws;
