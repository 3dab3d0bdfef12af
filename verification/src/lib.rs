//! Conversion between IEEE-754 binary floating-point numbers and the
//! MIL-STD-1750A floating-point word formats (16, 32 and 48 bits).
//!
//! Every number crosses this interface as a bit pattern held in an unsigned
//! integer: an IEEE-754 value as the bits of its interchange format, a
//! MIL-1750A value as its word. All arithmetic is exact integer arithmetic.

pub mod arith;
pub mod decode;
pub mod encode;
pub mod ieee;
pub mod theorems;
pub mod word;

pub use decode::{m1750a_to_16flt, m1750a_to_32flt, m1750a_to_48flt};
pub use encode::{f16_to_1750a, f32_to_1750a, f48_to_1750a};
