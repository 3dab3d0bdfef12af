//! Decoders: MIL-STD-1750A words to IEEE-754 bit patterns.
//!
//! Each decoder reads the exponent field as a two's-complement number and
//! returns the pattern of `mantissa * 2^(exponent - F)`. The 32-bit mantissa
//! is read as two's complement; the 16-bit and 48-bit mantissa fields are
//! read as unsigned numbers, so no word of those widths decodes to a negative
//! value. Every 32-bit and 48-bit word decodes to a finite pattern; a 16-bit
//! word whose value binary16 cannot hold decodes to infinity.

use crate::arith::lemma_ceil_log2_le;
use crate::ieee::{
    compose_double, compose_half, compose_single, double_bits, double_finite, half_bits,
    single_bits, single_finite,
};
use crate::word::{exponent16, exponent32, exponent48, mantissa16, mantissa32, mantissa48};
use vstd::arithmetic::power2::{lemma2_to64, lemma2_to64_rest};
use vstd::prelude::*;

verus! {

/// The binary16 pattern of the value of a 16-bit word.
pub open spec fn decode16(w: u16) -> int {
    half_bits(mantissa16(w) as nat, exponent16(w) - 9)
}

/// The binary32 pattern of the value of a 32-bit word.
pub open spec fn decode32(w: u32) -> int {
    let m = mantissa32(w);
    if m < 0 {
        single_bits(true, (-m) as nat, exponent32(w) - 23)
    } else {
        single_bits(false, m as nat, exponent32(w) - 23)
    }
}

/// The binary64 pattern of the value of a 48-bit word.
pub open spec fn decode48(w: u64) -> int {
    double_bits(false, mantissa48(w) as nat, exponent48(w) - 39)
}

/// Decodes a 16-bit word to a binary16 pattern. A value of `2^16` or more
/// decodes to positive infinity.
pub fn m1750a_to_16flt(input: u16) -> (bits: u16)
    ensures
        bits == decode16(input),
{
    let mantissa: u16 = input / 0x40;
    let field: i32 = (input % 0x40) as i32;
    let exponent: i32 = if field >= 0x20 {
        field - 0x40
    } else {
        field
    };
    compose_half(mantissa, exponent - 9)
}

/// Decodes a 32-bit word to a binary32 pattern.
pub fn m1750a_to_32flt(input: u32) -> (bits: u32)
    ensures
        bits == decode32(input),
        single_finite(bits),
{
    let raw: u32 = input / 0x100;
    let field: i32 = (input % 0x100) as i32;
    let exponent: i32 = if field >= 0x80 {
        field - 0x100
    } else {
        field
    };
    let negative = raw >= 0x80_0000;
    let magnitude: u32 = if negative {
        0x100_0000 - raw
    } else {
        raw
    };
    proof {
        lemma2_to64();
        lemma_ceil_log2_le((magnitude + 1) as nat, 24);
    }
    compose_single(negative, magnitude, exponent - 23)
}

/// Decodes a 48-bit word, held in the low 48 bits of `input`, to a binary64
/// pattern.
pub fn m1750a_to_48flt(input: u64) -> (bits: u64)
    ensures
        bits == decode48(input),
        double_finite(bits),
{
    let high: u64 = (input / 0x100_0000) % 0x100_0000;
    let low: u64 = input % 0x1_0000;
    let field: i32 = ((input / 0x1_0000) % 0x100) as i32;
    let exponent: i32 = if field >= 0x80 {
        field - 0x100
    } else {
        field
    };
    let mantissa: u64 = high * 0x1_0000 + low;
    proof {
        lemma2_to64();
        lemma2_to64_rest();
        lemma_ceil_log2_le((mantissa + 1) as nat, 40);
    }
    compose_double(false, mantissa, exponent - 39)
}

} // verus!
