//! Encoders: IEEE-754 bit patterns to MIL-STD-1750A words.
//!
//! Each encoder takes the exponent `e = ceil(log2 |x|)`, scales `x` by
//! `2^(F - e)` for the width's count `F` of fractional mantissa bits, rounds
//! to the nearest integer with halves away from zero, renormalises a mantissa
//! that reached the width's threshold, and packs the fields.

use crate::arith::{ceil_log2, ceil_log2_u64, lemma_round_shift_range, round_shift, round_shift_u64};
use crate::ieee::{
    double_finite, double_unpacked, half_finite, half_unpacked, single_finite, single_unpacked,
    unpack_double, unpack_half, unpack_single, Unpacked,
};
use crate::word::{pack16, pack32, pack48, word16, word32, word48};
use vstd::arithmetic::power2::{lemma2_to64, lemma2_to64_rest, lemma_pow2_strictly_increases, pow2};
use vstd::prelude::*;

verus! {

/// `ceil(log2 |x|)` for a nonzero `x`.
pub open spec fn ceil_exponent(x: Unpacked) -> int {
    ceil_log2(x.significand as nat) + x.scale
}

/// `x * 2^(f - ceil_exponent(x))`, rounded to the nearest integer with halves
/// away from zero.
pub open spec fn scaled_mantissa(x: Unpacked, f: nat) -> int {
    let magnitude = round_shift(
        x.significand as nat,
        f - ceil_log2(x.significand as nat),
    );
    if x.negative {
        -magnitude
    } else {
        magnitude as int
    }
}

/// The 16-bit word of a binary16 pattern.
pub open spec fn encode16(bits: u16) -> int {
    let x = half_unpacked(bits);
    if x.significand == 0 {
        0
    } else {
        let m = scaled_mantissa(x, 9);
        let e = ceil_exponent(x);
        if m == 0x8000 {
            word16(m / 2, e + 1)
        } else {
            word16(m, e)
        }
    }
}

/// The 32-bit word of a binary32 pattern.
pub open spec fn encode32(bits: u32) -> int {
    let x = single_unpacked(bits);
    if x.significand == 0 {
        0
    } else {
        let m = scaled_mantissa(x, 23);
        let e = ceil_exponent(x);
        if m == 0x80_0000 {
            word32(m / 2, e + 1, x.negative)
        } else {
            word32(m, e, x.negative)
        }
    }
}

/// The 48-bit word of a binary64 pattern.
pub open spec fn encode48(bits: u64) -> int {
    let x = double_unpacked(bits);
    if x.significand == 0 {
        0
    } else {
        let m = scaled_mantissa(x, 39);
        let e = ceil_exponent(x);
        if m == 0x80_0000_0000 {
            word48(m / 2, e + 1, x.negative)
        } else {
            word48(m, e, x.negative)
        }
    }
}

/// Exponent and scaled mantissa of a nonzero value, for a mantissa with `f`
/// fractional bits. The mantissa's magnitude lies in `[2^(f-1), 2^f]`.
pub fn normalize(x: Unpacked, f: u32) -> (r: (i64, i32))
    requires
        0 < x.significand <= 0x4000_0000_0000_0000,
        1 <= f <= 62,
        -0x4000_0000 <= x.scale <= 0x4000_0000,
    ensures
        r.0 == scaled_mantissa(x, f as nat),
        r.1 == ceil_exponent(x),
        x.scale <= r.1 <= x.scale + 63,
        x.negative ==> -pow2(f as nat) <= r.0 <= -pow2((f - 1) as nat),
        !x.negative ==> pow2((f - 1) as nat) <= r.0 <= pow2(f as nat),
{
    let l = ceil_log2_u64(x.significand);
    let k: i32 = f as i32 - l as i32;
    proof {
        lemma2_to64();
        lemma2_to64_rest();
        lemma_round_shift_range(x.significand as nat, f as nat);
        if f < 62 {
            lemma_pow2_strictly_increases(f as nat, 62);
        }
        if k < 0 && -k - 1 < 62 {
            lemma_pow2_strictly_increases((-k - 1) as nat, 62);
        }
    }
    let magnitude = round_shift_u64(x.significand, k);
    let m: i64 = if x.negative {
        -(magnitude as i64)
    } else {
        magnitude as i64
    };
    (m, l as i32 + x.scale)
}

/// Encodes the binary16 value with bit pattern `input` as a 16-bit word.
///
/// The renormalisation threshold of this width is `2^15`, which a mantissa
/// scaled to nine fractional bits never reaches.
pub fn f16_to_1750a(input: u16) -> (w: u16)
    requires
        half_finite(input),
    ensures
        w == encode16(input),
{
    let x = unpack_half(input);
    if x.significand == 0 {
        return 0;
    }
    proof {
        lemma2_to64();
    }
    let (mut mantissa, mut exponent) = normalize(x, 9);
    if mantissa == 32768 {
        mantissa = mantissa / 2;
        exponent = exponent + 1;
    }
    pack16(mantissa as i32, exponent)
}

/// Encodes the binary32 value with bit pattern `input` as a 32-bit word.
pub fn f32_to_1750a(input: u32) -> (w: u32)
    requires
        single_finite(input),
    ensures
        w == encode32(input),
{
    let x = unpack_single(input);
    if x.significand == 0 {
        return 0;
    }
    proof {
        lemma2_to64();
    }
    let (mut mantissa, mut exponent) = normalize(x, 23);
    if mantissa == 8388608 {
        mantissa = mantissa / 2;
        exponent = exponent + 1;
    }
    pack32(mantissa as i32, exponent, x.negative)
}

/// Encodes the binary64 value with bit pattern `input` as a 48-bit word,
/// held in the low 48 bits of the result.
pub fn f48_to_1750a(input: u64) -> (w: u64)
    requires
        double_finite(input),
    ensures
        w == encode48(input),
        w < 0x1_0000_0000_0000,
{
    let x = unpack_double(input);
    if x.significand == 0 {
        return 0;
    }
    proof {
        lemma2_to64();
        lemma2_to64_rest();
    }
    let (mut mantissa, mut exponent) = normalize(x, 39);
    if mantissa == 549755813888 {
        mantissa = mantissa / 2;
        exponent = exponent + 1;
    }
    pack48(mantissa, exponent, x.negative)
}

} // verus!
