//! Theorems about the encoders and decoders: what zero encodes to, when an
//! encoder renormalises, how the sign shows in a 32-bit word, what a decoded
//! pattern stands for, and what comes back from a round trip.

use crate::arith::{
    ceil_log2, lemma_ceil_log2_le, lemma_ceil_log2_unique, lemma_round_shift_range,
    round_even_shift, round_shift,
};
use crate::decode::{decode16, decode32, decode48};
use crate::encode::{ceil_exponent, encode16, encode32, encode48, scaled_mantissa};
use crate::ieee::{
    biased_exponent, double_bits, double_exponent_field, double_finite, double_unpacked,
    half_bits, half_exponent_field, half_finite, half_unpacked, lemma_double_bits_exact,
    lemma_half_bits_exact, lemma_normalized_significand, lemma_single_bits_exact,
    lemma_single_bits_subnormal,
    magnitude_bits, single_exponent_field, single_finite, single_unpacked, Unpacked,
};
use crate::word::{
    exponent16, exponent32, exponent48, mantissa16, mantissa32, mantissa48, word16, word32, word48,
};
use vstd::arithmetic::power2::{lemma2_to64, lemma2_to64_rest, pow2};
use vstd::prelude::*;

verus! {

/// At 16 bits the all-zero word is the word of the two zeros and of no
/// other finite value.
pub proof fn lemma_zero_word_16(bits: u16)
    requires
        half_finite(bits),
    ensures
        encode16(bits) == 0 <==> bits % 0x8000 == 0,
{
    lemma2_to64();
    let x = half_unpacked(bits);
    if x.significand != 0 {
        lemma_round_shift_range(x.significand as nat, 9);
        let m = scaled_mantissa(x, 9);
        assert(0x100 <= m % 0x400 <= 0x300);
    }
}

/// At 32 bits the all-zero word is the word of the two zeros and of no
/// other finite value.
pub proof fn lemma_zero_word_32(bits: u32)
    requires
        single_finite(bits),
    ensures
        encode32(bits) == 0 <==> bits % 0x8000_0000 == 0,
{
    if single_unpacked(bits).significand != 0 {
        lemma_sign_bit_32(bits);
        if bits < 0x8000_0000 {
            lemma2_to64();
            lemma_round_shift_range(single_unpacked(bits).significand as nat, 23);
        }
    }
}

/// At 48 bits the all-zero word is the word of the two zeros and of no
/// other finite value.
pub proof fn lemma_zero_word_48(bits: u64)
    requires
        double_finite(bits),
    ensures
        encode48(bits) == 0 <==> bits % 0x8000_0000_0000_0000 == 0,
{
    if double_unpacked(bits).significand != 0 {
        lemma_sign_bit_48(bits);
        if bits < 0x8000_0000_0000_0000 {
            lemma2_to64();
            lemma2_to64_rest();
            let x = double_unpacked(bits);
            lemma_round_shift_range(x.significand as nat, 39);
            let m = scaled_mantissa(x, 39);
            let m2 = if m == 0x80_0000_0000 { m / 2 } else { m };
            assert(m2 % 0x100_0000_0000 == m2);
            assert(m2 / 0x1_0000 >= 0x40_0000);
        }
    }
}

/// Scaled mantissa and exponent of a normal binary32 pattern: a power of two
/// scales to `2^23` exactly, any other value to half its 24-bit significand,
/// rounded up.
pub proof fn lemma_normal_single_fields(bits: u32)
    requires
        1 <= single_exponent_field(bits) <= 254,
    ensures
        ({
            let x = single_unpacked(bits);
            let s = x.significand as int;
            let m = scaled_mantissa(Unpacked { negative: false, ..x }, 23);
            &&& 0x80_0000 <= s < 0x100_0000
            &&& s == 0x80_0000 ==> m == 0x80_0000 && ceil_exponent(x) == single_exponent_field(bits)
                - 127
            &&& s != 0x80_0000 ==> m == (s + 1) / 2 && ceil_exponent(x) == single_exponent_field(
                bits,
            ) - 126
        }),
{
    lemma2_to64();
    let x = single_unpacked(bits);
    let s = x.significand as nat;
    if s == 0x80_0000 {
        lemma_ceil_log2_unique(s, 23);
        assert(round_shift(s, 0) == s * pow2(0));
    } else {
        lemma_ceil_log2_unique(s, 24);
        assert(round_shift(s, -1) == (s + pow2(0)) as nat / pow2(1));
    }
}

/// A positive normal binary32 value reaches the renormalisation threshold
/// exactly when it is a power of two or its significand is all ones. Its
/// word then has the mantissa `2^22` and the exponent raised by one.
pub proof fn lemma_threshold_32(bits: u32)
    requires
        bits < 0x8000_0000,
        1 <= single_exponent_field(bits) <= 254,
    ensures
        scaled_mantissa(single_unpacked(bits), 23) == 0x80_0000 <==> (bits % 0x80_0000 == 0 || bits
            % 0x80_0000 == 0x7F_FFFF),
        scaled_mantissa(single_unpacked(bits), 23) == 0x80_0000 ==> encode32(bits) == 0x4000_0000
            + (ceil_exponent(single_unpacked(bits)) + 1) % 0x100,
{
    lemma_normal_single_fields(bits);
    let x = single_unpacked(bits);
    assert(x == Unpacked { negative: false, ..x });
}

/// Bit 31 of a 32-bit word tells the sign of every finite nonzero value: the
/// two's-complement mantissa sets it for a negative value by itself, and
/// leaves it clear for a positive one.
pub proof fn lemma_sign_bit_32(bits: u32)
    requires
        single_finite(bits),
        single_unpacked(bits).significand != 0,
    ensures
        0 <= encode32(bits) < 0x1_0000_0000,
        encode32(bits) >= 0x8000_0000 <==> bits >= 0x8000_0000,
{
    lemma2_to64();
    lemma_round_shift_range(single_unpacked(bits).significand as nat, 23);
}

/// Bit 47 of a 48-bit word tells the sign of every finite nonzero value.
pub proof fn lemma_sign_bit_48(bits: u64)
    requires
        double_finite(bits),
        double_unpacked(bits).significand != 0,
    ensures
        0 <= encode48(bits) < 0x1_0000_0000_0000,
        encode48(bits) >= 0x8000_0000_0000 <==> bits >= 0x8000_0000_0000_0000,
{
    lemma2_to64();
    lemma2_to64_rest();
    let x = double_unpacked(bits);
    lemma_round_shift_range(x.significand as nat, 39);
    let m = scaled_mantissa(x, 39);
    let m2 = if m == 0x80_0000_0000 { m / 2 } else { m };
    let field = m2 % 0x100_0000_0000;
    if x.negative {
        assert(field == m2 + 0x100_0000_0000);
        assert(field / 0x1_0000 >= 0x80_0000);
    } else {
        assert(field == m2);
        assert(field / 0x1_0000 < 0x80_0000);
    }
}

/// Sign symmetry of the 32-bit encoder. Two finite nonzero binary32 patterns
/// that differ in the sign bit alone, and whose rounded mantissa stays below
/// the renormalisation threshold, encode to words with the same exponent
/// field and with mantissa fields that are two's-complement negations of
/// each other; bit 31 is clear in the first and set in the second.
pub proof fn lemma_sign_symmetry_32(positive: u32, negative: u32)
    requires
        positive < 0x8000_0000,
        negative == positive + 0x8000_0000,
        single_finite(positive),
        single_unpacked(positive).significand != 0,
        scaled_mantissa(single_unpacked(positive), 23) != 0x80_0000,
    ensures
        encode32(negative) % 0x100 == encode32(positive) % 0x100,
        encode32(negative) / 0x100 == 0x100_0000 - encode32(positive) / 0x100,
        0 <= encode32(positive) < 0x8000_0000 <= encode32(negative) < 0x1_0000_0000,
{
    lemma2_to64();
    let x = single_unpacked(positive);
    let y = single_unpacked(negative);
    assert(y == Unpacked { negative: true, ..x });
    lemma_round_shift_range(x.significand as nat, 23);
    let m = scaled_mantissa(x, 23);
    assert(scaled_mantissa(y, 23) == -m);
    assert(0x40_0000 <= m < 0x80_0000);
}

/// Round trip at 32 bits. A normal binary32 value whose exponent the word
/// can hold comes back rounded to the mantissa field's 23 magnitude bits, a
/// half away from zero: a pattern with an even fraction comes back as it
/// stands, one with an odd fraction as the next pattern away from zero.
pub proof fn lemma_round_trip_32(bits: u32)
    requires
        1 <= single_exponent_field(bits) <= 252,
    ensures
        0 <= encode32(bits) < 0x1_0000_0000,
        decode32(encode32(bits) as u32) == bits + bits % 2,
        single_finite((bits + bits % 2) as u32),
{
    lemma2_to64();
    lemma_normal_single_fields(bits);
    let x = single_unpacked(bits);
    let field = single_exponent_field(bits);
    let s = x.significand as int;
    let m0 = scaled_mantissa(Unpacked { negative: false, ..x }, 23);
    let m = scaled_mantissa(x, 23);
    assert(m == if x.negative { -m0 } else { m0 });
    let e = ceil_exponent(x);
    let m2 = if m == 0x80_0000 { m / 2 } else { m };
    let e2 = if m == 0x80_0000 { e + 1 } else { e };
    let w = word32(m2, e2, x.negative);
    assert(w == encode32(bits));
    assert(-0x80_0000 <= m2 < 0x80_0000);
    assert(-128 <= e2 <= 127);
    assert(0 <= w < 0x1_0000_0000);
    let wu = w as u32;
    assert(mantissa32(wu) == m2);
    assert(exponent32(wu) == e2);
    let a = (if m2 < 0 { -m2 } else { m2 }) as nat;
    let b = ceil_log2(a + 1);
    if a == 0x80_0000 {
        lemma_ceil_log2_unique(a + 1, 24);
        assert(a * pow2(0) == a);
    } else {
        lemma_ceil_log2_unique(a + 1, 23);
        assert(a * pow2(1) == 2 * a);
    }
    let f = biased_exponent(a, e2 - 23, 24, -149);
    assert(f == e2 + b + 103);
    assert(1 <= f <= 253);
    assert((f - 1) * pow2(23) == (f - 1) * 0x80_0000);
    let magnitude = magnitude_bits(a, e2 - 23, 24, -149);
    assert(magnitude == (f - 1) * 0x80_0000 + a * pow2((24 - b) as nat));
    assert(bits as int == (if x.negative { 0x8000_0000int } else { 0 }) + field * 0x80_0000 + (s
        - 0x80_0000));
}

/// Round trip at 16 bits, for positive values. A positive normal binary16
/// value comes back rounded to nine magnitude bits, a half rounded up: the
/// pattern with its two lowest fraction bits rounded away. The largest
/// values round up to infinity.
pub proof fn lemma_round_trip_16(bits: u16)
    requires
        bits < 0x8000,
        1 <= half_exponent_field(bits) <= 30,
    ensures
        0 <= encode16(bits) < 0x1_0000,
        decode16(encode16(bits) as u16) == (bits + 2) / 4 * 4,
{
    lemma2_to64();
    let x = half_unpacked(bits);
    let field = half_exponent_field(bits);
    let s = x.significand as nat;
    if s == 0x400 {
        lemma_ceil_log2_unique(s, 10);
        assert(round_shift(s, -1) == (s + pow2(0)) as nat / pow2(1));
    } else {
        lemma_ceil_log2_unique(s, 11);
        assert(round_shift(s, -2) == (s + pow2(1)) as nat / pow2(2));
    }
    let m = scaled_mantissa(x, 9);
    let e = ceil_exponent(x);
    assert(0x100 <= m <= 0x200);
    assert(-14 <= e <= 16);
    let w = word16(m, e);
    assert(w == encode16(bits));
    let wu = w as u16;
    assert(mantissa16(wu) == m);
    assert(exponent16(wu) == e);
    let a = m as nat;
    let b = ceil_log2(a + 1);
    if a == 0x200 {
        lemma_ceil_log2_unique(a + 1, 10);
        assert(a * pow2(1) == a * 2);
    } else {
        lemma_ceil_log2_unique(a + 1, 9);
        assert(a * pow2(2) == a * 4);
    }
    let f = biased_exponent(a, e - 9, 11, -24);
    assert(f == e + b + 5);
    assert(1 <= f <= 31);
    assert((f - 1) * pow2(10) == (f - 1) * 0x400);
    assert(bits as int == field * 0x400 + (s - 0x400));
    let y = decode16(wu);
    assert(y == half_bits(a, e - 9));
    if f < 31 {
        assert(y == magnitude_bits(a, e - 9, 11, -24));
        assert(y == (f - 1) * 0x400 + a * pow2((11 - b) as nat));
    } else {
        assert(y == 0x7C00);
    }
    if s == 0x400 {
        assert(a == 0x200 && f == field);
    } else if a == 0x200 {
        assert(s >= 0x7FE && f == field + 1);
    } else {
        assert(a == (s + 2) / 4 && f == field);
    }
}

/// Scaled mantissa and exponent of a positive normal binary64 pattern.
proof fn lemma_normal_double_fields(bits: u64)
    requires
        bits < 0x8000_0000_0000_0000,
        1 <= double_exponent_field(bits) <= 0x7FE,
    ensures
        ({
            let x = double_unpacked(bits);
            let s = x.significand as int;
            let m = scaled_mantissa(x, 39);
            &&& !x.negative
            &&& bits == double_exponent_field(bits) * 0x10_0000_0000_0000 + (s
                - 0x10_0000_0000_0000)
            &&& 0x10_0000_0000_0000 <= s < 0x20_0000_0000_0000
            &&& s == 0x10_0000_0000_0000 ==> m == 0x80_0000_0000 && ceil_exponent(x)
                == double_exponent_field(bits) - 1023
            &&& s != 0x10_0000_0000_0000 ==> m == (s + 0x2000) / 0x4000 && ceil_exponent(x)
                == double_exponent_field(bits) - 1022
        }),
{
    lemma2_to64();
    lemma2_to64_rest();
    let x = double_unpacked(bits);
    let s = x.significand as nat;
    if s == 0x10_0000_0000_0000 {
        lemma_ceil_log2_unique(s, 52);
        assert(round_shift(s, -13) == (s + pow2(12)) as nat / pow2(13));
    } else {
        lemma_ceil_log2_unique(s, 53);
        assert(round_shift(s, -14) == (s + pow2(13)) as nat / pow2(14));
    }
}

/// A 48-bit word gives back a non-negative mantissa below `2^39` and an
/// exponent that fits its field.
proof fn lemma_word48_fields(m: int, e: int)
    requires
        0 <= m < 0x80_0000_0000,
        -128 <= e <= 127,
    ensures
        0 <= word48(m, e, false) < 0x8000_0000_0000,
        mantissa48(word48(m, e, false) as u64) == m,
        exponent48(word48(m, e, false) as u64) == e,
{
    let hi = m / 0x1_0000;
    let lo = m % 0x1_0000;
    let ef = e % 0x100;
    assert(m % 0x100_0000_0000 == m);
    let w = hi * 0x100_0000 + ef * 0x1_0000 + lo;
    assert(w == word48(m, e, false));
    assert(0 <= hi < 0x80_0000);
    assert(w % 0x1_0000 == lo);
    assert(w / 0x1_0000 == hi * 0x100 + ef);
    assert(w / 0x100_0000 == hi);
}

/// The binary64 pattern of `a * 2^k` for a 39-bit `a`.
proof fn lemma_double_bits_39(a: nat, k: int)
    requires
        0x40_0000_0000 <= a < 0x80_0000_0000,
        -1060 <= k <= 984,
    ensures
        double_bits(false, a, k) == (k + 1060) * 0x10_0000_0000_0000 + a * 0x4000,
{
    lemma2_to64();
    lemma2_to64_rest();
    lemma_ceil_log2_unique(a + 1, 39);
    assert(a * pow2(14) == a * 0x4000);
    let f = biased_exponent(a, k, 53, -1074);
    assert(f == k + 1061);
    assert((f - 1) * pow2(52) == (f - 1) * 0x10_0000_0000_0000);
}

/// Round trip at 48 bits, for positive values. A positive normal binary64
/// value whose exponent the word can hold comes back rounded to 39 magnitude
/// bits, a half rounded up: the pattern with its fourteen lowest fraction
/// bits rounded away.
pub proof fn lemma_round_trip_48(bits: u64)
    requires
        bits < 0x8000_0000_0000_0000,
        894 <= double_exponent_field(bits) <= 1148,
    ensures
        0 <= encode48(bits) < 0x8000_0000_0000,
        decode48(encode48(bits) as u64) == ((bits + 0x2000) / 0x4000) * 0x4000,
{
    lemma_normal_double_fields(bits);
    let x = double_unpacked(bits);
    let field = double_exponent_field(bits);
    let s = x.significand as int;
    let m = scaled_mantissa(x, 39);
    let e = ceil_exponent(x);
    let m2 = if m == 0x80_0000_0000 { m / 2 } else { m };
    let e2 = if m == 0x80_0000_0000 { e + 1 } else { e };
    assert(0x40_0000_0000 <= m2 < 0x80_0000_0000);
    lemma_word48_fields(m2, e2);
    assert(encode48(bits) == word48(m2, e2, false));
    lemma_double_bits_39(m2 as nat, e2 - 39);
    let y = decode48(encode48(bits) as u64);
    assert(y == (e2 + 1021) * 0x10_0000_0000_0000 + m2 * 0x4000);
    let frac = s - 0x10_0000_0000_0000;
    assert(bits == field * 0x10_0000_0000_0000 + frac);
    assert((bits + 0x2000) / 0x4000 == field * 0x40_0000_0000 + (frac + 0x2000) / 0x4000);
    if s != 0x10_0000_0000_0000 {
        assert((s + 0x2000) / 0x4000 == 0x40_0000_0000 + (frac + 0x2000) / 0x4000);
    }
}

/// The 16-bit encoder never renormalises: the magnitude of a mantissa scaled
/// to nine fractional bits is at most `2^9`, below the threshold `2^15`.
pub proof fn lemma_threshold_16_unreachable(bits: u16)
    requires
        half_unpacked(bits).significand != 0,
    ensures
        -0x200 <= scaled_mantissa(half_unpacked(bits), 9) <= 0x200,
        encode16(bits) == word16(
            scaled_mantissa(half_unpacked(bits), 9),
            ceil_exponent(half_unpacked(bits)),
        ),
{
    lemma2_to64();
    lemma_round_shift_range(half_unpacked(bits).significand as nat, 9);
}

/// A 16-bit word with a nonzero mantissa field decodes exactly wherever the
/// value is normal in binary16: the pattern stands for `mantissa *
/// 2^(exponent - 9)`, never negative.
pub proof fn lemma_decode16_exact(w: u16)
    requires
        mantissa16(w) != 0,
        1 <= biased_exponent(mantissa16(w) as nat, exponent16(w) - 9, 11, -24) <= 30,
    ensures
        ({
            let y = half_unpacked(decode16(w) as u16);
            let up = 11 - ceil_log2((mantissa16(w) + 1) as nat);
            &&& half_finite(decode16(w) as u16)
            &&& !y.negative
            &&& y.significand == mantissa16(w) * pow2(up as nat)
            &&& y.scale == exponent16(w) - 9 - up
        }),
{
    lemma2_to64();
    let a = mantissa16(w) as nat;
    lemma_normalized_significand(a, 11);
    lemma_half_bits_exact(a, exponent16(w) - 9);
}

/// A 32-bit word with a nonzero mantissa decodes exactly wherever the value
/// is normal in binary32: the pattern stands for `mantissa * 2^(exponent -
/// 23)`, with the mantissa's sign.
pub proof fn lemma_decode32_exact(w: u32)
    requires
        mantissa32(w) != 0,
        ({
            let m = mantissa32(w);
            let a = if m < 0 { -m } else { m };
            biased_exponent(a as nat, exponent32(w) - 23, 24, -149) >= 1
        }),
    ensures
        ({
            let m = mantissa32(w);
            let a = if m < 0 { -m } else { m };
            let y = single_unpacked(decode32(w) as u32);
            let up = 24 - ceil_log2((a + 1) as nat);
            &&& y.negative == (m < 0)
            &&& y.significand == a * pow2(up as nat)
            &&& y.scale == exponent32(w) - 23 - up
        }),
{
    lemma2_to64();
    let m = mantissa32(w);
    let a = (if m < 0 { -m } else { m }) as nat;
    lemma_normalized_significand(a, 24);
    lemma_single_bits_exact(m < 0, a, exponent32(w) - 23);
}

/// A 32-bit word whose value lies below the normal range of binary32 decodes
/// to the nearest multiple of `2^-149`, a half to the even neighbour.
pub proof fn lemma_decode32_rounded(w: u32)
    requires
        mantissa32(w) != 0,
        ({
            let m = mantissa32(w);
            let a = if m < 0 { -m } else { m };
            biased_exponent(a as nat, exponent32(w) - 23, 24, -149) <= 0
        }),
    ensures
        ({
            let m = mantissa32(w);
            let a = if m < 0 { -m } else { m };
            let y = single_unpacked(decode32(w) as u32);
            &&& y.negative == (m < 0)
            &&& y.significand == round_even_shift(a as nat, exponent32(w) + 126)
            &&& y.scale == -149
        }),
{
    let m = mantissa32(w);
    let a = (if m < 0 { -m } else { m }) as nat;
    lemma_single_bits_subnormal(m < 0, a, exponent32(w) - 23);
}

/// A 48-bit word with nonzero mantissa fields decodes exactly: the pattern
/// stands for `mantissa * 2^(exponent - 39)`, never negative.
pub proof fn lemma_decode48_exact(w: u64)
    requires
        mantissa48(w) != 0,
    ensures
        ({
            let y = double_unpacked(decode48(w) as u64);
            let up = 53 - ceil_log2((mantissa48(w) + 1) as nat);
            &&& !y.negative
            &&& y.significand == mantissa48(w) * pow2(up as nat)
            &&& y.scale == exponent48(w) - 39 - up
        }),
{
    lemma2_to64();
    lemma2_to64_rest();
    let a = mantissa48(w) as nat;
    lemma_ceil_log2_le(a + 1, 40);
    lemma_normalized_significand(a, 53);
    lemma_double_bits_exact(false, a, exponent48(w) - 39);
}

} // verus!
