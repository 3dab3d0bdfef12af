//! IEEE-754 binary interchange formats, read as bit patterns.
//!
//! A finite pattern stands for `(-1)^s * significand * 2^scale`, where the
//! significand is a natural number and the scale is the weight of its last
//! place. Subnormal patterns share the scale of the smallest normal binade
//! and carry no implicit leading one.

use crate::arith::{
    ceil_log2, ceil_log2_u64, lemma_ceil_log2_bounds, lemma_ceil_log2_le, pow2_u64,
    round_even_shift, round_even_shift_u64,
};
use vstd::arithmetic::power2::{
    lemma2_to64, lemma2_to64_rest, lemma_pow2_adds, lemma_pow2_pos,
    lemma_pow2_strictly_increases, lemma_pow2_unfold, pow2,
};
use vstd::prelude::*;

verus! {

/// A finite binary floating-point value, `± significand * 2^scale`.
#[derive(Clone, Copy, Debug, PartialEq, Eq, Structural)]
pub struct Unpacked {
    pub negative: bool,
    pub significand: u64,
    pub scale: i32,
}

/// Biased exponent field of a binary16 pattern.
pub open spec fn half_exponent_field(bits: u16) -> int {
    (bits as int / 0x400) % 0x20
}

/// A binary16 pattern is finite unless its exponent field is all ones.
pub open spec fn half_finite(bits: u16) -> bool {
    half_exponent_field(bits) != 0x1F
}

/// Sign, significand and scale of a binary16 pattern.
pub open spec fn half_unpacked(bits: u16) -> Unpacked {
    let field = half_exponent_field(bits);
    let fraction = bits as int % 0x400;
    Unpacked {
        negative: bits >= 0x8000,
        significand: if field == 0 { fraction as u64 } else { (fraction + 0x400) as u64 },
        scale: if field == 0 { -24i32 } else { (field - 25) as i32 },
    }
}

/// Biased exponent field of a binary32 pattern.
pub open spec fn single_exponent_field(bits: u32) -> int {
    (bits as int / 0x80_0000) % 0x100
}

/// A binary32 pattern is finite unless its exponent field is all ones.
pub open spec fn single_finite(bits: u32) -> bool {
    single_exponent_field(bits) != 0xFF
}

/// Sign, significand and scale of a binary32 pattern.
pub open spec fn single_unpacked(bits: u32) -> Unpacked {
    let field = single_exponent_field(bits);
    let fraction = bits as int % 0x80_0000;
    Unpacked {
        negative: bits >= 0x8000_0000,
        significand: if field == 0 { fraction as u64 } else { (fraction + 0x80_0000) as u64 },
        scale: if field == 0 { -149i32 } else { (field - 150) as i32 },
    }
}

/// Biased exponent field of a binary64 pattern.
pub open spec fn double_exponent_field(bits: u64) -> int {
    (bits as int / 0x10_0000_0000_0000) % 0x800
}

/// A binary64 pattern is finite unless its exponent field is all ones.
pub open spec fn double_finite(bits: u64) -> bool {
    double_exponent_field(bits) != 0x7FF
}

/// Sign, significand and scale of a binary64 pattern.
pub open spec fn double_unpacked(bits: u64) -> Unpacked {
    let field = double_exponent_field(bits);
    let fraction = bits as int % 0x10_0000_0000_0000;
    Unpacked {
        negative: bits >= 0x8000_0000_0000_0000,
        significand: if field == 0 {
            fraction as u64
        } else {
            (fraction + 0x10_0000_0000_0000) as u64
        },
        scale: if field == 0 { -1074i32 } else { (field - 1075) as i32 },
    }
}

/// Splits a binary16 pattern into sign, significand and scale.
pub fn unpack_half(bits: u16) -> (r: Unpacked)
    ensures
        r == half_unpacked(bits),
        r.significand < 0x800,
        -24 <= r.scale <= 6,
{
    let field: u16 = (bits / 0x400) % 0x20;
    let fraction: u16 = bits % 0x400;
    if field == 0 {
        Unpacked { negative: bits >= 0x8000, significand: fraction as u64, scale: -24 }
    } else {
        Unpacked {
            negative: bits >= 0x8000,
            significand: fraction as u64 + 0x400,
            scale: field as i32 - 25,
        }
    }
}

/// Splits a binary32 pattern into sign, significand and scale.
pub fn unpack_single(bits: u32) -> (r: Unpacked)
    ensures
        r == single_unpacked(bits),
        r.significand < 0x100_0000,
        -149 <= r.scale <= 105,
{
    let field: u32 = (bits / 0x80_0000) % 0x100;
    let fraction: u32 = bits % 0x80_0000;
    if field == 0 {
        Unpacked { negative: bits >= 0x8000_0000, significand: fraction as u64, scale: -149 }
    } else {
        Unpacked {
            negative: bits >= 0x8000_0000,
            significand: fraction as u64 + 0x80_0000,
            scale: field as i32 - 150,
        }
    }
}

/// Splits a binary64 pattern into sign, significand and scale.
pub fn unpack_double(bits: u64) -> (r: Unpacked)
    ensures
        r == double_unpacked(bits),
        r.significand < 0x20_0000_0000_0000,
        -1074 <= r.scale <= 972,
{
    let field: u64 = (bits / 0x10_0000_0000_0000) % 0x800;
    let fraction: u64 = bits % 0x10_0000_0000_0000;
    if field == 0 {
        Unpacked {
            negative: bits >= 0x8000_0000_0000_0000,
            significand: fraction,
            scale: -1074,
        }
    } else {
        Unpacked {
            negative: bits >= 0x8000_0000_0000_0000,
            significand: fraction + 0x10_0000_0000_0000,
            scale: field as i32 - 1075,
        }
    }
}


/// The biased exponent that `a * 2^k` has in the binary format with `p`
/// significand bits whose subnormal numbers have scale `s0`, if it is normal
/// there; zero or less if it is not.
pub open spec fn biased_exponent(a: nat, k: int, p: nat, s0: int) -> int {
    k + ceil_log2(a + 1) - p + 1 - s0
}

/// The bit pattern, sign bit aside, that holds `a * 2^k` in the binary format
/// with `p` significand bits whose subnormal numbers have scale `s0`.
///
/// With `b` the number of significant bits of `a`, the biased exponent is
/// `k + b - p + 1 - s0`. Where that is positive the value is normal and `a`,
/// shifted up to `p` bits, supplies the fraction and the implicit one. Where
/// it is not, the value is subnormal and is rounded to a multiple of `2^s0`,
/// a half to the even neighbour.
pub open spec fn magnitude_bits(a: nat, k: int, p: nat, s0: int) -> int {
    let b = ceil_log2(a + 1);
    let field = biased_exponent(a, k, p, s0);
    if a == 0 {
        0
    } else if field >= 1 {
        (field - 1) * pow2((p - 1) as nat) + a * pow2((p - b) as nat)
    } else {
        round_even_shift(a, k - s0) as int
    }
}

/// Computes `magnitude_bits`.
pub fn compose_magnitude(a: u64, k: i32, p: u32, s0: i32) -> (r: u64)
    requires
        1 <= p <= 53,
        a < pow2(p as nat),
        -0x1000 <= k <= 0x1000,
        -0x1000 <= s0 <= 0x1000,
        k - s0 >= -62,
        biased_exponent(a as nat, k as int, p as nat, s0 as int) <= 0x7FE,
    ensures
        r == magnitude_bits(a as nat, k as int, p as nat, s0 as int),
        r <= pow2((p - 1) as nat) || r < (biased_exponent(a as nat, k as int, p as nat, s0 as int)
            + 1) * pow2((p - 1) as nat),
{
    proof {
        lemma2_to64();
        lemma2_to64_rest();
        if p < 53 {
            lemma_pow2_strictly_increases(p as nat, 53);
        }
        if p > 1 {
            lemma_pow2_strictly_increases(0, (p - 1) as nat);
        }
        if p < 53 {
            lemma_pow2_strictly_increases((p - 1) as nat, 52);
        }
    }
    if a == 0 {
        return 0;
    }
    let b = ceil_log2_u64(a + 1);
    let ghost half = pow2((p - 1) as nat);
    proof {
        lemma_pow2_unfold(p as nat);
        lemma_pow2_unfold(b as nat);
        // a + 1 <= 2^b and 2^(b-1) < a + 1 <= 2^p, so b <= p
        if b > p {
            if b - 1 > p {
                lemma_pow2_strictly_increases(p as nat, (b - 1) as nat);
            }
        }
        assert(b <= p);
    }
    let field: i32 = k + b as i32 - p as i32 + 1 - s0;
    if field >= 1 {
        let up = pow2_u64(p - b);
        proof {
            lemma_pow2_adds(b as nat, (p - b) as nat);
            let top = pow2(p as nat);
            assert(a * up < top) by (nonlinear_arith)
                requires
                    a + 1 <= pow2(b as nat),
                    pow2(b as nat) * up == top,
                    up > 0,
            ;
            assert((field - 1) * half <= 0x7FD * half) by (nonlinear_arith)
                requires
                    1 <= field <= 0x7FE,
                    half > 0,
            ;
            assert(half <= 0x10_0000_0000_0000);
            assert(top == 2 * half);
            assert((field - 1) * half + a * up < (field + 1) * half) by (nonlinear_arith)
                requires
                    a * up < 2 * half,
            ;
        }
        let base = pow2_u64(p - 1);
        (field as u64 - 1) * base + a * up
    } else {
        let s: i32 = k - s0;
        proof {
            // field <= 0 gives b + s <= p - 1
            if s >= 0 {
                lemma_pow2_adds(b as nat, s as nat);
                if b + s < p - 1 {
                    lemma_pow2_strictly_increases((b + s) as nat, (p - 1) as nat);
                }
                let ps = pow2(s as nat);
                lemma_pow2_pos(s as nat);
                assert(a * ps < pow2(b as nat) * ps) by (nonlinear_arith)
                    requires
                        a < pow2(b as nat),
                        ps > 0,
                ;
            }
            assert(a / 2 + 1 <= half);
        }
        round_even_shift_u64(a, s)
    }
}

/// The binary16 pattern of `a * 2^k` for an `a` of at most eleven bits:
/// positive infinity where the value is `2^16` or more, rounded where it is
/// subnormal, exact between.
pub open spec fn half_bits(a: nat, k: int) -> int {
    if a != 0 && biased_exponent(a, k, 11, -24) >= 0x1F {
        0x7C00
    } else {
        magnitude_bits(a, k, 11, -24)
    }
}

/// The binary32 pattern of `± a * 2^k`, rounded where it is subnormal.
pub open spec fn single_bits(negative: bool, a: nat, k: int) -> int {
    let magnitude = magnitude_bits(a, k, 24, -149);
    if negative {
        magnitude + 0x8000_0000
    } else {
        magnitude
    }
}

/// The binary64 pattern of `± a * 2^k`, rounded where it is subnormal.
pub open spec fn double_bits(negative: bool, a: nat, k: int) -> int {
    let magnitude = magnitude_bits(a, k, 53, -1074);
    if negative {
        magnitude + 0x8000_0000_0000_0000
    } else {
        magnitude
    }
}

/// Builds the binary16 pattern of `a * 2^k`.
pub fn compose_half(a: u16, k: i32) -> (r: u16)
    requires
        a < 0x800,
        -86 <= k <= 0x1000,
    ensures
        r == half_bits(a as nat, k as int),
{
    proof {
        lemma2_to64();
    }
    if a == 0 {
        return 0;
    }
    let b = ceil_log2_u64(a as u64 + 1);
    proof {
        lemma_ceil_log2_le((a + 1) as nat, 11);
    }
    if k + b as i32 + 14 >= 0x1F {
        return 0x7C00;
    }
    let magnitude = compose_magnitude(a as u64, k, 11, -24);
    proof {
        let f = biased_exponent(a as nat, k as int, 11, -24);
        assert((f + 1) * 0x400 <= 31 * 0x400);
    }
    magnitude as u16
}

/// Builds the binary32 pattern of `± a * 2^k`.
pub fn compose_single(negative: bool, a: u32, k: i32) -> (r: u32)
    requires
        a < 0x100_0000,
        -211 <= k,
        k + ceil_log2((a + 1) as nat) <= 128,
    ensures
        r == single_bits(negative, a as nat, k as int),
        single_finite(r),
{
    proof {
        lemma2_to64();
    }
    let magnitude = compose_magnitude(a as u64, k, 24, -149);
    proof {
        let f = biased_exponent(a as nat, k as int, 24, -149);
        assert((f + 1) * 0x80_0000 <= 255 * 0x80_0000);
    }
    if negative {
        magnitude as u32 + 0x8000_0000
    } else {
        magnitude as u32
    }
}

/// Builds the binary64 pattern of `± a * 2^k`.
pub fn compose_double(negative: bool, a: u64, k: i32) -> (r: u64)
    requires
        a < 0x20_0000_0000_0000,
        -1136 <= k,
        k + ceil_log2((a + 1) as nat) <= 1024,
    ensures
        r == double_bits(negative, a as nat, k as int),
        double_finite(r),
{
    proof {
        lemma2_to64();
        lemma2_to64_rest();
    }
    let magnitude = compose_magnitude(a, k, 53, -1074);
    proof {
        let f = biased_exponent(a as nat, k as int, 53, -1074);
        assert((f + 1) * 0x10_0000_0000_0000 <= 0x7FF * 0x10_0000_0000_0000);
    }
    if negative {
        magnitude + 0x8000_0000_0000_0000
    } else {
        magnitude
    }
}

/// Shifted up to `p` bits, a nonzero `a` below `2^p` lies in `[2^(p-1), 2^p)`.
pub proof fn lemma_normalized_significand(a: nat, p: nat)
    requires
        0 < a < pow2(p),
    ensures
        1 <= ceil_log2(a + 1) <= p,
        pow2((p - 1) as nat) <= a * pow2((p - ceil_log2(a + 1)) as nat) < pow2(p),
{
    let b = ceil_log2(a + 1);
    lemma_ceil_log2_bounds(a + 1);
    lemma_ceil_log2_le(a + 1, p);
    let up = pow2((p - b) as nat);
    lemma_pow2_pos((p - b) as nat);
    lemma_pow2_adds(b, (p - b) as nat);
    lemma_pow2_adds((b - 1) as nat, (p - b) as nat);
    let hi = pow2(b);
    let lo = pow2((b - 1) as nat);
    assert(lo * up <= a * up < hi * up) by (nonlinear_arith)
        requires
            lo <= a < hi,
            up > 0,
    ;
}

/// In the normal range `half_bits` is exact: the pattern is finite and
/// stands for `a * 2^k`, with `a` shifted up to eleven bits as its
/// significand.
pub proof fn lemma_half_bits_exact(a: nat, k: int)
    requires
        0 < a < 0x800,
        1 <= biased_exponent(a, k, 11, -24) <= 30,
    ensures
        0 <= half_bits(a, k) < 0x8000,
        half_finite(half_bits(a, k) as u16),
        half_unpacked(half_bits(a, k) as u16).significand == a * pow2(
            (11 - ceil_log2(a + 1)) as nat,
        ),
        half_unpacked(half_bits(a, k) as u16).scale == k - (11 - ceil_log2(a + 1)),
{
    lemma2_to64();
    lemma_normalized_significand(a, 11);
    let f = biased_exponent(a, k, 11, -24);
    assert((f - 1) * pow2(10) == (f - 1) * 0x400);
}

/// In the normal range `single_bits` is exact: the pattern is finite and
/// stands for `± a * 2^k`, with `a` shifted up to 24 bits as its significand.
pub proof fn lemma_single_bits_exact(negative: bool, a: nat, k: int)
    requires
        0 < a < 0x100_0000,
        1 <= biased_exponent(a, k, 24, -149) <= 254,
    ensures
        0 <= single_bits(negative, a, k) < 0x1_0000_0000,
        single_finite(single_bits(negative, a, k) as u32),
        single_unpacked(single_bits(negative, a, k) as u32).negative == negative,
        single_unpacked(single_bits(negative, a, k) as u32).significand == a * pow2(
            (24 - ceil_log2(a + 1)) as nat,
        ),
        single_unpacked(single_bits(negative, a, k) as u32).scale == k - (24 - ceil_log2(a + 1)),
{
    lemma2_to64();
    lemma_normalized_significand(a, 24);
    let f = biased_exponent(a, k, 24, -149);
    assert((f - 1) * pow2(23) == (f - 1) * 0x80_0000);
}

/// Below the normal range `single_bits` rounds to the subnormal grid: the
/// pattern stands for `± r * 2^-149`, where `r` is `a * 2^(k + 149)` rounded
/// to the nearest integer, a half to the even neighbour.
pub proof fn lemma_single_bits_subnormal(negative: bool, a: nat, k: int)
    requires
        0 < a < 0x100_0000,
        biased_exponent(a, k, 24, -149) <= 0,
    ensures
        0 <= single_bits(negative, a, k) < 0x1_0000_0000,
        single_finite(single_bits(negative, a, k) as u32),
        single_unpacked(single_bits(negative, a, k) as u32).negative == negative,
        single_unpacked(single_bits(negative, a, k) as u32).significand == round_even_shift(
            a,
            k + 149,
        ),
        single_unpacked(single_bits(negative, a, k) as u32).scale == -149,
{
    lemma2_to64();
    let b = ceil_log2(a + 1);
    lemma_ceil_log2_bounds(a + 1);
    lemma_ceil_log2_le(a + 1, 24);
    let s = k + 149;
    let r = round_even_shift(a, s);
    if s >= 0 {
        let ps = pow2(s as nat);
        lemma_pow2_adds(b, s as nat);
        lemma_pow2_pos(s as nat);
        if b + s < 23 {
            lemma_pow2_strictly_increases((b + s) as nat, 23);
        }
        assert(a * ps < pow2(b) * ps) by (nonlinear_arith)
            requires
                a < pow2(b),
                ps > 0,
        ;
    } else {
        let d = pow2((-s) as nat);
        lemma_pow2_unfold((-s) as nat);
        lemma_pow2_pos((-s - 1) as nat);
        vstd::arithmetic::div_mod::lemma_div_is_ordered_by_denominator(a as int, 2, d as int);
    }
    assert(r <= 0x80_0000);
}

/// In the normal range `double_bits` is exact: the pattern is finite and
/// stands for `± a * 2^k`, with `a` shifted up to 53 bits as its significand.
pub proof fn lemma_double_bits_exact(negative: bool, a: nat, k: int)
    requires
        0 < a < 0x20_0000_0000_0000,
        1 <= biased_exponent(a, k, 53, -1074) <= 0x7FE,
    ensures
        0 <= double_bits(negative, a, k) < 0x1_0000_0000_0000_0000,
        double_finite(double_bits(negative, a, k) as u64),
        double_unpacked(double_bits(negative, a, k) as u64).negative == negative,
        double_unpacked(double_bits(negative, a, k) as u64).significand == a * pow2(
            (53 - ceil_log2(a + 1)) as nat,
        ),
        double_unpacked(double_bits(negative, a, k) as u64).scale == k - (53 - ceil_log2(a + 1)),
{
    lemma2_to64();
    lemma2_to64_rest();
    lemma_normalized_significand(a, 53);
    let f = biased_exponent(a, k, 53, -1074);
    assert((f - 1) * pow2(52) == (f - 1) * 0x10_0000_0000_0000);
}

} // verus!
