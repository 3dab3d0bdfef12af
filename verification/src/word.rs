//! Bit-field layouts of the MIL-STD-1750A floating-point words.
//!
//! | width | mantissa (two's complement) | exponent (two's complement) |
//! |-------|-----------------------------|-----------------------------|
//! | 16    | bits 15..6                  | bits 5..0                   |
//! | 32    | bits 31..8                  | bits 7..0                   |
//! | 48    | bits 47..24 and 15..0       | bits 23..16                 |

use vstd::prelude::*;

verus! {

/// The 16-bit word with mantissa `m` and exponent `e`, each reduced to its field.
pub open spec fn word16(m: int, e: int) -> int {
    (m % 0x400) * 0x40 + e % 0x40
}

/// The 32-bit word with mantissa `m` and exponent `e`, each reduced to its
/// field, and with bit 31 set besides when `negative` holds.
pub open spec fn word32(m: int, e: int, negative: bool) -> int {
    let w = (m % 0x100_0000) * 0x100 + e % 0x100;
    if negative && w < 0x8000_0000 {
        w + 0x8000_0000
    } else {
        w
    }
}

/// The 48-bit word with the 40-bit mantissa `m` split around the exponent
/// `e`, and with bit 47 set besides when `negative` holds.
pub open spec fn word48(m: int, e: int, negative: bool) -> int {
    let field = m % 0x100_0000_0000;
    let w = (field / 0x1_0000) * 0x100_0000 + (e % 0x100) * 0x1_0000 + field % 0x1_0000;
    if negative && w < 0x8000_0000_0000 {
        w + 0x8000_0000_0000
    } else {
        w
    }
}

/// The exponent of a 16-bit word: bits 5..0, sign-extended.
pub open spec fn exponent16(w: u16) -> int {
    let f = w as int % 0x40;
    if f >= 0x20 { f - 0x40 } else { f }
}

/// The mantissa field of a 16-bit word: bits 15..6, read as unsigned.
pub open spec fn mantissa16(w: u16) -> int {
    w as int / 0x40
}

/// The exponent of a 32-bit word: bits 7..0, sign-extended.
pub open spec fn exponent32(w: u32) -> int {
    let f = w as int % 0x100;
    if f >= 0x80 { f - 0x100 } else { f }
}

/// The mantissa of a 32-bit word: bits 31..8, sign-extended.
pub open spec fn mantissa32(w: u32) -> int {
    let f = w as int / 0x100;
    if f >= 0x80_0000 { f - 0x100_0000 } else { f }
}

/// The exponent of a 48-bit word: bits 23..16, sign-extended.
pub open spec fn exponent48(w: u64) -> int {
    let f = (w as int / 0x1_0000) % 0x100;
    if f >= 0x80 { f - 0x100 } else { f }
}

/// The mantissa fields of a 48-bit word, bits 47..24 above bits 15..0, read
/// as one unsigned 40-bit number. Bits above 47 are ignored.
pub open spec fn mantissa48(w: u64) -> int {
    ((w as int / 0x100_0000) % 0x100_0000) * 0x1_0000 + w as int % 0x1_0000
}

/// Packs a 16-bit word.
pub fn pack16(m: i32, e: i32) -> (w: u16)
    ensures
        w == word16(m as int, e as int),
{
    let mf: i64 = (m as i64 + 0x8000_0000) % 0x400;
    let ef: i64 = (e as i64 + 0x8000_0000) % 0x40;
    (mf * 0x40 + ef) as u16
}

/// Packs a 32-bit word.
pub fn pack32(m: i32, e: i32, negative: bool) -> (w: u32)
    ensures
        w == word32(m as int, e as int, negative),
{
    let mf: i64 = (m as i64 + 0x8000_0000) % 0x100_0000;
    let ef: i64 = (e as i64 + 0x8000_0000) % 0x100;
    let w: u32 = (mf * 0x100 + ef) as u32;
    if negative && w < 0x8000_0000 {
        w + 0x8000_0000
    } else {
        w
    }
}

/// Packs a 48-bit word.
pub fn pack48(m: i64, e: i32, negative: bool) -> (w: u64)
    ensures
        w == word48(m as int, e as int, negative),
        w < 0x1_0000_0000_0000,
{
    let lifted: i64 = if m < 0 {
        (m + 0x4000_0000_0000_0000) + 0x4000_0000_0000_0000
    } else {
        m
    };
    let field: i64 = lifted % 0x100_0000_0000;
    proof {
        vstd::arithmetic::div_mod::lemma_mod_multiples_vanish(
            0x80_0000,
            m as int,
            0x100_0000_0000,
        );
        assert(field == m as int % 0x100_0000_0000);
    }
    let ef: i64 = (e as i64 + 0x8000_0000) % 0x100;
    let w: u64 = ((field / 0x1_0000) * 0x100_0000 + ef * 0x1_0000 + field % 0x1_0000) as u64;
    if negative && w < 0x8000_0000_0000 {
        w + 0x8000_0000_0000
    } else {
        w
    }
}

} // verus!
