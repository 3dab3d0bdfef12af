use half::f16;
use mil1750a::{
    f16_to_1750a, f32_to_1750a, f48_to_1750a, m1750a_to_16flt, m1750a_to_32flt, m1750a_to_48flt,
};

fn sign_extend(field: u32, width: u32) -> i32 {
    let field = field as i32;
    if field >= 1 << (width - 1) {
        field - (1 << width)
    } else {
        field
    }
}

#[test]
fn every_16_bit_word_decodes_as_floating_point_would() {
    for w in 0..=u16::MAX {
        let mantissa = (w >> 6) as f32;
        let exponent = sign_extend((w & 0x3F) as u32, 6);
        let expected = f16::from_f32(mantissa * 2f32.powi(exponent - 9));
        assert_eq!(m1750a_to_16flt(w), expected.to_bits(), "word {:#06x}", w);
    }
}

#[test]
fn every_finite_half_encodes_as_floating_point_would() {
    for bits in 0..=u16::MAX {
        let x = f16::from_bits(bits);
        if !x.is_finite() || x == f16::from_f32(0.0) {
            continue;
        }
        let x = f32::from(x);
        let exponent = x.abs().log2().ceil() as i32;
        let mantissa = (x * 2f32.powi(9 - exponent)).round() as i32;
        let expected = (((mantissa as u16) & 0x3FF) << 6) | ((exponent as u16) & 0x3F);
        assert_eq!(f16_to_1750a(bits), expected, "pattern {:#06x}", bits);
    }
}

#[test]
fn sampled_singles_encode_as_floating_point_would() {
    let mut bits: u32 = 1;
    let mut seen = 0;
    while bits < 0xFFFF_0000 {
        let x = f32::from_bits(bits);
        if x.is_finite() && x != 0.0 {
            let wide = x as f64;
            let mut exponent = wide.abs().log2().ceil() as i32;
            let mut mantissa = (wide * 2f64.powi(23 - exponent)).round() as i64;
            if mantissa == 8388608 {
                mantissa /= 2;
                exponent += 1;
            }
            let mut expected = ((mantissa as u32) << 8) | ((exponent as u32) & 0xFF);
            if x.is_sign_negative() {
                expected |= 0x8000_0000;
            }
            assert_eq!(f32_to_1750a(bits), expected, "pattern {:#010x}", bits);
            seen += 1;
        }
        bits += 15_013;
    }
    assert!(seen > 200_000);
}

#[test]
fn sampled_32_bit_words_decode_as_floating_point_would() {
    let mut w: u32 = 0;
    while w < 0xFFFF_0000 {
        let raw = sign_extend(w >> 8, 24);
        let exponent = sign_extend(w & 0xFF, 8);
        let expected = (raw as f64 * 2f64.powi(exponent - 23)) as f32;
        assert_eq!(m1750a_to_32flt(w), expected.to_bits(), "word {:#010x}", w);
        w += 10_007;
    }
}

#[test]
fn sampled_doubles_encode_as_floating_point_would() {
    let mut bits: u64 = 0x3000_0000_0000_0123;
    let mut seen = 0;
    while bits < 0x4FFF_0000_0000_0000 {
        for sign in [0u64, 0x8000_0000_0000_0000] {
            let x = f64::from_bits(bits | sign);
            // next to a power of two the logarithm is not exact enough
            if bits & 0x000F_FFFF_FFFF_FFFF < 0x0000_1000_0000_0000 {
                continue;
            }
            let mut exponent = x.abs().log2().ceil() as i32;
            let mut mantissa = (x * 2f64.powi(39 - exponent)).round() as i64;
            if mantissa == 549755813888 {
                mantissa /= 2;
                exponent += 1;
            }
            let high = ((mantissa >> 16) & 0xFF_FFFF) as u64;
            let low = (mantissa & 0xFFFF) as u64;
            let mut expected = (high << 24) | (((exponent as u8) as u64) << 16) | low;
            if x.is_sign_negative() {
                expected |= 0x8000_0000_0000;
            }
            assert_eq!(f48_to_1750a(bits | sign), expected, "pattern {:#018x}", bits | sign);
            seen += 1;
        }
        bits += 0x0000_0371_9F3B_5C11;
    }
    assert!(seen > 100_000);
}

#[test]
fn sampled_48_bit_words_decode_as_floating_point_would() {
    let mut w: u64 = 0;
    while w < 0x1_0000_0000_0000 {
        let high = ((w >> 24) & 0xFF_FFFF) as f64;
        let low = (w & 0xFFFF) as f64;
        let exponent = sign_extend(((w >> 16) & 0xFF) as u32, 8);
        let expected = high * 2f64.powi(exponent - 23) + low * 2f64.powi(exponent - 39);
        assert_eq!(m1750a_to_48flt(w), expected.to_bits(), "word {:#014x}", w);
        w += 0x3_9F3B_5C11;
    }
}

#[test]
fn round_trip_rounds_the_last_fraction_bit_32() {
    let mut bits: u32 = 0x0080_0000;
    while bits < 0x7E80_0000 {
        for sign in [0u32, 0x8000_0000] {
            let b = bits | sign;
            assert_eq!(m1750a_to_32flt(f32_to_1750a(b)), b + b % 2, "pattern {:#010x}", b);
        }
        bits += 7_919;
    }
}

#[test]
fn round_trip_rounds_two_fraction_bits_16() {
    for bits in 0x0400u16..0x7C00 {
        assert_eq!(m1750a_to_16flt(f16_to_1750a(bits)), (bits + 2) / 4 * 4, "pattern {:#06x}", bits);
    }
}

#[test]
fn round_trip_rounds_fourteen_fraction_bits_48() {
    let mut bits: u64 = 894 << 52;
    while bits < 1149 << 52 {
        assert_eq!(
            m1750a_to_48flt(f48_to_1750a(bits)),
            (bits + 0x2000) / 0x4000 * 0x4000,
            "pattern {:#018x}",
            bits
        );
        bits += 0x0000_0071_9F3B_5C11;
    }
}
