use half::f16;
use mil1750a::{
    f16_to_1750a, f32_to_1750a, f48_to_1750a, m1750a_to_16flt, m1750a_to_32flt, m1750a_to_48flt,
};

fn encode16(x: f32) -> u16 {
    f16_to_1750a(f16::from_f32(x).to_bits())
}

fn encode32(x: f32) -> u32 {
    f32_to_1750a(x.to_bits())
}

fn encode48(x: f64) -> u64 {
    f48_to_1750a(x.to_bits())
}

fn decode16(w: u16) -> f16 {
    f16::from_bits(m1750a_to_16flt(w))
}

fn decode32(w: u32) -> f32 {
    f32::from_bits(m1750a_to_32flt(w))
}

fn decode48(w: u64) -> f64 {
    f64::from_bits(m1750a_to_48flt(w))
}

#[test]
fn test_f16_to_1750a() {
    assert_eq!(encode16(-1.0), 0x8000);
    assert_eq!(encode16(1.0), 0x8000);
    assert_eq!(encode16(12.4), 0x6344);
    assert_eq!(encode16(-12.4), 0x9CC4);
    assert_eq!(encode16(25.63), 0x6685);
    assert_eq!(encode16(-25.63), 0x9985);
}

#[test]
fn test_f32_to_1750a() {
    assert_eq!(encode32(1.0), 0x40000001);
    assert_eq!(encode32(-1.0), 0x80000000);
    assert_eq!(encode32(5.234), 0x53BE7703);
    assert_eq!(encode32(-25.63f32), 0x997AE105);
    assert_eq!(encode32(25.63f32), 0x66851F05);
}

#[test]
fn test_f48_to_1750a() {
    assert_eq!(encode48(105.639485637361), 0x69A3B50754AB);
    assert_eq!(encode48(std::f64::consts::PI), 0x6487ED025111);
    assert_eq!(encode48(-std::f64::consts::PI), 0x9B781202AEEF);
    assert_eq!(encode48(-1.0), 0x800000_00_0000);
    assert_eq!(encode48(0.0), 0x000000_00_0000);
}

#[test]
fn test_m1750a_to_48flt() {
    assert_eq!(decode48(0x69A3B50754AB), 105.63948563742451);
    assert_eq!(decode48(0x64A3F4275AAB), 432247429803.0);
}

#[test]
fn test_m1750a_to_32flt() {
    assert_eq!(decode32(0x40000001), 1.0);
    assert_eq!(decode32(0x997AE105), -25.6300010681152);
    assert_eq!(decode32(0x9F34EA0C), -3097.3857421875);
}

#[test]
fn test_m1750a_to_16flt() {
    assert_eq!(decode16(0x6344), f16::from_f32(12.40625));
    assert_eq!(decode16(0x324F), f16::from_f32(12864.0));
}

#[test]
fn zero_encodes_to_the_zero_word() {
    assert_eq!(encode16(0.0), 0);
    assert_eq!(encode16(-0.0), 0);
    assert_eq!(encode32(0.0), 0);
    assert_eq!(encode32(-0.0), 0);
    assert_eq!(encode48(0.0), 0);
    assert_eq!(encode48(-0.0), 0);
}

#[test]
fn zero_word_decodes_to_zero() {
    assert_eq!(m1750a_to_16flt(0), 0);
    assert_eq!(m1750a_to_32flt(0), 0);
    assert_eq!(m1750a_to_48flt(0), 0);
    assert_eq!(m1750a_to_32flt(0x0000_0005), 0);
}

#[test]
fn rounding_up_to_the_threshold_renormalises_32() {
    // 2 - 2^-23: the 24-bit significand is all ones and rounds up to 2^23.
    assert_eq!(f32_to_1750a(0x3FFF_FFFF), 0x4000_0002);
    assert_eq!(encode32(2.0), 0x4000_0002);
    assert_eq!(encode32(0.5), 0x4000_0000);
}

#[test]
fn rounding_up_to_the_threshold_renormalises_48() {
    // 1 - 2^-53 rounds up to 2^39 at 39 fractional bits.
    assert_eq!(f48_to_1750a(0x3FEF_FFFF_FFFF_FFFF), 0x4000_0001_0000);
    assert_eq!(encode48(1.0), 0x4000_0001_0000);
}

#[test]
fn negative_power_of_two_is_not_renormalised() {
    assert_eq!(encode32(-2.0), 0x8000_0001);
    assert_eq!(encode48(-2.0), 0x8000_0001_0000);
    assert_eq!(decode32(0x8000_0001), -2.0);
}

#[test]
fn sixteen_bit_threshold_is_never_reached() {
    // A mantissa of 2^9 is packed as it stands.
    assert_eq!(encode16(2.0), 0x8001);
    assert_eq!(encode16(0.5), 0x803F);
    assert_eq!(encode16(65504.0), 0x8010);
}

#[test]
fn halves_round_away_from_zero() {
    // 1 + 2^-23 and its negative: the scaled mantissa is 2^22 + 1/2.
    assert_eq!(f32_to_1750a(0x3F80_0001), 0x4000_0101);
    assert_eq!(f32_to_1750a(0xBF80_0001), 0xBFFF_FF01);
}

#[test]
fn negative_exponents_are_twos_complement() {
    assert_eq!(encode32(0.15625), 0x5000_00FE);
    assert_eq!(decode32(0x5000_00FE), 0.15625);
    assert_eq!(encode16(0.15625), 0x503E);
    assert_eq!(decode16(0x503E), f16::from_f32(0.15625));
    assert_eq!(encode48(0.15625), 0x5000_00FE_0000);
    assert_eq!(decode48(0x5000_00FE_0000), 0.15625);
}

#[test]
fn exponent_field_truncates() {
    // 2^-140 is subnormal in binary32; its exponent -139 after
    // renormalisation is kept modulo 2^8. The exponent 665 of 1e200 is
    // kept as 0x99.
    assert_eq!(f32_to_1750a(0x0000_0200), 0x4000_0075);
    assert_eq!(encode48(1.0e200), 0x539C_6399_5F5E);
}

#[test]
fn sign_symmetry_32() {
    let xs: [f32; 4] = [25.63, 5.234, 0.3, 1234.5];
    for x in xs {
        let p = encode32(x);
        let n = encode32(-x);
        assert_eq!(p & 0xFF, n & 0xFF);
        assert_eq!((p >> 8) + (n >> 8), 0x100_0000);
        assert_eq!(p >> 31, 0);
        assert_eq!(n >> 31, 1);
    }
}

#[test]
fn round_trip_32() {
    let xs: [f32; 6] = [5.234, -25.63, 0.3, 1234.5, -0.001, 1.0e20];
    for x in xs {
        let y = decode32(encode32(x));
        let e = x.abs().log2().ceil() as i32;
        assert!((y - x).abs() <= 2f32.powi(e - 24), "{} -> {}", x, y);
    }
    assert_eq!(decode32(encode32(25.0)), 25.0);
    assert_eq!(decode32(encode32(-3097.3857421875)), -3097.3857421875);
}

#[test]
fn round_trip_48() {
    let xs: [f64; 4] = [105.639485637361, std::f64::consts::PI, 1.0e-9, 4.0e30];
    for x in xs {
        let y = decode48(encode48(x));
        let e = x.log2().ceil() as i32;
        assert!((y - x).abs() <= 2f64.powi(e - 40), "{} -> {}", x, y);
    }
    assert_eq!(decode48(encode48(432247429803.0)), 432247429803.0);
}

#[test]
fn round_trip_16() {
    // Values below one half of the field's range keep the mantissa's top bit
    // clear once decoded as unsigned; 1.0 itself does not.
    assert_eq!(decode16(encode16(12.4)), f16::from_f32(12.40625));
    assert_eq!(decode16(encode16(1.0)), f16::from_f32(1.0));
    assert_eq!(decode16(encode16(0.75)), f16::from_f32(0.75));
}

#[test]
fn sixteen_and_forty_eight_bit_decoders_ignore_the_sign() {
    assert_eq!(decode16(0x9CC4), f16::from_f32(19.59375));
    assert!(decode48(0x9B78_1202_AEEF) > 0.0);
    assert_eq!(decode48(0x8000_0000_0000), 1.0);
}

#[test]
fn tiny_32_bit_words_round_to_even_subnormals() {
    // exponent -128: the value is mantissa * 2^-151, a quarter of the
    // smallest subnormal per unit.
    assert_eq!(m1750a_to_32flt(0x0000_0180), 0);
    assert_eq!(m1750a_to_32flt(0x0000_0280), 0);
    assert_eq!(m1750a_to_32flt(0x0000_0380), 1);
    assert_eq!(m1750a_to_32flt(0x0000_0680), 2);
    assert_eq!(m1750a_to_32flt(0x0000_0A80), 2);
    // exponent -126: mantissa * 2^-149 exactly
    assert_eq!(m1750a_to_32flt(0x0000_0582), 5);
    // the largest word value is finite
    assert_eq!(decode32(0x7FFF_FF7F), 8388607.0 * 2f32.powi(104));
}

#[test]
fn high_bits_of_a_48_bit_word_are_ignored() {
    assert_eq!(m1750a_to_48flt(0xFFFF_69A3_B507_54AB), m1750a_to_48flt(0x69A3_B507_54AB));
}

#[test]
fn large_16_bit_words_decode_to_infinity() {
    // 512 * 2^7 = 2^16 is the first value binary16 cannot hold.
    assert_eq!(m1750a_to_16flt(0x8010), 0x7C00);
    assert!(decode16(0xFFDF).is_infinite());
    assert_eq!(decode16(0xFFCF), f16::from_f32(65472.0));
}

#[test]
fn tiny_16_bit_words_round_to_even_subnormals() {
    // exponent -17: the value is mantissa * 2^-26, a quarter of the smallest
    // subnormal per unit.
    assert_eq!(m1750a_to_16flt(0x006F), 0);
    assert_eq!(m1750a_to_16flt(0x00AF), 0);
    assert_eq!(m1750a_to_16flt(0x00EF), 1);
    assert_eq!(m1750a_to_16flt(0x01AF), 2);
    // exponent -32: everything rounds to zero
    assert_eq!(m1750a_to_16flt(0xFFE0), 0);
}
