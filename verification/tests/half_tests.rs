use geoconverter::convert_from_trait::ConvertFromAll;
use geoconverter::f16_half::{half_from_be_bytes, half_from_le_bytes, half_from_word};
use geoconverter::ieee::{from_int, to_int, to_unsigned, widen};
use geoconverter::{Real32, Real64};

fn single(bits: u16) -> f32 {
    f32::from_bits(half_from_word(bits).bits)
}

#[test]
fn half_patterns_decode_bit_for_bit() {
    assert_eq!(half_from_word(0x0000).bits, 0.0f32.to_bits());
    assert_eq!(half_from_word(0x8000).bits, (-0.0f32).to_bits());
    assert_eq!(half_from_word(0x3c00).bits, 1.0f32.to_bits());
    assert_eq!(half_from_word(0x7bff).bits, 65504.0f32.to_bits());
    // the least subnormal: 2^-24
    assert_eq!(half_from_word(0x0001).bits, 0x3380_0000);
    assert_eq!(single(0x0001), 5.960464477539063e-8f32);
    assert_eq!(half_from_word(0x7c00).bits, f32::INFINITY.to_bits());
    assert_eq!(half_from_word(0xfc00).bits, f32::NEG_INFINITY.to_bits());
    // a quiet NaN keeps its payload
    assert_eq!(half_from_word(0x7e00).bits, 0x7fc0_0000);
    assert!(single(0x7e00).is_nan());
}

#[test]
fn half_normals_and_subnormals() {
    assert_eq!(single(0xc000), -2.0);
    assert_eq!(single(0x3555), 0.333251953125);
    // the largest subnormal and the least normal
    assert_eq!(single(0x03ff), 6.097555160522461e-5);
    assert_eq!(single(0x0400), 6.103515625e-5);
    // exponent 23 is an ordinary exponent: 2^8
    assert_eq!(single(0x5c00), 256.0);
    assert_eq!(single(0x5c01), 256.25);
}

#[test]
fn half_bytes_come_in_either_order() {
    assert_eq!(half_from_be_bytes([0x3c, 0x00]).bits, 1.0f32.to_bits());
    assert_eq!(half_from_le_bytes([0x00, 0x3c]).bits, 1.0f32.to_bits());
    assert_eq!(half_from_be_bytes([0xc0, 0x01]).bits, half_from_word(0xc001).bits);
    assert_eq!(half_from_le_bytes([0x01, 0xc0]).bits, half_from_word(0xc001).bits);
}

#[test]
fn widening_is_exact() {
    let samples: [f32; 14] = [
        0.0,
        -0.0,
        1.0,
        -1.5,
        1.23,
        3.4028235e38,
        -3.4028235e38,
        1.1754944e-38,
        1.0e-45,
        -1.0e-45,
        5.877472e-39,
        f32::INFINITY,
        f32::NEG_INFINITY,
        65504.0,
    ];
    for x in samples {
        let wide = widen(Real32 { bits: x.to_bits() });
        assert_eq!(wide.bits, (x as f64).to_bits(), "widening {}", x);
    }
    let nan = widen(Real32 { bits: 0x7fc0_0001 });
    assert_eq!(nan.bits, 0x7ff8_0000_2000_0000);
    assert!(f64::from_bits(nan.bits).is_nan());
}

#[test]
fn every_subnormal_step_widens_exactly() {
    let mut bits: u32 = 1;
    while bits < 0x0080_0000 {
        let x = f32::from_bits(bits);
        assert_eq!(widen(Real32 { bits }).bits, (x as f64).to_bits());
        assert_eq!(widen(Real32 { bits: bits | 0x8000_0000 }).bits, (-x as f64).to_bits());
        bits = bits * 2 + 1;
    }
}

#[test]
fn integers_round_to_the_nearest_real() {
    let samples: [i64; 22] = [
        0,
        1,
        -1,
        2,
        3,
        100,
        -255,
        1 << 52,
        (1 << 53) - 1,
        1 << 53,
        (1 << 53) + 1,
        (1 << 53) + 2,
        (1 << 53) + 3,
        (1 << 54) + 2,
        (1 << 54) + 6,
        -((1 << 53) + 1),
        i64::MAX,
        i64::MAX - 511,
        i64::MAX - 512,
        i64::MIN,
        i64::MIN + 1,
        0x7fff_ffff_ffff_fbff,
    ];
    for x in samples {
        assert_eq!(from_int(x).bits, (x as f64).to_bits(), "converting {}", x);
    }
    let mut x: i64 = 1;
    for _ in 0..200 {
        x = x.wrapping_mul(6364136223846793005).wrapping_add(1442695040888963407);
        assert_eq!(from_int(x).bits, (x as f64).to_bits(), "converting {}", x);
        assert_eq!(from_int(x >> 9).bits, ((x >> 9) as f64).to_bits());
    }
}

#[test]
fn reals_are_cut_down_to_integers() {
    let samples: [f64; 22] = [
        0.0,
        -0.0,
        0.5,
        -0.5,
        0.999,
        1.0,
        1.5,
        -1.5,
        2.75,
        1e10,
        -1e10,
        4503599627370496.0,
        4503599627370497.0,
        9007199254740993.0,
        9.2e18,
        9223372036854775807.0,
        -9223372036854775808.0,
        1e19,
        -1e19,
        1e300,
        f64::INFINITY,
        f64::NEG_INFINITY,
    ];
    for x in samples {
        let r = Real64 { bits: x.to_bits() };
        assert_eq!(to_int(r), x as i64, "cutting {}", x);
        assert_eq!(to_unsigned(r), x as u64, "cutting {}", x);
    }
    let nan = Real64 { bits: f64::NAN.to_bits() };
    assert_eq!(to_int(nan), 0);
    assert_eq!(to_unsigned(nan), 0);
    assert_eq!(to_unsigned(Real64 { bits: 1.8446744073709552e19f64.to_bits() }), u64::MAX);
    assert_eq!(to_unsigned(Real64 { bits: 1.8446744073709550e19f64.to_bits() }), 18446744073709549568);
}

#[test]
fn scalars_convert_as_casts_do() {
    assert_eq!(<i64 as ConvertFromAll<i8>>::convert_from(-5), -5);
    assert_eq!(<i64 as ConvertFromAll<u16>>::convert_from(65535), 65535);
    assert_eq!(<i64 as ConvertFromAll<Real32>>::convert_from(Real32 { bits: 2.5f32.to_bits() }), 2);
    assert_eq!(<i64 as ConvertFromAll<Real64>>::convert_from(Real64 { bits: (-7.9f64).to_bits() }), -7);
    assert_eq!(<Real64 as ConvertFromAll<i32>>::convert_from(-3).bits, (-3.0f64).to_bits());
    assert_eq!(<Real64 as ConvertFromAll<u8>>::convert_from(200).bits, 200.0f64.to_bits());
    assert_eq!(
        <Real64 as ConvertFromAll<Real32>>::convert_from(Real32 { bits: 1.23f32.to_bits() }).bits,
        (1.23f32 as f64).to_bits()
    );
    assert_eq!(<usize as ConvertFromAll<u8>>::convert_from(7), 7);
    assert_eq!(<usize as ConvertFromAll<i8>>::convert_from(-1), (-1i8) as usize);
    assert_eq!(<usize as ConvertFromAll<i64>>::convert_from(-2), (-2i64) as usize);
    assert_eq!(<usize as ConvertFromAll<Real64>>::convert_from(Real64 { bits: (-2.0f64).to_bits() }), 0);
    assert_eq!(<usize as ConvertFromAll<Real64>>::convert_from(Real64 { bits: 9.5f64.to_bits() }), 9);
    assert_eq!(<usize as ConvertFromAll<Real32>>::convert_from(Real32 { bits: 3.99f32.to_bits() }), 3);
}
