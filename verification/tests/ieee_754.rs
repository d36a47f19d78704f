use decimals::ieee_754::{
    compute_normal_mantissa, compute_subnormal_mantissa, decode, from_parts, to_parts,
    try_from_parts,
};

fn round_trip(value: f32) -> u32 {
    let (sign, exp, fract) = to_parts(value.to_bits());
    let (sign_, exp_, mantissa) = decode(sign, exp, fract);
    from_parts(sign_, exp_, mantissa)
}

#[test]
fn test_normal_number() {
    let n: f32 = 12.12;
    let reconstructed = round_trip(n);
    assert_eq!(n, f32::from_bits(reconstructed));
}

#[test]
fn test_positive_zero() {
    let value = 0.0_f32;
    let reconstructed = round_trip(value);
    assert_eq!(value.to_bits(), reconstructed);
}

#[test]
fn test_negative_zero() {
    let value = -0.0_f32;
    let reconstructed = round_trip(value);
    assert_eq!(value.to_bits(), reconstructed);
}

#[test]
fn test_positive_infinity() {
    let value = f32::INFINITY;
    let reconstructed = round_trip(value);
    assert_eq!(value, f32::from_bits(reconstructed));
}

#[test]
fn test_negative_infinity() {
    let value = f32::NEG_INFINITY;
    let reconstructed = round_trip(value);
    assert_eq!(value, f32::from_bits(reconstructed));
}

#[test]
fn test_nan() {
    let value = f32::NAN;
    let reconstructed = round_trip(value);
    assert!(f32::from_bits(reconstructed).is_nan());
}

#[test]
fn test_subnormal_number() {
    let value = 1.0e-40_f32;
    let reconstructed = round_trip(value);
    assert_eq!(value, f32::from_bits(reconstructed));
}

#[test]
fn test_min_positive_normal() {
    let value = f32::MIN_POSITIVE;
    let reconstructed = round_trip(value);
    assert_eq!(value, f32::from_bits(reconstructed));
}

#[test]
fn test_max_finite() {
    let value = f32::MAX;
    let reconstructed = round_trip(value);
    assert_eq!(value, f32::from_bits(reconstructed));
}

#[test]
fn test_negative_normal_number() {
    let value = -42.5_f32;
    let reconstructed = round_trip(value);
    assert_eq!(value, f32::from_bits(reconstructed));
}

#[test]
fn test_one() {
    let value = 1.0_f32;
    let reconstructed = round_trip(value);
    assert_eq!(value, f32::from_bits(reconstructed));
}

#[test]
fn test_power_of_two() {
    let value = 8.0_f32; // 2^3
    let reconstructed = round_trip(value);
    assert_eq!(value, f32::from_bits(reconstructed));
}

#[test]
fn test_to_parts_fields() {
    // -42.5 = sign 1, exponent 132, fraction 0.328125 * 2^23
    let (sign, exp, fract) = to_parts((-42.5f32).to_bits());
    assert_eq!(sign, 1);
    assert_eq!(exp, 132);
    assert_eq!(fract, 0b010_1010_0000_0000_0000_0000);
    let (sign, exp, fract) = to_parts(1.0f32.to_bits());
    assert_eq!((sign, exp, fract), (0, 127, 0));
}

#[test]
fn test_mantissa_of_normal_is_one_for_zero_fraction() {
    // fraction 0 on a normal number: the mantissa value is exactly 1.0
    let (_, _, mantissa) = decode(0, 128, 0);
    assert_eq!(mantissa, 1.0f32.to_bits());
}

#[test]
fn test_mantissa_of_normal_top_bit() {
    // only fraction bit 22 set: the mantissa value is exactly 1.0 + 0.5
    let (_, _, mantissa) = decode(0, 128, 1 << 22);
    assert_eq!(mantissa, 1.5f32.to_bits());
}

#[test]
fn test_decoded_triple_matches_float_semantics() {
    // the decoded triple of a normal number, read back as floats
    let n: f32 = 12.12;
    let (sign, exp, fract) = to_parts(n.to_bits());
    let (sign_, exp_, mantissa) = decode(sign, exp, fract);
    assert_eq!(f32::from_bits(sign_), 1.0);
    assert_eq!(f32::from_bits(exp_), 2f32.powi(exp as i32 - 127));
    assert_eq!(f32::from_bits(mantissa), 1.0 + fract as f32 / 2f32.powi(23));
}

#[test]
fn test_decoded_subnormal_matches_float_semantics() {
    let value = 1.0e-40_f32;
    let (sign, exp, fract) = to_parts(value.to_bits());
    assert_eq!(exp, 0);
    let (sign_, exp_, mantissa) = decode(sign, exp, fract);
    assert_eq!(f32::from_bits(sign_), 1.0);
    assert_eq!(f32::from_bits(exp_), 2f32.powi(-126));
    assert_eq!(f32::from_bits(mantissa), fract as f32 / 2f32.powi(23));
}

#[test]
fn test_round_trip_many_patterns() {
    // the round trip reproduces every kind of pattern bit for bit
    let samples: Vec<f32> = vec![
        0.0,
        -0.0,
        1.0,
        -1.0,
        0.5,
        -0.5,
        12.12,
        -12.12,
        3.1415926,
        1.0e-40,
        -1.0e-40,
        f32::MIN_POSITIVE,
        -f32::MIN_POSITIVE,
        f32::MAX,
        f32::MIN,
        1.1754942e-38, // largest subnormal
        8388608.0,
        0.1,
        -0.1,
    ];
    for value in samples {
        let reconstructed = round_trip(value);
        assert_eq!(value.to_bits(), reconstructed);
    }
}

#[test]
fn test_nan_sign_not_preserved() {
    // a negative NaN round-trips to a NaN; the sign multiplier is forced to 1.0
    let value = f32::from_bits(0xFFC0_0001);
    assert!(value.is_nan());
    let (sign, exp, fract) = to_parts(value.to_bits());
    let (sign_, _, _) = decode(sign, exp, fract);
    assert_eq!(f32::from_bits(sign_), 1.0);
    assert!(f32::from_bits(round_trip(value)).is_nan());
}

#[test]
fn test_try_from_parts_accepts_decoded_triples() {
    let (sign, exp, fract) = to_parts(12.12f32.to_bits());
    let (sign_, exp_, mantissa) = decode(sign, exp, fract);
    assert_eq!(try_from_parts(sign_, exp_, mantissa), Some(12.12f32.to_bits()));
}

#[test]
fn test_try_from_parts_rejects_bad_sign() {
    // 2.0 is not a sign multiplier
    let two = 2.0f32.to_bits();
    let one = 1.0f32.to_bits();
    assert_eq!(try_from_parts(two, two, one), None);
}

#[test]
fn test_from_parts_infinity_sentinel() {
    // an infinite exponent value with a non-sentinel mantissa signals NaN
    let one = 1.0f32.to_bits();
    let inf = f32::INFINITY.to_bits();
    let half = 0.5f32.to_bits();
    assert!(f32::from_bits(from_parts(one, inf, half)).is_nan());
    assert_eq!(from_parts(one, inf, one), inf);
    assert_eq!(
        f32::from_bits(from_parts((-1.0f32).to_bits(), inf, one)),
        f32::NEG_INFINITY
    );
}

#[test]
fn test_from_parts_infinity_sign_from_multiplier_alone() {
    // the sign multiplier alone decides the result's sign: a negative
    // infinity in the exponent slot does not flip it
    let one = 1.0f32.to_bits();
    let minus_one = (-1.0f32).to_bits();
    let neg_inf = f32::NEG_INFINITY.to_bits();
    assert_eq!(f32::from_bits(from_parts(one, neg_inf, one)), f32::INFINITY);
    assert_eq!(
        f32::from_bits(from_parts(minus_one, neg_inf, one)),
        f32::NEG_INFINITY
    );
    // and with a non-sentinel mantissa the result is still NaN
    assert!(f32::from_bits(from_parts(one, neg_inf, 0.5f32.to_bits())).is_nan());
}

#[test]
fn test_mantissa_helpers_scan_only_fraction_bits() {
    // bits above the 23 fraction bits have no effect on the scan
    let fract: u32 = 0x2A_0000;
    assert_eq!(
        compute_normal_mantissa(0xFF80_0000 | fract),
        compute_normal_mantissa(fract)
    );
    assert_eq!(
        compute_subnormal_mantissa(0xFF80_0000 | fract),
        compute_subnormal_mantissa(fract)
    );
    // and the scan agrees with the per-bit floating-point reference
    let mut normal: f32 = 1.0;
    let mut subnormal: f32 = 0.0;
    for i in 0..23 {
        if fract & (1 << i) != 0 {
            let weight = 2f32.powf(i as f32 - 23.0);
            normal += weight;
            subnormal += weight;
        }
    }
    assert_eq!(compute_normal_mantissa(fract), normal.to_bits());
    assert_eq!(compute_subnormal_mantissa(fract), subnormal.to_bits());
}

#[test]
fn test_from_parts_signed_zero() {
    let zero = 0.0f32.to_bits();
    let one = 1.0f32.to_bits();
    let minus_one = (-1.0f32).to_bits();
    assert_eq!(from_parts(one, zero, zero), 0.0f32.to_bits());
    assert_eq!(from_parts(minus_one, zero, zero), (-0.0f32).to_bits());
}
