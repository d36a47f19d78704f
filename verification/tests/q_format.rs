use decimals::q_format::Q7;
use decimals::{ieee, rand_f32};

fn encode(n: f64) -> Q7 {
    Q7::from_f64_bits(n.to_bits())
}

fn decode(q: Q7) -> f64 {
    f64::from_bits(q.to_f64_bits())
}

#[test]
fn test_f64_to_q7_boundary_values() {
    assert_eq!(encode(1.0).0, 127);
    assert_eq!(encode(-1.0).0, -128);
    assert_eq!(encode(1.5).0, 127);
    assert_eq!(encode(-1.5).0, -128);
}

#[test]
fn test_f64_to_q7_zero() {
    assert_eq!(encode(0.0).0, 0);
}

#[test]
fn test_f64_to_q7_small_values() {
    assert_eq!(encode(0.5).0, 64);
    assert_eq!(encode(-0.5).0, -64);
    assert_eq!(encode(0.25).0, 32);
    assert_eq!(encode(-0.25).0, -32);
}

#[test]
fn test_q7_to_f64_conversion() {
    let q = Q7(64);
    let f: f64 = decode(q);
    assert!((f - 0.5).abs() < 0.01);

    let q = Q7(-64);
    let f: f64 = decode(q);
    assert!((f + 0.5).abs() < 0.01);
}

#[test]
fn test_f32_conversions() {
    let q = Q7::from_f32_bits(0.5f32.to_bits());
    assert_eq!(q.0, 64);

    let f = f32::from_bits(q.to_f32_bits());
    assert!((f - 0.5).abs() < 0.01);
}

#[test]
fn test_round_trip_conversion() {
    let original = 0.75f64;
    let q = encode(original);
    let converted: f64 = decode(q);
    assert!((original - converted).abs() < 0.01);
}

#[test]
fn test_saturation_of_infinities_and_nan() {
    assert_eq!(encode(f64::INFINITY).0, 127);
    assert_eq!(encode(f64::NEG_INFINITY).0, -128);
    assert_eq!(encode(f64::NAN).0, 0);
}

#[test]
fn test_encode_truncates_toward_zero() {
    // 0.241 * 128 = 30.848, truncated to 30; symmetric for the negative
    assert_eq!(encode(0.241).0, 30);
    assert_eq!(encode(-0.241).0, -30);
}

#[test]
fn test_q7_scenario() {
    // encode 0.241, decode, and land within one LSB of the clamped input
    let n: f64 = 0.241;
    let q = encode(n);
    let back = decode(q);
    let lsb = 1.0 / 128.0;
    let expected = n.clamp(-1.0, 127.0 / 128.0);
    assert!((back - expected).abs() < lsb);
}

#[test]
fn test_decode_matches_float_reference_for_every_code() {
    for c in -128i32..=127 {
        let q = Q7(c as i8);
        assert_eq!(decode(q), (c as f64) * 2f64.powi(-7));
        assert_eq!(f32::from_bits(q.to_f32_bits()), (c as f32) * 2f32.powi(-7));
    }
}

#[test]
fn test_encode_matches_float_reference() {
    // the bit-level encoder agrees with the floating-point phrasing:
    // saturate outside (-1, 1), otherwise truncate value * 128 toward zero
    let mut samples: Vec<f64> = vec![
        0.0, -0.0, 1.0, -1.0, 0.999, -0.999, 0.5, -0.5, 0.241, -0.241, 1.5, -1.5, 1e300, -1e300,
        1e-300, -1e-300, 0.0078125, -0.0078125, 0.9921875, -0.9921875, 0.0039, 127.0 / 128.0,
        -127.0 / 128.0,
    ];
    for i in 0..256 {
        samples.push((i as f64 - 128.0) / 128.0 + 0.003);
    }
    for v in samples {
        let reference: i8 = if v >= 1.0 {
            127
        } else if v <= -1.0 {
            -128
        } else {
            (v * 128.0) as i8
        };
        assert_eq!(encode(v).0, reference, "value {v}");
    }
}

#[test]
fn test_round_trip_error_bound_across_range() {
    // |decode(encode(v)) - v| < 1/128 for representable v in [-1, 127/128]
    for i in -1024i32..=1016 {
        let v = i as f64 / 1024.0;
        let err = (decode(encode(v)) - v).abs();
        assert!(err < 1.0 / 128.0, "value {v} err {err}");
    }
}

#[test]
fn test_ieee_demo_runs() {
    ieee();
}

#[test]
fn test_rand_f32_is_fixed_draw() {
    // 12 planted below the leading bit of 0.5, rescaled: 12/256
    let bits = rand_f32();
    assert_eq!(f32::from_bits(bits), 0.046875);
    let base: u32 = 0b0_01111110_00000000000000000000000; // 0.5f32
    let m = f32::from_bits(base | (12u32 << 15));
    assert_eq!(f32::from_bits(bits), 2.0 * (m - 0.5));
}
