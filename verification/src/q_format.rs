//! The Q7 fixed-point codec.
//!
//! A Q7 code is a signed byte standing for `code * 2^-7`: one sign bit and
//! seven fraction bits, covering [-1.0, 127/128] at a resolution of 1/128.
//! Encoding takes a binary64 pattern, saturates at the boundaries and
//! truncates toward zero; decoding is exact. The round-trip error is proved
//! to stay strictly below one least significant bit.

use vstd::arithmetic::div_mod::{
    lemma_div_denominator, lemma_div_multiples_vanish, lemma_fundamental_div_mod,
    lemma_fundamental_div_mod_converse_div, lemma_mod_division_less_than_divisor,
};
use vstd::arithmetic::mul::lemma_mul_inequality;
use vstd::arithmetic::power2::{lemma2_to64, lemma2_to64_rest, lemma_pow2_adds, lemma_pow2_pos, pow2,};
use vstd::prelude::*;

use crate::fbits::{
    exp64_of, f64_sv, floor_log2, floor_log2_u32, frac64_of, is_finite64, is_nan64,
    lemma_floor_log2_bounds, lemma_pow2_le, lemma_u64_fields, lemma_u64_split, pow2_u64, sign64_of,
};

verus! {

/// A Q7 fixed-point code: a signed byte standing for the value
/// `code * 2^-7`, in [-1.0, 127/128].
#[derive(Clone, Copy)]
pub struct Q7(pub i8);

/// The magnitude of a binary64 pattern with `|value| < 1.0`, scaled by 128
/// and truncated toward zero: `floor(|value| * 128)`, which is 0 below
/// exponent 1016 and `(2^52 + frac) / 2^(1068 - exp)` otherwise.
pub open spec fn q7_trunc_mag(b: u64) -> nat {
    if exp64_of(b) < 1016 {
        0
    } else {
        ((0x0010_0000_0000_0000 + frac64_of(b)) as nat) / pow2((1068 - exp64_of(b)) as nat)
    }
}

/// The Q7 code of a binary64 pattern: values at or above 1.0 (positive
/// infinity included) saturate to 127, values at or below -1.0 (negative
/// infinity included) saturate to -128, NaN encodes to 0, and every other
/// value is scaled by 128 and truncated toward zero.
pub open spec fn spec_q7_encode(b: u64) -> i8 {
    if is_nan64(b) {
        0i8
    } else if sign64_of(b) == 0 && exp64_of(b) >= 1023 {
        127i8
    } else if sign64_of(b) == 1 && exp64_of(b) >= 1023 {
        -128i8
    } else if sign64_of(b) == 1 {
        (-(q7_trunc_mag(b) as int)) as i8
    } else {
        q7_trunc_mag(b) as i8
    }
}

/// The binary64 pattern of `code * 2^-7`, which is always exactly
/// representable.
pub open spec fn spec_q7_decode(c: i8) -> u64 {
    if c == 0 {
        0u64
    } else {
        let n = (if c < 0 {
            -(c as int)
        } else {
            c as int
        }) as nat;
        let k = floor_log2(n);
        let mag = (k + 1016) * 0x0010_0000_0000_0000 + (n - pow2(k)) * pow2((52 - k) as nat);
        if c < 0 {
            (0x8000_0000_0000_0000 + mag) as u64
        } else {
            mag as u64
        }
    }
}

/// Splits a binary64 pattern into its raw fields: bit 63 is the sign, bits
/// 62..=52 the biased exponent, bits 51..=0 the fraction.
fn split64(bits: u64) -> (r: (u64, u64, u64))
    ensures
        r.0 == sign64_of(bits),
        r.1 == exp64_of(bits),
        r.2 == frac64_of(bits),
        r.0 <= 1,
        r.1 <= 0x7FF,
        r.2 < 0x0010_0000_0000_0000,
{
    let sign = (bits >> 63) & 1;
    let exp = (bits >> 52) & 0x7ff;
    let fract = bits & 0xf_ffff_ffff_ffff;
    proof {
        assert((bits >> 63) & 1 == bits / 0x8000_0000_0000_0000) by (bit_vector);
        assert((bits >> 52) & 0x7ff == (bits / 0x0010_0000_0000_0000) % 0x800) by (bit_vector);
        assert(bits & 0xf_ffff_ffff_ffff == bits % 0x0010_0000_0000_0000) by (bit_vector);
        lemma_u64_split(bits);
    }
    (sign, exp, fract)
}

/// The truncated magnitude of a value below 1.0 fits in a Q7 code.
pub proof fn lemma_trunc_mag_bound(b: u64)
    requires
        exp64_of(b) <= 1022,
    ensures
        q7_trunc_mag(b) <= 127,
{
    lemma2_to64();
    lemma2_to64_rest();
    if exp64_of(b) >= 1016 {
        let x = (0x0010_0000_0000_0000 + frac64_of(b)) as nat;
        let d = pow2((1068 - exp64_of(b)) as nat);
        lemma_u64_split(b);
        lemma_pow2_le(46, (1068 - exp64_of(b)) as nat);
        lemma_pow2_pos((1068 - exp64_of(b)) as nat);
        assert(pow2(46) == 0x4000_0000_0000);
        // x < 2^53 <= 128 * d, so x / d < 128
        lemma_mul_inequality(pow2(46) as int, d as int, 128);
        assert(128 * pow2(46) == pow2(53)) by {
            lemma_pow2_adds(7, 46);
        }
        assert(pow2(46) as int * 128 == 128 * (pow2(46) as int));
        assert(x < 128 * d);
        vstd::arithmetic::div_mod::lemma_multiply_divide_lt(x as int, d as int, 128);
    }
}

impl Q7 {
    /// Encodes a binary64 pattern as a Q7 code: saturates to 127 at or
    /// above 1.0 and to -128 at or below -1.0, sends NaN to 0, and
    /// otherwise truncates the value scaled by 128 toward zero.
    pub fn from_f64_bits(bits: u64) -> (q: Q7)
        ensures
            q.0 == spec_q7_encode(bits),
    {
        let (s, e, f) = split64(bits);
        if e == 0x7FF && f != 0 {
            // NaN: neither comparison with the boundaries holds
            Q7(0)
        } else if s == 0 && e >= 1023 {
            Q7(127)
        } else if s == 1 && e >= 1023 {
            Q7(-128)
        } else if e < 1016 {
            // |value| * 128 < 1: truncation yields 0 for either sign
            Q7(0)
        } else {
            let divisor = pow2_u64(1068 - e);
            proof {
                lemma_pow2_pos((1068 - e) as nat);
                lemma_trunc_mag_bound(bits);
            }
            let mag = (0x0010_0000_0000_0000u64 + f) / divisor;
            if s == 1 {
                Q7(-(mag as i8))
            } else {
                Q7(mag as i8)
            }
        }
    }

    /// Decodes a Q7 code: the binary64 pattern of `self.0 * 2^-7`. The
    /// conversion is exact.
    pub fn to_f64_bits(self) -> (r: u64)
        ensures
            r == spec_q7_decode(self.0),
            is_finite64(r),
            f64_sv(r) == self.0 * pow2(1067),
    {
        proof {
            lemma_q7_decode_value(self.0);
        }
        let c = self.0;
        if c == 0 {
            0
        } else {
            let n64: i64 = if c < 0 {
                -(c as i64)
            } else {
                c as i64
            };
            let n: u64 = n64 as u64;
            let k32 = floor_log2_u32(n as u32);
            let k: u64 = k32 as u64;
            proof {
                lemma2_to64();
                if k >= 8 {
                    lemma_pow2_le(8, k as nat);
                    assert(false);
                }
            }
            let p_k = pow2_u64(k);
            let p_shift = pow2_u64(52 - k);
            proof {
                lemma2_to64_rest();
                lemma_pow2_pos(k as nat);
                lemma_pow2_pos((52 - k) as nat);
                lemma_pow2_adds(k as nat, (52 - k) as nat);
                vstd::arithmetic::power2::lemma_pow2_unfold((k + 1) as nat);
                assert((n - p_k) * p_shift < pow2(k as nat) * pow2((52 - k) as nat))
                    by (nonlinear_arith)
                    requires
                        p_k == pow2(k as nat),
                        p_shift == pow2((52 - k) as nat),
                        pow2(k as nat) <= n < pow2((k + 1) as nat),
                        pow2((k + 1) as nat) == 2 * pow2(k as nat),
                        p_shift > 0,
                ;
            }
            let mag = (k + 1016) * 0x0010_0000_0000_0000 + (n - p_k) * p_shift;
            if c < 0 {
                0x8000_0000_0000_0000 + mag
            } else {
                mag
            }
        }
    }
}

/// The exact value of every decoded Q7 code: `spec_q7_decode(c)` is a
/// finite pattern worth `c * 2^-7` (stated on values scaled by 2^1074).
pub proof fn lemma_q7_decode_value(c: i8)
    ensures
        is_finite64(spec_q7_decode(c)),
        f64_sv(spec_q7_decode(c)) == c * pow2(1067),
{
    lemma2_to64();
    lemma2_to64_rest();
    if c == 0 {
    } else {
        let n = (if c < 0 {
            -(c as int)
        } else {
            c as int
        }) as nat;
        let k = floor_log2(n);
        lemma_floor_log2_bounds(n);
        if k >= 8 {
            lemma_pow2_le(8, k);
            assert(false);
        }
        let ff = (n - pow2(k)) * pow2((52 - k) as nat);
        lemma_pow2_pos(k);
        lemma_pow2_pos((52 - k) as nat);
        lemma_pow2_adds(k, (52 - k) as nat);
        lemma_pow2_adds((52 - k) as nat, k);
        assert(ff < pow2(k) * pow2((52 - k) as nat)) by (nonlinear_arith)
            requires
                ff == (n - pow2(k)) * pow2((52 - k) as nat),
                pow2(k) <= n < pow2(k + 1),
                pow2(k + 1) == 2 * pow2(k),
                pow2((52 - k) as nat) > 0,
        ;
        vstd::arithmetic::power2::lemma_pow2_unfold(k + 1);
        let sbit: u64 = if c < 0 {
            1
        } else {
            0
        };
        lemma_u64_fields(sbit, (k + 1016) as u64, ff as u64);
        let b = spec_q7_decode(c);
        assert(exp64_of(b) == k + 1016 && frac64_of(b) == ff && sign64_of(b) == sbit);
        // (2^52 + ff) * 2^(k + 1015) == n * 2^1067
        assert(0x0010_0000_0000_0000 + ff == pow2((52 - k) as nat) * n) by (nonlinear_arith)
            requires
                ff == (n - pow2(k)) * pow2((52 - k) as nat),
                pow2((52 - k) as nat) * pow2(k) == 0x0010_0000_0000_0000,
        ;
        lemma_pow2_adds((52 - k) as nat, (k + 1015) as nat);
        assert(pow2((52 - k) as nat) * n * pow2((k + 1015) as nat) == n * (pow2((52 - k) as nat)
            * pow2((k + 1015) as nat))) by (nonlinear_arith);
        assert((52 - k) + (k + 1015) == 1067);
        assert(f64_sv(b) == if c < 0 {
            -((0x0010_0000_0000_0000 + ff) * pow2((k + 1015) as nat))
        } else {
            (0x0010_0000_0000_0000 + ff) * pow2((k + 1015) as nat)
        });
        assert((0x0010_0000_0000_0000 + ff) * pow2((k + 1015) as nat) == n * pow2(1067));
        if c < 0 {
            assert((c as int) * pow2(1067) == -((n as int) * pow2(1067))) by (nonlinear_arith)
                requires
                    c as int == -(n as int),
            ;
        } else {
            assert((c as int) * pow2(1067) == (n as int) * pow2(1067)) by (nonlinear_arith)
                requires
                    c as int == n as int,
            ;
        }
    }
}

/// Q7 round-trip error bound: for every finite binary64 value in
/// [-1.0, 127/128], decoding the encoded value lands strictly within one
/// least significant bit (1/128) of the original. Values are scaled by
/// 2^1074, on which one least significant bit is `pow2(1067)`.
pub proof fn lemma_q7_round_trip_bound(b: u64)
    requires
        is_finite64(b),
        -pow2(1074) <= f64_sv(b),
        f64_sv(b) <= 127 * pow2(1067),
    ensures
        ({
            let back = f64_sv(spec_q7_decode(spec_q7_encode(b)));
            -pow2(1067) < back - f64_sv(b) < pow2(1067)
        }),
{
    lemma2_to64();
    lemma2_to64_rest();
    lemma_u64_split(b);
    lemma_pow2_pos(1067);
    lemma_pow2_pos(1022);
    lemma_pow2_adds(7, 1067);
    lemma_pow2_adds(52, 1022);
    let s = sign64_of(b);
    let e = exp64_of(b);
    let f = frac64_of(b);
    if e >= 1023 {
        // |value| >= 1.0: only -1.0 itself satisfies the preconditions
        lemma_pow2_pos((e - 1) as nat);
        lemma_pow2_le(1022, (e - 1) as nat);
        assert((0x0010_0000_0000_0000 + f) * pow2((e - 1) as nat) >= pow2(52) * pow2(1022))
            by (nonlinear_arith)
            requires
                pow2((e - 1) as nat) >= pow2(1022),
                0x0010_0000_0000_0000 + f >= pow2(52),
                pow2(1022) > 0,
                pow2(52) > 0,
        ;
        if s == 0 {
            // value >= 1.0 contradicts the upper precondition
            assert(127 * pow2(1067) < pow2(7) * pow2(1067)) by (nonlinear_arith)
                requires
                    pow2(1067) > 0,
                    pow2(7) == 128,
            ;
            assert(false);
        }
        // value <= -1.0 and value >= -1.0: the pattern of -1.0 exactly
        assert(f64_sv(b) == -pow2(1074));
        assert(spec_q7_encode(b) == -128i8);
        lemma_q7_decode_value(-128i8);
        assert((-128) * pow2(1067) == -(pow2(7) * pow2(1067))) by (nonlinear_arith)
            requires
                pow2(7) == 128,
        ;
    } else {
        // |value| < 1.0: the code is the truncated scaled magnitude
        let t = q7_trunc_mag(b);
        lemma_trunc_mag_bound(b);
        let mag: int = if e == 0 {
            f as int
        } else {
            (0x0010_0000_0000_0000 + f) * pow2((e - 1) as nat)
        };
        assert(f64_sv(b) == if s == 1 {
            -mag
        } else {
            mag
        });
        // t * 2^1067 <= mag < t * 2^1067 + 2^1067
        lemma_trunc_mag_bracket(b);
        // the decoded code is worth exactly t / 128 with the sign of b
        if s == 1 {
            let c = (-(t as int)) as i8;
            assert(spec_q7_encode(b) == c);
            lemma_q7_decode_value(c);
            assert(c as int == -(t as int));
            assert(f64_sv(spec_q7_decode(c)) == -(t as int) * pow2(1067));
            assert(-(t as int) * pow2(1067) == -(pow2(1067) * t)) by (nonlinear_arith);
        } else {
            let c = t as i8;
            assert(spec_q7_encode(b) == c);
            lemma_q7_decode_value(c);
            assert(c as int == t);
            assert(f64_sv(spec_q7_decode(c)) == t * pow2(1067));
            assert(t * pow2(1067) == pow2(1067) * t) by (nonlinear_arith);
        }
    }
}

/// The binary64 pattern of the value a binary32 pattern denotes: the
/// widening conversion, which is exact (NaN widens to NaN, infinity to
/// infinity, subnormals are normalised).
pub open spec fn spec_widen_f32(b: u32) -> u64 {
    let s: u64 = crate::fbits::sign_of(b) as u64;
    if crate::fbits::exp_of(b) == 255 {
        (s * 0x8000_0000_0000_0000 + 0x7FF * 0x0010_0000_0000_0000 + crate::fbits::frac_of(b)
            * 0x2000_0000) as u64
    } else if crate::fbits::exp_of(b) == 0 && crate::fbits::frac_of(b) == 0 {
        (s * 0x8000_0000_0000_0000) as u64
    } else if crate::fbits::exp_of(b) == 0 {
        let k = floor_log2(crate::fbits::frac_of(b) as nat);
        (s * 0x8000_0000_0000_0000 + (k + 874) * 0x0010_0000_0000_0000 + (crate::fbits::frac_of(b)
            - pow2(k)) * pow2((52 - k) as nat)) as u64
    } else {
        (s * 0x8000_0000_0000_0000 + (crate::fbits::exp_of(b) + 896) * 0x0010_0000_0000_0000
            + crate::fbits::frac_of(b) * 0x2000_0000) as u64
    }
}

/// Widens a binary32 pattern to the binary64 pattern of the same value.
fn widen_f32_bits(b: u32) -> (r: u64)
    ensures
        r == spec_widen_f32(b),
        sign64_of(r) == crate::fbits::sign_of(b),
        is_nan64(r) == crate::fbits::is_nan32(b),
        is_finite64(r) == crate::fbits::is_finite32(b),
        crate::fbits::is_finite32(b) ==> f64_sv(r) == crate::fbits::f32_sv(b) * pow2(925),
{
    let (s, e, f) = crate::ieee_754::to_parts(b);
    let s64: u64 = s as u64;
    let frw: u64 = f as u64;
    proof {
        lemma2_to64();
        lemma2_to64_rest();
    }
    if e == 255 {
        let r = s64 * 0x8000_0000_0000_0000 + 0x7FF * 0x0010_0000_0000_0000 + frw * 0x2000_0000;
        proof {
            lemma_u64_fields(s64, 0x7FF, (frw * 0x2000_0000) as u64);
        }
        r
    } else if e == 0 && f == 0 {
        let r = s64 * 0x8000_0000_0000_0000;
        proof {
            lemma_u64_fields(s64, 0, 0);
        }
        r
    } else if e == 0 {
        // subnormal: normalise around the top set bit of the fraction
        let k32 = floor_log2_u32(f);
        let k: u64 = k32 as u64;
        proof {
            if k >= 23 {
                lemma_pow2_le(23, k as nat);
                assert(false);
            }
        }
        let p_k = pow2_u64(k);
        let p_shift = pow2_u64(52 - k);
        proof {
            lemma_pow2_pos(k as nat);
            lemma_pow2_pos((52 - k) as nat);
            lemma_pow2_adds(k as nat, (52 - k) as nat);
            vstd::arithmetic::power2::lemma_pow2_unfold((k + 1) as nat);
            assert((frw - p_k) * p_shift < pow2(k as nat) * pow2((52 - k) as nat))
                by (nonlinear_arith)
                requires
                    p_k == pow2(k as nat),
                    p_shift == pow2((52 - k) as nat),
                    pow2(k as nat) <= frw < pow2((k + 1) as nat),
                    pow2((k + 1) as nat) == 2 * pow2(k as nat),
                    p_shift > 0,
            ;
        }
        let ff = (frw - p_k) * p_shift;
        let r = s64 * 0x8000_0000_0000_0000 + (k + 874) * 0x0010_0000_0000_0000 + ff;
        proof {
            lemma_u64_fields(s64, (k + 874) as u64, ff as u64);
            // (2^52 + ff) * 2^(k + 873) == f * 2^925
            lemma_pow2_adds((52 - k) as nat, k as nat);
            assert(0x0010_0000_0000_0000 + ff == pow2((52 - k) as nat) * frw) by (nonlinear_arith)
                requires
                    ff == (frw - pow2(k as nat)) * pow2((52 - k) as nat),
                    pow2((52 - k) as nat) * pow2(k as nat) == 0x0010_0000_0000_0000,
            ;
            lemma_pow2_adds((52 - k) as nat, (k + 873) as nat);
            assert(pow2((52 - k) as nat) * frw * pow2((k + 873) as nat) == frw * (pow2(
                (52 - k) as nat,
            ) * pow2((k + 873) as nat))) by (nonlinear_arith);
            if s == 1 {
                assert((-(frw as int)) * pow2(925) == -(frw * pow2(925))) by (nonlinear_arith);
            }
        }
        r
    } else {
        let e64: u64 = e as u64;
        let ff = frw * 0x2000_0000;
        let r = s64 * 0x8000_0000_0000_0000 + (e64 + 896) * 0x0010_0000_0000_0000 + ff;
        proof {
            lemma_u64_fields(s64, (e64 + 896) as u64, ff as u64);
            // (2^52 + f * 2^29) * 2^(e + 895) == (2^23 + f) * 2^(e - 1) * 2^925
            lemma_pow2_adds((e64 + 895) as nat, 0);
            lemma_pow2_pos((e64 + 895) as nat);
            lemma_pow2_pos((e - 1) as nat);
            lemma_pow2_adds((e - 1) as nat, 925);
            lemma_pow2_adds((e - 1) as nat, 896);
            assert((0x0010_0000_0000_0000 + ff) as int == 0x2000_0000 * (0x0080_0000 + frw));
            assert(0x2000_0000 * (0x0080_0000 + frw) as int * pow2((e64 + 895) as nat) == (
            0x0080_0000 + frw) as int * (0x2000_0000 * pow2((e64 + 895) as nat)))
                by (nonlinear_arith);
            assert(0x2000_0000 * pow2((e64 + 895) as nat) == pow2((e64 + 924) as nat)) by {
                lemma_pow2_adds(29, (e64 + 895) as nat);
            }
            assert((0x0080_0000 + frw) as int * pow2((e - 1) as nat) * pow2(925) == (0x0080_0000
                + frw) as int * (pow2((e - 1) as nat) * pow2(925))) by (nonlinear_arith);
            if s == 1 {
                let v: int = (0x0080_0000 + frw) as int * pow2((e - 1) as nat);
                assert((-v) * pow2(925) == -(v * pow2(925))) by (nonlinear_arith);
                assert(v * pow2(925) == (0x0080_0000 + frw) as int * (pow2((e - 1) as nat) * pow2(
                    925,
                ))) by (nonlinear_arith)
                    requires
                        v == (0x0080_0000 + frw) as int * pow2((e - 1) as nat),
                ;
            }
        }
        r
    }
}

/// The binary32 pattern of `c * 2^-7`, which is always exactly
/// representable.
pub open spec fn spec_q7_to_f32(c: i8) -> u32 {
    if c == 0 {
        0u32
    } else {
        let n = (if c < 0 {
            -(c as int)
        } else {
            c as int
        }) as nat;
        let mag = crate::fbits::encode_mag(n, 142);
        if c < 0 {
            (0x8000_0000 + mag) as u32
        } else {
            mag
        }
    }
}

impl Q7 {
    /// Encodes a binary32 pattern as a Q7 code by widening it to binary64
    /// first (the widening is exact) and encoding that.
    pub fn from_f32_bits(bits: u32) -> (q: Q7)
        ensures
            q.0 == spec_q7_encode(spec_widen_f32(bits)),
    {
        let wide = widen_f32_bits(bits);
        Q7::from_f64_bits(wide)
    }

    /// Decodes a Q7 code to the binary32 pattern of `self.0 * 2^-7`. The
    /// conversion is exact.
    pub fn to_f32_bits(self) -> (r: u32)
        ensures
            r == spec_q7_to_f32(self.0),
            crate::fbits::is_finite32(r),
            crate::fbits::f32_sv(r) == self.0 * pow2(142),
    {
        let c = self.0;
        if c == 0 {
            proof {
                lemma2_to64();
            }
            0
        } else {
            let n64: i64 = if c < 0 {
                -(c as i64)
            } else {
                c as i64
            };
            let n: u32 = n64 as u32;
            proof {
                lemma2_to64();
                lemma_floor_log2_bounds(n as nat);
                if floor_log2(n as nat) >= 8 {
                    lemma_pow2_le(8, floor_log2(n as nat));
                    assert(false);
                }
                crate::fbits::lemma_encode_mag_value(n as nat, 142);
            }
            let mag = crate::fbits::encode_mag_u32(n, 142);
            proof {
                crate::fbits::lemma_u32_split(mag);
                crate::fbits::lemma_u32_fields(
                    1,
                    crate::fbits::exp_of(mag),
                    crate::fbits::frac_of(mag),
                );
                if c < 0 {
                    assert((c as int) * pow2(142) == -((n as int) * pow2(142)))
                        by (nonlinear_arith)
                        requires
                            c as int == -(n as int),
                    ;
                } else {
                    assert((c as int) * pow2(142) == (n as int) * pow2(142)) by (nonlinear_arith)
                        requires
                            c as int == n as int,
                    ;
                }
            }
            if c < 0 {
                let r = 0x8000_0000 + mag;
                proof {
                    assert(crate::fbits::exp_of(r) == crate::fbits::exp_of(mag)
                        && crate::fbits::frac_of(r) == crate::fbits::frac_of(mag)
                        && crate::fbits::sign_of(r) == 1);
                    assert(crate::fbits::f32_sv(r) == -(crate::fbits::f32_sv(mag)));
                    assert(crate::fbits::f32_sv(r) == (c as int) * pow2(142));
                }
                r
            } else {
                proof {
                    assert(crate::fbits::f32_sv(mag) == (c as int) * pow2(142));
                }
                mag
            }
        }
    }
}

/// The bracket that defines truncation: for a finite pattern with
/// `|value| < 1.0`, the truncated magnitude `t` satisfies
/// `t * 2^1067 <= |value| * 2^1074 < (t + 1) * 2^1067`.
proof fn lemma_trunc_mag_bracket(b: u64)
    requires
        exp64_of(b) <= 1022,
    ensures
        ({
            let mag: int = if exp64_of(b) == 0 {
                frac64_of(b) as int
            } else {
                (0x0010_0000_0000_0000 + frac64_of(b)) * pow2((exp64_of(b) - 1) as nat)
            };
            pow2(1067) * q7_trunc_mag(b) <= mag < pow2(1067) * q7_trunc_mag(b) + pow2(1067)
        }),
{
    lemma2_to64();
    lemma2_to64_rest();
    lemma_u64_split(b);
    lemma_pow2_pos(1067);
    let e = exp64_of(b);
    let f = frac64_of(b);
    let t = q7_trunc_mag(b);
    let mag: int = if e == 0 {
        f as int
    } else {
        (0x0010_0000_0000_0000 + f) * pow2((e - 1) as nat)
    };
    if e < 1016 {
        // mag < 2^1067 and the truncation is 0
        if e == 0 {
            lemma_pow2_le(52, 1067);
        } else {
            lemma_pow2_pos((e - 1) as nat);
            lemma_pow2_le((e - 1) as nat, 1014);
            lemma_pow2_adds(53, 1014);
            assert((0x0010_0000_0000_0000 + f) * pow2((e - 1) as nat) < pow2(53) * pow2(1014))
                by (nonlinear_arith)
                requires
                    0x0010_0000_0000_0000 + f < pow2(53),
                    0 < pow2((e - 1) as nat) <= pow2(1014),
            ;
        }
        assert(t == 0);
        assert(0 <= mag < pow2(1067));
        assert(pow2(1067) * t == 0) by (nonlinear_arith)
            requires
                t == 0,
        ;
    } else {
        let x = (0x0010_0000_0000_0000 + f) as int;
        let d1 = pow2((e - 1) as nat) as int;
        let d2 = pow2((1068 - e) as nat) as int;
        lemma_pow2_pos((e - 1) as nat);
        lemma_pow2_pos((1068 - e) as nat);
        lemma_pow2_adds((e - 1) as nat, (1068 - e) as nat);
        lemma_div_multiples_vanish(x, d1);
        assert(mag == d1 * x) by (nonlinear_arith)
            requires
                mag == x * d1,
        ;
        lemma_div_denominator(mag, d1, d2);
        assert(mag / (pow2(1067) as int) == t);
        lemma_fundamental_div_mod(mag, pow2(1067) as int);
        lemma_mod_division_less_than_divisor(mag, pow2(1067) as int);
        assert(pow2(1067) * t <= mag < pow2(1067) * t + pow2(1067)) by (nonlinear_arith)
            requires
                mag == pow2(1067) * t + mag % (pow2(1067) as int),
                0 <= (mag % (pow2(1067) as int)) < pow2(1067) as int,
        ;
    }
}

/// The Q7 encoder at value level: for every finite binary64 pattern, the
/// code is the value scaled by 128, truncated toward zero, and clamped to
/// [-128, 127] (stated on values scaled by 2^1074, where scaling by 128
/// divides by `pow2(1067)`).
pub proof fn lemma_q7_encode_value(b: u64)
    requires
        is_finite64(b),
    ensures
        ({
            let sv = f64_sv(b);
            let t: int = if sv >= 0 {
                sv / (pow2(1067) as int)
            } else {
                -((-sv) / (pow2(1067) as int))
            };
            spec_q7_encode(b) as int == if t > 127 {
                127int
            } else if t < -128 {
                -128int
            } else {
                t
            }
        }),
{
    lemma2_to64();
    lemma2_to64_rest();
    lemma_u64_split(b);
    lemma_pow2_pos(1067);
    lemma_pow2_pos(1022);
    lemma_pow2_adds(7, 1067);
    lemma_pow2_adds(52, 1022);
    let s = sign64_of(b);
    let e = exp64_of(b);
    let f = frac64_of(b);
    let sv = f64_sv(b);
    let p: int = pow2(1067) as int;
    if e >= 1023 {
        // |value| >= 1.0: the magnitude divided by 2^1067 is at least 128
        lemma_pow2_pos((e - 1) as nat);
        lemma_pow2_le(1022, (e - 1) as nat);
        assert((0x0010_0000_0000_0000 + f) * pow2((e - 1) as nat) >= pow2(52) * pow2(1022))
            by (nonlinear_arith)
            requires
                pow2((e - 1) as nat) >= pow2(1022),
                0x0010_0000_0000_0000 + f >= pow2(52),
                pow2(1022) > 0,
                pow2(52) > 0,
        ;
        let m: int = (0x0010_0000_0000_0000 + f) * pow2((e - 1) as nat);
        assert(m >= 128 * p);
        lemma_div_multiples_vanish(128, p);
        assert(p * 128 == 128 * p) by (nonlinear_arith);
        vstd::arithmetic::div_mod::lemma_div_is_ordered(128 * p, m, p);
        assert(m / p >= 128);
        if s == 0 {
            assert(sv == m && sv >= 0);
        } else {
            assert(sv == -m && -sv == m);
        }
    } else {
        lemma_trunc_mag_bracket(b);
        let t = q7_trunc_mag(b);
        lemma_trunc_mag_bound(b);
        let mag: int = if e == 0 {
            f as int
        } else {
            (0x0010_0000_0000_0000 + f) * pow2((e - 1) as nat)
        };
        assert((t as int) * p == p * t) by (nonlinear_arith);
        lemma_fundamental_div_mod_converse_div(mag, p, t as int, mag - p * t);
        assert(mag / p == t);
        if s == 1 {
            assert(sv == -mag && -sv == mag);
        } else {
            assert(sv == mag && sv >= 0);
        }
    }
}

} // verus!
