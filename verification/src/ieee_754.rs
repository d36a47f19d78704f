//! The binary32 field codec.
//!
//! `to_parts` splits a binary32 pattern into its (sign, biased exponent,
//! fraction) fields. `decode` interprets the fields as a decoded triple
//! (sign multiplier, exponent value, mantissa value), each given as the
//! binary32 pattern of the value it stands for. `from_parts` reassembles a
//! decoded triple into the pattern of the represented number. The round
//! trip is proved to be the identity on every pattern that is not a NaN,
//! and to yield a NaN for every NaN.

use vstd::arithmetic::div_mod::{
    lemma_breakdown, lemma_div_multiples_vanish, lemma_div_nonincreasing,
    lemma_fundamental_div_mod, lemma_mod_multiples_basic, lemma_small_mod,
};
use vstd::arithmetic::power2::{lemma2_to64, lemma_pow2_adds, lemma_pow2_pos, pow2};
use vstd::prelude::*;

use crate::fbits::{
    encode_mag, exp_of, f32_sv, floor_log2, frac_of, is_finite32, is_inf32, is_nan32, is_zero32,
    lemma_encode_mag_value, lemma_floor_log2_bounds, lemma_floor_log2_is, lemma_pow2_le,
    lemma_u32_fields, lemma_u32_split, sign_of, encode_mag_u32, pow2_u32,
};

verus! {

/// The pattern of the sign multiplier `(-1)^sign`: -1.0 for a set sign bit,
/// 1.0 otherwise.
pub open spec fn sign_mult_bits(sign: u32) -> u32 {
    if sign == 1 {
        0xBF80_0000u32
    } else {
        0x3F80_0000u32
    }
}

/// The mantissa-value pattern of a subnormal number: `fract * 2^-23`, the
/// weighted sum of the set fraction bits with no implicit leading one.
pub open spec fn spec_subnormal_mantissa(fract: u32) -> u32 {
    if fract == 0 {
        0u32
    } else {
        encode_mag(fract as nat, 126)
    }
}

/// The decoded triple for a field triple, each component the binary32
/// pattern of the value it stands for: the sign multiplier, the exponent
/// value `2^(exp - 127)` (0.0 for zeroes, `2^-126` for subnormals, infinity
/// or NaN at exponent 255), and the mantissa value.
pub open spec fn spec_decode(sign: u32, exp: u32, fract: u32) -> (u32, u32, u32) {
    if exp == 0 {
        if fract == 0 {
            (sign_mult_bits(sign), 0u32, 0u32)
        } else {
            (sign_mult_bits(sign), 0x0080_0000u32, spec_subnormal_mantissa(fract))
        }
    } else if exp == 255 {
        if fract == 0 {
            (sign_mult_bits(sign), 0x7F80_0000u32, 0x3F80_0000u32)
        } else {
            (0x3F80_0000u32, 0x7FC0_0000u32, 0x3F80_0000u32)
        }
    } else {
        (sign_mult_bits(sign), (exp * 0x0080_0000) as u32, (0x3F80_0000 + fract) as u32)
    }
}

/// The mantissa value of a mantissa pattern `m`, scaled by `2^23`: the
/// integer `num` with `m == num * 2^-23`.
pub open spec fn mant_num(m: u32) -> nat {
    ((0x0080_0000 + frac_of(m)) as nat) / pow2((127 - exp_of(m)) as nat)
}

/// A mantissa-and-exponent pair whose product is an exactly representable
/// finite number: the exponent value is a power of two `2^(exp_of(e) - 127)`
/// of a representable magnitude, and the mantissa value is a multiple of
/// `2^-23` below 2.
pub open spec fn product_ok(e: u32, m: u32) -> bool {
    &&& sign_of(e) == 0
    &&& frac_of(e) == 0
    &&& 1 <= exp_of(e) <= 254
    &&& sign_of(m) == 0
    &&& 104 <= exp_of(m) <= 127
    &&& frac_of(m) % (pow2((127 - exp_of(m)) as nat) as u32) == 0
}

/// The decoded triples that `from_parts` reassembles exactly: the sign
/// multiplier is the pattern of 1.0 or -1.0, and the exponent and mantissa
/// patterns form one of the special cases (NaN, infinite exponent, zero
/// exponent and mantissa) or an exactly representable product.
pub open spec fn valid_from_parts(s: u32, e: u32, m: u32) -> bool {
    &&& (s == 0x3F80_0000 || s == 0xBF80_0000)
    &&& {
        ||| is_nan32(e)
        ||| is_nan32(m)
        ||| is_inf32(e)
        ||| (is_zero32(e) && is_zero32(m))
        ||| product_ok(e, m)
    }
}

/// The pattern `from_parts` returns: NaN when either interpreted component
/// is NaN, an infinity whose sign is the sign multiplier's for the
/// infinite-exponent sentinel, a signed zero for the zero case, and the
/// exact product otherwise.
pub open spec fn spec_from_parts(s: u32, e: u32, m: u32) -> u32 {
    if is_nan32(e) || is_nan32(m) {
        0x7FC0_0000u32
    } else if is_inf32(e) {
        if m == 0x3F80_0000 {
            if s == 0xBF80_0000 {
                0xFF80_0000u32
            } else {
                0x7F80_0000u32
            }
        } else {
            0x7FC0_0000u32
        }
    } else if is_zero32(e) && is_zero32(m) {
        if s == 0xBF80_0000 {
            0x8000_0000u32
        } else {
            0u32
        }
    } else {
        let mag = encode_mag(mant_num(m), (exp_of(e) - 1) as nat);
        if sign_of(s) == 1 {
            (0x8000_0000 + mag) as u32
        } else {
            mag
        }
    }
}

/// Splits a binary32 pattern into its raw fields: bit 31 is the sign, bits
/// 30..=23 the biased exponent, bits 22..=0 the fraction.
pub fn to_parts(bits: u32) -> (r: (u32, u32, u32))
    ensures
        r.0 == sign_of(bits),
        r.1 == exp_of(bits),
        r.2 == frac_of(bits),
        r.0 <= 1,
        r.1 <= 255,
        r.2 < 0x0080_0000,
{
    let sign = (bits >> 31) & 1;
    let exp = (bits >> 23) & 0xff;
    // keeping only the lower 23 bits
    let fract = bits & 0x7fffff;
    proof {
        assert((bits >> 31) & 1 == bits / 0x8000_0000) by (bit_vector);
        assert((bits >> 23) & 0xff == (bits / 0x0080_0000) % 0x100) by (bit_vector);
        assert(bits & 0x7fffff == bits % 0x0080_0000) by (bit_vector);
        lemma_u32_split(bits);
    }
    (sign, exp, fract)
}

/// Mantissa value of a normal number: 1.0 plus the weight `2^(i - 23)` of
/// each set fraction bit `i`, scanned from the least significant end; only
/// the 23 fraction bits are scanned, so any higher bits have no effect. The
/// sum is exact, so the result is the pattern `0x3F80_0000 + frac_of(fract)`.
pub fn compute_normal_mantissa(fract: u32) -> (r: u32)
    ensures
        r == 0x3F80_0000 + frac_of(fract),
        sign_of(r) == 0,
        exp_of(r) == 127,
        frac_of(r) == frac_of(fract),
        f32_sv(r) == (0x0080_0000 + frac_of(fract)) * pow2(126),
{
    let low = fract & 0x7fffff;
    let mut mantissa: u32 = 0x3F80_0000;  // the pattern of 1.0, the implicit leading one
    let mut rem: u32 = low;
    let mut i: u32 = 0;
    proof {
        assert(fract & 0x7fffff == fract % 0x0080_0000) by (bit_vector);
        lemma2_to64();
    }
    while i < 23
        invariant
            i <= 23,
            low < 0x0080_0000,
            rem as nat == (low as nat) / pow2(i as nat),
            mantissa as nat == 0x3F80_0000 + (low as nat) % pow2(i as nat),
        decreases 23 - i,
    {
        proof {
            lemma_pow2_pos(i as nat);
            lemma_pow2_adds(i as nat, 1);
            lemma2_to64();
            lemma_breakdown(low as int, pow2(i as nat) as int, 2);
            vstd::arithmetic::div_mod::lemma_div_denominator(
                low as int,
                pow2(i as nat) as int,
                2,
            );
            vstd::arithmetic::div_mod::lemma_mod_division_less_than_divisor(
                low as int,
                pow2(i as nat) as int,
            );
            vstd::arithmetic::div_mod::lemma_mod_division_less_than_divisor(
                low as int,
                pow2((i + 1) as nat) as int,
            );
            lemma_pow2_le((i + 1) as nat, 23);
            assert(pow2(i as nat) as int * 2 == pow2((i + 1) as nat));
            assert((low as int) % (pow2(i as nat) as int * 2) == pow2(i as nat) * (((
            low as int) / (pow2(i as nat) as int)) % 2) + (low as int) % (pow2(
                i as nat,
            ) as int));
        }
        let one_at_bit_i = rem % 2;
        if one_at_bit_i == 1 {
            let weight = pow2_u32(i);
            proof {
                let y: int = pow2(i as nat) as int;
                let b: int = ((low as int) / y) % 2;
                assert(b == 1);
                assert(y * b == y) by (nonlinear_arith)
                    requires
                        b == 1,
                ;
                assert((low as nat) % pow2((i + 1) as nat) == pow2(i as nat) + (low as nat)
                    % pow2(i as nat));
            }
            mantissa = mantissa + weight;
        } else {
            proof {
                let y: int = pow2(i as nat) as int;
                let b: int = ((low as int) / y) % 2;
                assert(b == 0);
                assert(y * b == 0) by (nonlinear_arith)
                    requires
                        b == 0,
                ;
                assert((low as nat) % pow2((i + 1) as nat) == (low as nat) % pow2(i as nat));
            }
        }
        rem = rem / 2;
        i = i + 1;
    }
    proof {
        lemma2_to64();
        lemma_small_mod(low as nat, pow2(23));
        lemma_u32_fields(0, 127, low);
    }
    mantissa
}

/// Mantissa value of a subnormal number: the weighted sum of the set
/// fraction bits with no implicit leading one, i.e. exactly
/// `(fract % 2^23) * 2^-23`, returned as the pattern of that value; only
/// the 23 fraction bits are scanned, so any higher bits have no effect.
pub fn compute_subnormal_mantissa(fract: u32) -> (r: u32)
    ensures
        r == spec_subnormal_mantissa(frac_of(fract)),
        sign_of(r) == 0,
        is_finite32(r),
        f32_sv(r) == frac_of(fract) * pow2(126),
{
    let low = fract & 0x7fffff;
    proof {
        assert(fract & 0x7fffff == fract % 0x0080_0000) by (bit_vector);
    }
    if low == 0 {
        proof {
            lemma2_to64();
        }
        0
    } else {
        proof {
            lemma2_to64();
            lemma_floor_log2_bounds(low as nat);
            if floor_log2(low as nat) >= 23 {
                lemma_pow2_le(23, floor_log2(low as nat));
                assert(false);
            }
            lemma_encode_mag_value(low as nat, 126);
        }
        encode_mag_u32(low, 126)
    }
}

/// The output of `decode` is always a triple that `from_parts` accepts.
pub proof fn lemma_decode_valid(sign: u32, exp: u32, fract: u32)
    requires
        sign <= 1,
        exp <= 255,
        fract < 0x0080_0000,
    ensures
        ({
            let (s, e, m) = spec_decode(sign, exp, fract);
            valid_from_parts(s, e, m)
        }),
{
    lemma2_to64();
    let (s, e, m) = spec_decode(sign, exp, fract);
    if exp == 0 {
        if fract != 0 {
            // subnormal: exponent value 2^-126, mantissa value fract * 2^-23
            let k = floor_log2(fract as nat);
            lemma_floor_log2_bounds(fract as nat);
            if k >= 23 {
                lemma_pow2_le(23, k);
                assert(false);
            }
            lemma_encode_mag_value(fract as nat, 126);
            lemma_pow2_pos((23 - k) as nat);
            lemma_mod_multiples_basic(
                (fract - pow2(k)) as int,
                pow2((23 - k) as nat) as int,
            );
            assert(exp_of(m) == k + 104);
            assert((127 - exp_of(m)) as nat == (23 - k) as nat);
            assert(frac_of(m) % (pow2((23 - k) as nat) as u32) == 0);
        }
    } else if exp == 255 {
    } else {
        lemma_u32_fields(0, exp, 0);
        lemma_u32_fields(0, 127, fract);
    }
}

/// Interprets a field triple: returns the patterns of the sign multiplier
/// `(-1)^sign`, the exponent value, and the mantissa value.
///
/// - exponent 0 with fraction 0: signed zero, exponent and mantissa values
///   both 0.0, the sign carried by the multiplier alone;
/// - exponent 0 with nonzero fraction: subnormal, exponent value `2^-126`,
///   mantissa value the bit-weighted sum without the implicit leading one;
/// - exponent 255 with fraction 0: infinity, mantissa value 1.0 as the
///   sentinel separating it from NaN;
/// - exponent 255 with nonzero fraction: NaN, with the sign multiplier
///   forced to 1.0 (the payload sign is not preserved);
/// - otherwise: normal, exponent value `2^(exp - 127)`, mantissa value the
///   bit-weighted sum plus the implicit leading one.
pub fn decode(sign: u32, exp: u32, fract: u32) -> (r: (u32, u32, u32))
    requires
        sign <= 1,
        exp <= 255,
        fract < 0x0080_0000,
    ensures
        r == spec_decode(sign, exp, fract),
        valid_from_parts(r.0, r.1, r.2),
{
    proof {
        lemma_decode_valid(sign, exp, fract);
    }
    let signed_1: u32 = if sign == 1 {
        0xBF80_0000
    } else {
        0x3F80_0000
    };
    if exp == 0 {
        if fract == 0 {
            // zero (positive or negative)
            (signed_1, 0, 0)
        } else {
            // subnormal: the minimum normal exponent value 2^(1 - 127)
            (signed_1, 0x0080_0000, compute_subnormal_mantissa(fract))
        }
    } else if exp == 255 {
        if fract == 0 {
            // infinity, with mantissa value 1.0 as the sentinel
            (signed_1, 0x7F80_0000, 0x3F80_0000)
        } else {
            // NaN: the sign multiplier is forced to 1.0
            (0x3F80_0000, 0x7FC0_0000, 0x3F80_0000)
        }
    } else {
        // normal: exponent value 2^(exp - 127)
        (signed_1, exp * 0x0080_0000, compute_normal_mantissa(fract))
    }
}

/// Reassembles a decoded triple into the pattern of the number it denotes,
/// in this priority order: NaN if either interpreted component is NaN; an
/// infinity carrying the sign multiplier's sign if the exponent value is
/// infinite and the mantissa holds the 1.0 sentinel (NaN otherwise); a
/// signed zero, taken from the sign multiplier alone, if exponent and
/// mantissa values are both 0.0; else the exact product of the three
/// values.
pub fn from_parts(sign: u32, exponent: u32, mantissa: u32) -> (r: u32)
    requires
        valid_from_parts(sign, exponent, mantissa),
    ensures
        r == spec_from_parts(sign, exponent, mantissa),
{
    let (_, ee, fe) = to_parts(exponent);
    let (_, em, fm) = to_parts(mantissa);
    if (ee == 255 && fe != 0) || (em == 255 && fm != 0) {
        return 0x7FC0_0000;
    }
    if ee == 255 {
        // infinite exponent value: the sign multiplier alone carries the sign
        if mantissa == 0x3F80_0000 {
            if sign == 0xBF80_0000 {
                return 0xFF80_0000;
            } else {
                return 0x7F80_0000;
            }
        } else {
            return 0x7FC0_0000;
        }
    }
    if ee == 0 && fe == 0 && em == 0 && fm == 0 {
        // signed zero: the sign multiplier alone decides the sign bit
        if sign == 0xBF80_0000 {
            return 0x8000_0000;
        } else {
            return 0;
        }
    }
    // exact product: mantissa value num * 2^-23 times exponent value
    // 2^(ee - 127), encoded from the scaled magnitude num * 2^(ee - 1)
    let shift = 127 - em;
    let divisor = pow2_u32(shift);
    proof {
        lemma_pow2_pos(shift as nat);
        lemma_pow2_le(shift as nat, 23);
        lemma2_to64();
    }
    let num = (0x0080_0000 + fm) / divisor;
    proof {
        lemma_fundamental_div_mod((0x0080_0000 + fm) as int, divisor as int);
        vstd::arithmetic::div_mod::lemma_mod_division_less_than_divisor(
            (0x0080_0000 + fm) as int,
            divisor as int,
        );
        lemma_div_nonincreasing((0x0080_0000 + fm) as int, divisor as int);
        assert(divisor as int <= 0x0080_0000);
        assert((0x0080_0000 + fm) as int == divisor * (num as int) + ((0x0080_0000 + fm) as int)
            % (divisor as int));
        if num == 0 {
            assert(divisor * (num as int) == 0) by (nonlinear_arith)
                requires
                    num == 0,
            ;
            assert(false);
        }
        assert(num >= 1);
        lemma_floor_log2_bounds(num as nat);
        if floor_log2(num as nat) >= 24 {
            lemma_pow2_le(24, floor_log2(num as nat));
            assert(false);
        }
    }
    let mag = encode_mag_u32(num, ee - 1);
    let (ss, _, _) = to_parts(sign);
    if ss == 1 {
        proof {
            lemma_encode_mag_value(num as nat, (ee - 1) as nat);
            lemma_u32_split(mag);
        }
        0x8000_0000 + mag
    } else {
        mag
    }
}

/// Reassembles a decoded triple if it is one that `from_parts` gives an
/// exact meaning, and returns nothing otherwise.
pub fn try_from_parts(sign: u32, exponent: u32, mantissa: u32) -> (r: Option<u32>)
    ensures
        valid_from_parts(sign, exponent, mantissa) ==> r == Some(
            spec_from_parts(sign, exponent, mantissa),
        ),
        !valid_from_parts(sign, exponent, mantissa) ==> r == None::<u32>,
{
    if sign != 0x3F80_0000 && sign != 0xBF80_0000 {
        return None;
    }
    let (se, ee, fe) = to_parts(exponent);
    let (sm, em, fm) = to_parts(mantissa);
    let nan_case = (ee == 255 && fe != 0) || (em == 255 && fm != 0);
    let inf_case = ee == 255 && fe == 0;
    let zero_case = ee == 0 && fe == 0 && em == 0 && fm == 0;
    let product_case = if se == 0 && fe == 0 && 1 <= ee && ee <= 254 && sm == 0 && 104 <= em && em
        <= 127 {
        let divisor = pow2_u32(127 - em);
        proof {
            lemma_pow2_pos((127 - em) as nat);
        }
        fm % divisor == 0
    } else {
        false
    };
    if nan_case || inf_case || zero_case || product_case {
        Some(from_parts(sign, exponent, mantissa))
    } else {
        None
    }
}

/// Round-trip identity: splitting any pattern that is not a NaN into
/// fields, interpreting them, and reassembling the interpretation
/// reproduces the pattern bit for bit — for normal, subnormal, zero and
/// infinite values of either sign.
pub proof fn lemma_round_trip(bits: u32)
    requires
        !is_nan32(bits),
    ensures
        ({
            let (s, e, m) = spec_decode(sign_of(bits), exp_of(bits), frac_of(bits));
            spec_from_parts(s, e, m) == bits
        }),
{
    lemma2_to64();
    lemma_u32_split(bits);
    let sign = sign_of(bits);
    let exp = exp_of(bits);
    let fract = frac_of(bits);
    let (s, e, m) = spec_decode(sign, exp, fract);
    if exp == 0 && fract == 0 {
        // signed zero: the sign multiplier alone carries the sign
    } else if exp == 0 {
        // subnormal
        let k = floor_log2(fract as nat);
        lemma_floor_log2_bounds(fract as nat);
        if k >= 23 {
            lemma_pow2_le(23, k);
            assert(false);
        }
        lemma_encode_mag_value(fract as nat, 126);
        // the mantissa pattern holds exponent field k + 104 and fraction
        // (fract - 2^k) * 2^(23 - k); its scaled-by-2^23 value is fract
        lemma_pow2_pos((23 - k) as nat);
        lemma_pow2_adds(k, (23 - k) as nat);
        assert((0x0080_0000 + frac_of(m)) as nat == pow2((23 - k) as nat) * (fract as nat))
            by (nonlinear_arith)
            requires
                frac_of(m) == ((fract as nat) - pow2(k)) * pow2((23 - k) as nat),
                pow2(k) * pow2((23 - k) as nat) == 0x0080_0000,
                pow2(k) <= fract as nat,
        ;
        lemma_div_multiples_vanish(fract as int, pow2((23 - k) as nat) as int);
        assert(mant_num(m) == fract as nat);
        assert(exp_of(e) == 1 && sign_of(e) == 0 && frac_of(e) == 0);
        // encode_mag(fract, 0) stays in the subnormal frame: k + 0 <= 22
        lemma_floor_log2_is(fract as nat, k);
        assert(encode_mag(fract as nat, 0) == (fract as nat * pow2(0)) as u32);
        assert(spec_from_parts(s, e, m) == if sign == 1 {
            (0x8000_0000 + fract) as u32
        } else {
            fract
        });
    } else if exp == 255 {
        // infinity (the NaN case is excluded by the precondition)
        assert(spec_from_parts(s, e, m) == if sign == 1 {
            0xFF80_0000u32
        } else {
            0x7F80_0000u32
        });
    } else {
        // normal
        lemma_u32_fields(0, exp, 0);
        lemma_u32_fields(0, 127, fract);
        assert(mant_num(m) == ((0x0080_0000 + fract) as nat) / pow2(0));
        vstd::arithmetic::div_mod::lemma_div_basics((0x0080_0000 + fract) as int);
        let num = (0x0080_0000 + fract) as nat;
        lemma_floor_log2_is(num, 23);
        assert(encode_mag(num, (exp - 1) as nat) == ((23 + (exp - 1) - 22) * 0x0080_0000 + (num
            - pow2(23)) * pow2(0)) as u32);
        assert(spec_from_parts(s, e, m) == if sign == 1 {
            (0x8000_0000 + exp * 0x0080_0000 + fract) as u32
        } else {
            (exp * 0x0080_0000 + fract) as u32
        });
    }
}

/// NaN closure: the round trip of any NaN pattern is a NaN pattern (its
/// sign and payload are not preserved).
pub proof fn lemma_nan_round_trip(bits: u32)
    requires
        is_nan32(bits),
    ensures
        ({
            let (s, e, m) = spec_decode(sign_of(bits), exp_of(bits), frac_of(bits));
            is_nan32(spec_from_parts(s, e, m))
        }),
{
    lemma2_to64();
}

/// Sign preservation: the round trip of any negative pattern that is not a
/// NaN — a negative normal or subnormal number, negative zero, or negative
/// infinity — reproduces the pattern, sign bit included.
pub proof fn lemma_sign_preserved(bits: u32)
    requires
        sign_of(bits) == 1,
        !is_nan32(bits),
    ensures
        ({
            let (s, e, m) = spec_decode(sign_of(bits), exp_of(bits), frac_of(bits));
            sign_of(spec_from_parts(s, e, m)) == 1 && spec_from_parts(s, e, m) == bits
        }),
{
    lemma_round_trip(bits);
}

/// Mantissa bit-scan correctness: for every normal number (exponent in
/// 1..=254), a zero fraction is interpreted as the mantissa value exactly
/// 1.0, and a fraction with only its top bit (bit 22) set as exactly
/// 1.0 + 0.5.
pub proof fn lemma_mantissa_bit_scan(sign: u32, exp: u32)
    requires
        sign <= 1,
        1 <= exp <= 254,
    ensures
        spec_decode(sign, exp, 0).2 == 0x3F80_0000u32,
        spec_decode(sign, exp, 0x0040_0000).2 == 0x3FC0_0000u32,
{
}

} // verus!
