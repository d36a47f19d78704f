//! Bit-level numeric codecs, verified end to end.
//!
//! Floating-point values are represented everywhere by their IEEE 754 bit
//! patterns (`u32` for binary32, `u64` for binary64), so each conversion is
//! plain integer arithmetic with a proved contract:
//!
//! - [`ieee_754`] splits a binary32 pattern into (sign, exponent, fraction)
//!   fields, interprets them as a (sign multiplier, exponent value, mantissa
//!   value) triple, and reassembles the triple into the original pattern.
//! - [`q_format`] converts between binary64 patterns and the saturating
//!   signed 8-bit Q7 fixed-point code (1 sign bit, 7 fraction bits).

pub mod fbits;
pub mod ieee_754;
pub mod q_format;

use vstd::arithmetic::power2::{lemma2_to64, pow2};
use vstd::prelude::*;

use crate::fbits::{encode_mag, f32_sv, floor_log2, is_finite32, sign_of};

verus! {

/// Exercises the field codec on the pattern of the binary32 number 12.12
/// (0x4141EB85): splits it, interprets the fields, reassembles them, and
/// proves that the round trip reproduces the pattern exactly.
pub fn ieee() {
    let n_bits: u32 = 0x4141EB85;
    let (sign, exp, fract) = ieee_754::to_parts(n_bits);
    let (sign_, exp_, mantissa) = ieee_754::decode(sign, exp, fract);
    let n_ = ieee_754::from_parts(sign_, exp_, mantissa);
    proof {
        ieee_754::lemma_round_trip(n_bits);
    }
    assert(n_ == n_bits);
}

/// The pattern `mock_rand` returns: 0.0 for 0, and the normal pattern of
/// `n * 2^-8` otherwise.
pub open spec fn spec_mock_rand(n: u8) -> u32 {
    if n == 0 {
        0u32
    } else {
        encode_mag(n as nat, 141)
    }
}

/// A deterministic stand-in for a random draw: the binary32 pattern of
/// `n / 256`, always in [0, 1). It plants `n` just below the leading bit of
/// 0.5 and rescales, which is exact.
fn mock_rand(n: u8) -> (r: u32)
    ensures
        r == spec_mock_rand(n),
        sign_of(r) == 0,
        is_finite32(r),
        f32_sv(r) == n * pow2(141),
{
    if n == 0 {
        proof {
            lemma2_to64();
        }
        0
    } else {
        proof {
            lemma2_to64();
            fbits::lemma_floor_log2_bounds(n as nat);
            if floor_log2(n as nat) >= 8 {
                fbits::lemma_pow2_le(8, floor_log2(n as nat));
                assert(false);
            }
            fbits::lemma_encode_mag_value(n as nat, 141);
        }
        fbits::encode_mag_u32(n as u32, 141)
    }
}

/// A fixed draw of `mock_rand`: the pattern of 12/256 = 0.046875, which is
/// 0x3D400000.
pub fn rand_f32() -> (r: u32)
    ensures
        r == 0x3D40_0000u32,
        f32_sv(r) == 12 * pow2(141),
{
    let r = mock_rand(12);
    proof {
        lemma2_to64();
        fbits::lemma_floor_log2_is(12, 3);
        assert(encode_mag(12, 141) == ((3 + 141 - 22) * 0x0080_0000 + (12 - pow2(3)) * pow2(
            20,
        )) as u32);
    }
    r
}

} // verus!
