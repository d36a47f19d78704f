//! The bit-pattern model of IEEE 754 values.
//!
//! A binary32 value is modelled by its `u32` pattern and a binary64 value by
//! its `u64` pattern. This module defines the field views (sign, biased
//! exponent, fraction), the exact scaled value of a finite pattern as an
//! integer, and the encoder that turns a scaled magnitude back into a
//! pattern, together with the lemmas the codecs build on.

use vstd::prelude::*;
use vstd::arithmetic::power2::{
    pow2, lemma2_to64, lemma_pow2_adds, lemma_pow2_pos, lemma_pow2_strictly_increases,
    lemma_pow2_unfold,
};
use vstd::arithmetic::div_mod::{
    lemma_fundamental_div_mod, lemma_fundamental_div_mod_converse_div,
    lemma_fundamental_div_mod_converse_mod,
};

verus! {

// ---------------------------------------------------------------------------
// Powers of two
// ---------------------------------------------------------------------------

/// `pow2(e1) <= pow2(e2)` whenever `e1 <= e2`.
pub proof fn lemma_pow2_le(e1: nat, e2: nat)
    requires
        e1 <= e2,
    ensures
        pow2(e1) <= pow2(e2),
{
    if e1 < e2 {
        lemma_pow2_strictly_increases(e1, e2);
    }
}

/// `2^e` as a `u32`, for `e < 32`.
pub fn pow2_u32(e: u32) -> (r: u32)
    requires
        e < 32,
    ensures
        r as nat == pow2(e as nat),
{
    proof {
        lemma2_to64();
    }
    let mut i: u32 = 0;
    let mut r: u32 = 1;
    while i < e
        invariant
            i <= e,
            e < 32,
            r as nat == pow2(i as nat),
        decreases e - i,
    {
        proof {
            lemma_pow2_unfold((i + 1) as nat);
            lemma_pow2_strictly_increases((i + 1) as nat, 32);
            lemma2_to64();
        }
        r = r * 2;
        i = i + 1;
    }
    r
}

/// `2^e` as a `u64`, for `e < 64`.
pub fn pow2_u64(e: u64) -> (r: u64)
    requires
        e < 64,
    ensures
        r as nat == pow2(e as nat),
{
    proof {
        lemma2_to64();
    }
    let mut i: u64 = 0;
    let mut r: u64 = 1;
    while i < e
        invariant
            i <= e,
            e < 64,
            r as nat == pow2(i as nat),
        decreases e - i,
    {
        proof {
            lemma_pow2_unfold((i + 1) as nat);
            lemma_pow2_strictly_increases((i + 1) as nat, 64);
            lemma2_to64();
        }
        r = r * 2;
        i = i + 1;
    }
    r
}

// ---------------------------------------------------------------------------
// The binary logarithm, rounded down
// ---------------------------------------------------------------------------

/// The index of the highest set bit of `n`, i.e. the largest `k` with
/// `pow2(k) <= n` (0 for `n <= 1`).
pub open spec fn floor_log2(n: nat) -> nat
    decreases n,
{
    if n <= 1 {
        0
    } else {
        1 + floor_log2(n / 2)
    }
}

/// `floor_log2` brackets its argument between two adjacent powers of two.
pub proof fn lemma_floor_log2_bounds(n: nat)
    requires
        1 <= n,
    ensures
        pow2(floor_log2(n)) <= n < pow2(floor_log2(n) + 1),
    decreases n,
{
    lemma2_to64();
    if n <= 1 {
    } else {
        lemma_floor_log2_bounds(n / 2);
        let k = floor_log2(n / 2);
        lemma_pow2_unfold(k + 1);
        lemma_pow2_unfold(k + 2);
        lemma_fundamental_div_mod(n as int, 2);
    }
}

/// The bracket `pow2(k) <= n < pow2(k + 1)` determines `floor_log2(n)`.
pub proof fn lemma_floor_log2_is(n: nat, k: nat)
    requires
        pow2(k) <= n < pow2(k + 1),
    ensures
        floor_log2(n) == k,
{
    lemma_pow2_pos(k);
    lemma_floor_log2_bounds(n);
    let j = floor_log2(n);
    if j < k {
        lemma_pow2_le(j + 1, k);
        assert(false);
    }
    if k < j {
        lemma_pow2_le(k + 1, j);
        assert(false);
    }
}

/// The index of the highest set bit of `n`.
pub fn floor_log2_u32(n: u32) -> (r: u32)
    requires
        1 <= n,
    ensures
        r as nat == floor_log2(n as nat),
        r < 32,
        pow2(r as nat) <= (n as nat) < pow2((r + 1) as nat),
{
    let mut k: u32 = 0;
    let mut m: u32 = n;
    proof {
        lemma2_to64();
        vstd::arithmetic::div_mod::lemma_div_basics(n as int);
    }
    while m >= 2
        invariant
            1 <= m,
            k < 32,
            m as nat == (n as nat) / pow2(k as nat),
        decreases m,
    {
        proof {
            lemma_pow2_pos(k as nat);
            lemma_pow2_adds(k as nat, 1);
            lemma2_to64();
            vstd::arithmetic::div_mod::lemma_div_denominator(n as int, pow2(k as nat) as int, 2);
            // m >= 2 means n >= 2 * pow2(k) = pow2(k + 1), so k + 1 stays below 32
            lemma_fundamental_div_mod(n as int, pow2(k as nat) as int);
            vstd::arithmetic::mul::lemma_mul_inequality(2, m as int, pow2(k as nat) as int);
            assert(n as int >= pow2(k as nat) as int * m);
            assert(pow2(k as nat) as int * m == m as int * pow2(k as nat) as int)
                by (nonlinear_arith);
            if k + 1 >= 32 {
                lemma_pow2_le(32, (k + 1) as nat);
                assert(false);
            }
        }
        m = m / 2;
        k = k + 1;
    }
    proof {
        lemma_pow2_pos(k as nat);
        lemma_pow2_adds(k as nat, 1);
        lemma2_to64();
        lemma_fundamental_div_mod(n as int, pow2(k as nat) as int);
        assert(n as int == pow2(k as nat) as int * m + (n as int % pow2(k as nat) as int));
        assert(pow2(k as nat) as int * m == pow2(k as nat)) by (nonlinear_arith)
            requires
                m == 1,
        ;
        lemma_floor_log2_is(n as nat, k as nat);
    }
    k
}

// ---------------------------------------------------------------------------
// binary32 fields and value
// ---------------------------------------------------------------------------

/// Bit 31 of a binary32 pattern: the sign.
pub open spec fn sign_of(b: u32) -> u32 {
    b / 0x8000_0000u32
}

/// Bits 30..=23 of a binary32 pattern: the biased exponent.
pub open spec fn exp_of(b: u32) -> u32 {
    (b / 0x0080_0000u32) % 0x100u32
}

/// Bits 22..=0 of a binary32 pattern: the fraction.
pub open spec fn frac_of(b: u32) -> u32 {
    b % 0x0080_0000u32
}

/// A NaN pattern: maximal exponent and a nonzero fraction.
pub open spec fn is_nan32(b: u32) -> bool {
    exp_of(b) == 255 && frac_of(b) != 0
}

/// An infinity pattern (either sign).
pub open spec fn is_inf32(b: u32) -> bool {
    exp_of(b) == 255 && frac_of(b) == 0
}

/// A finite pattern: zero, subnormal or normal.
pub open spec fn is_finite32(b: u32) -> bool {
    exp_of(b) != 255
}

/// A zero pattern of either sign.
pub open spec fn is_zero32(b: u32) -> bool {
    exp_of(b) == 0 && frac_of(b) == 0
}

/// The exact value of a finite binary32 pattern, scaled by `2^149` so that
/// it is an integer: subnormals are worth `frac * 2^-149` and normals
/// `(2^23 + frac) * 2^(exp - 150)`.
pub open spec fn f32_sv(b: u32) -> int {
    let mag: int = if exp_of(b) == 0 {
        frac_of(b) as int
    } else {
        (0x0080_0000 + frac_of(b)) * pow2((exp_of(b) - 1) as nat)
    };
    if sign_of(b) == 1 {
        -mag
    } else {
        mag
    }
}

/// Field extraction inverts field composition on binary32 patterns.
pub proof fn lemma_u32_fields(s: u32, e: u32, f: u32)
    requires
        s <= 1,
        e <= 255,
        f < 0x0080_0000,
    ensures
        s * 0x8000_0000 + e * 0x0080_0000 + f < 0x1_0000_0000,
        sign_of((s * 0x8000_0000 + e * 0x0080_0000 + f) as u32) == s,
        exp_of((s * 0x8000_0000 + e * 0x0080_0000 + f) as u32) == e,
        frac_of((s * 0x8000_0000 + e * 0x0080_0000 + f) as u32) == f,
{
    let b: int = s * 0x8000_0000 + e * 0x0080_0000 + f;
    assert(b == (s * 0x100 + e) * 0x0080_0000 + f) by {
        assert((s * 0x100 + e) * 0x0080_0000 == s * 0x100 * 0x0080_0000 + e * 0x0080_0000)
            by (nonlinear_arith);
    }
    lemma_fundamental_div_mod_converse_div(b, 0x0080_0000, s * 0x100 + e, f as int);
    lemma_fundamental_div_mod_converse_mod(b, 0x0080_0000, s * 0x100 + e, f as int);
    lemma_fundamental_div_mod_converse_mod(s * 0x100 + e, 0x100, s as int, e as int);
    assert(b == s * 0x8000_0000 + (e * 0x0080_0000 + f));
    lemma_fundamental_div_mod_converse_div(b, 0x8000_0000, s as int, e * 0x0080_0000 + f);
}

/// A binary32 pattern is the composition of its three fields.
pub proof fn lemma_u32_split(b: u32)
    ensures
        b == sign_of(b) * 0x8000_0000 + exp_of(b) * 0x0080_0000 + frac_of(b),
        sign_of(b) <= 1,
        exp_of(b) <= 255,
        frac_of(b) < 0x0080_0000,
{
    lemma_fundamental_div_mod(b as int, 0x0080_0000);
    let q: int = b as int / 0x0080_0000;
    lemma_fundamental_div_mod(q, 0x100);
    vstd::arithmetic::div_mod::lemma_div_denominator(b as int, 0x0080_0000, 0x100);
    vstd::arithmetic::div_mod::lemma_mod_division_less_than_divisor(b as int, 0x0080_0000);
    vstd::arithmetic::div_mod::lemma_mod_division_less_than_divisor(q, 0x100);
}

// ---------------------------------------------------------------------------
// Encoding a scaled magnitude as a binary32 pattern
// ---------------------------------------------------------------------------

/// The binary32 pattern of the nonnegative value `num * 2^j * 2^-149`, for
/// `1 <= num < 2^24` and `floor_log2(num) + j <= 276`: subnormal when the
/// top bit `floor_log2(num) + j` stays below bit 23 of the scaled frame,
/// normal otherwise.
pub open spec fn encode_mag(num: nat, j: nat) -> u32 {
    if num == 0 {
        0u32
    } else {
        let k = floor_log2(num);
        if k + j <= 22 {
            (num * pow2(j)) as u32
        } else {
            (((k + j - 22) * 0x0080_0000 + (num - pow2(k)) * pow2((23 - k) as nat)) as u32)
        }
    }
}

/// `encode_mag(num, j)` is a finite, nonnegative pattern worth exactly
/// `num * 2^j` on the scaled-value view.
pub proof fn lemma_encode_mag_value(num: nat, j: nat)
    requires
        1 <= num < 0x0100_0000,
        floor_log2(num) + j <= 276,
    ensures
        sign_of(encode_mag(num, j)) == 0,
        is_finite32(encode_mag(num, j)),
        f32_sv(encode_mag(num, j)) == num * pow2(j),
        floor_log2(num) + j > 22 ==> exp_of(encode_mag(num, j)) == floor_log2(num) + j - 22
            && frac_of(encode_mag(num, j)) == (num - pow2(floor_log2(num))) * pow2(
            (23 - floor_log2(num)) as nat,
        ),
        floor_log2(num) + j <= 22 ==> exp_of(encode_mag(num, j)) == 0 && frac_of(
            encode_mag(num, j),
        ) == num * pow2(j),
{
    lemma2_to64();
    let k = floor_log2(num);
    lemma_floor_log2_bounds(num);
    if k >= 24 {
        lemma_pow2_le(24, k);
        assert(false);
    }
    if k + j <= 22 {
        // subnormal frame: the shifted magnitude stays below bit 23
        lemma_pow2_le(k + 1 + j, 23);
        lemma_pow2_adds(k + 1, j);
        lemma_pow2_pos(j);
        assert(num * pow2(j) < pow2(k + 1) * pow2(j)) by (nonlinear_arith)
            requires
                num < pow2(k + 1),
                pow2(j) > 0,
        ;
        lemma_u32_fields(0, 0, (num * pow2(j)) as u32);
    } else {
        // normal frame
        let ee = k + j - 22;
        let ff = (num - pow2(k)) * pow2((23 - k) as nat);
        lemma_pow2_pos(k);
        lemma_pow2_pos((23 - k) as nat);
        lemma_pow2_adds(k, (23 - k) as nat);
        assert(ff < pow2(k) * pow2((23 - k) as nat)) by (nonlinear_arith)
            requires
                num < pow2(k + 1),
                pow2(k + 1) == 2 * pow2(k),
                pow2((23 - k) as nat) > 0,
                ff == (num - pow2(k)) * pow2((23 - k) as nat),
                pow2(k) <= num,
        ;
        lemma_pow2_unfold(k + 1);
        lemma_u32_fields(0, ee as u32, ff as u32);
        let b = encode_mag(num, j);
        assert(b == ee * 0x0080_0000 + ff);
        assert(exp_of(b) == ee && frac_of(b) == ff && sign_of(b) == 0);
        // value: (2^23 + ff) * 2^(ee - 1) == num * 2^j
        lemma_pow2_adds((23 - k) as nat, k);
        assert(0x0080_0000 + ff == pow2((23 - k) as nat) * num) by (nonlinear_arith)
            requires
                ff == (num - pow2(k)) * pow2((23 - k) as nat),
                pow2((23 - k) as nat) * pow2(k) == 0x0080_0000,
        ;
        lemma_pow2_adds((23 - k) as nat, (ee - 1) as nat);
        assert(pow2((23 - k) as nat) * num * pow2((ee - 1) as nat) == num * (pow2(
            (23 - k) as nat,
        ) * pow2((ee - 1) as nat))) by (nonlinear_arith);
        assert((23 - k) + (ee - 1) == j);
        assert(f32_sv(b) == (0x0080_0000 + ff) * pow2((ee - 1) as nat));
    }
}

/// `encode_mag` as executable code: the pattern of `num * 2^j * 2^-149`.
pub fn encode_mag_u32(num: u32, j: u32) -> (r: u32)
    requires
        1 <= num < 0x0100_0000,
        floor_log2(num as nat) + j <= 276,
    ensures
        r == encode_mag(num as nat, j as nat),
{
    let k = floor_log2_u32(num);
    proof {
        lemma2_to64();
        if k >= 24 {
            lemma_pow2_le(24, k as nat);
            assert(false);
        }
    }
    if k + j <= 22 {
        proof {
            lemma_pow2_le((k + 1 + j) as nat, 23);
            lemma_pow2_adds((k + 1) as nat, j as nat);
            lemma_pow2_pos(j as nat);
            assert(num * pow2(j as nat) < pow2((k + 1) as nat) * pow2(j as nat))
                by (nonlinear_arith)
                requires
                    num < pow2((k + 1) as nat),
                    pow2(j as nat) > 0,
            ;
        }
        num * pow2_u32(j)
    } else {
        let p_k = pow2_u32(k);
        let p_shift = pow2_u32(23 - k);
        proof {
            lemma_pow2_pos(k as nat);
            lemma_pow2_adds(k as nat, (23 - k) as nat);
            lemma_pow2_unfold((k + 1) as nat);
            assert((num - p_k) * p_shift < pow2(k as nat) * pow2((23 - k) as nat))
                by (nonlinear_arith)
                requires
                    p_k == pow2(k as nat),
                    p_shift == pow2((23 - k) as nat),
                    num < pow2((k + 1) as nat),
                    pow2((k + 1) as nat) == 2 * pow2(k as nat),
                    pow2(k as nat) <= num,
                    p_shift > 0,
            ;
        }
        (k + j - 22) * 0x0080_0000 + (num - p_k) * p_shift
    }
}

// ---------------------------------------------------------------------------
// binary64 fields and value
// ---------------------------------------------------------------------------

/// Bit 63 of a binary64 pattern: the sign.
pub open spec fn sign64_of(b: u64) -> u64 {
    b / 0x8000_0000_0000_0000u64
}

/// Bits 62..=52 of a binary64 pattern: the biased exponent.
pub open spec fn exp64_of(b: u64) -> u64 {
    (b / 0x0010_0000_0000_0000u64) % 0x800u64
}

/// Bits 51..=0 of a binary64 pattern: the fraction.
pub open spec fn frac64_of(b: u64) -> u64 {
    b % 0x0010_0000_0000_0000u64
}

/// A binary64 NaN pattern.
pub open spec fn is_nan64(b: u64) -> bool {
    exp64_of(b) == 0x7FF && frac64_of(b) != 0
}

/// A finite binary64 pattern.
pub open spec fn is_finite64(b: u64) -> bool {
    exp64_of(b) != 0x7FF
}

/// The exact value of a finite binary64 pattern, scaled by `2^1074` so that
/// it is an integer: subnormals are worth `frac * 2^-1074` and normals
/// `(2^52 + frac) * 2^(exp - 1075)`.
pub open spec fn f64_sv(b: u64) -> int {
    let mag: int = if exp64_of(b) == 0 {
        frac64_of(b) as int
    } else {
        (0x0010_0000_0000_0000 + frac64_of(b)) * pow2((exp64_of(b) - 1) as nat)
    };
    if sign64_of(b) == 1 {
        -mag
    } else {
        mag
    }
}

/// Field extraction inverts field composition on binary64 patterns.
pub proof fn lemma_u64_fields(s: u64, e: u64, f: u64)
    requires
        s <= 1,
        e <= 0x7FF,
        f < 0x0010_0000_0000_0000,
    ensures
        s * 0x8000_0000_0000_0000 + e * 0x0010_0000_0000_0000 + f < 0x1_0000_0000_0000_0000,
        sign64_of((s * 0x8000_0000_0000_0000 + e * 0x0010_0000_0000_0000 + f) as u64) == s,
        exp64_of((s * 0x8000_0000_0000_0000 + e * 0x0010_0000_0000_0000 + f) as u64) == e,
        frac64_of((s * 0x8000_0000_0000_0000 + e * 0x0010_0000_0000_0000 + f) as u64) == f,
{
    let b: int = s * 0x8000_0000_0000_0000 + e * 0x0010_0000_0000_0000 + f;
    assert(b == (s * 0x800 + e) * 0x0010_0000_0000_0000 + f) by {
        assert((s * 0x800 + e) * 0x0010_0000_0000_0000 == s * 0x800 * 0x0010_0000_0000_0000 + e
            * 0x0010_0000_0000_0000) by (nonlinear_arith);
    }
    lemma_fundamental_div_mod_converse_div(b, 0x0010_0000_0000_0000, s * 0x800 + e, f as int);
    lemma_fundamental_div_mod_converse_mod(b, 0x0010_0000_0000_0000, s * 0x800 + e, f as int);
    lemma_fundamental_div_mod_converse_mod(s * 0x800 + e, 0x800, s as int, e as int);
    assert(b == s * 0x8000_0000_0000_0000 + (e * 0x0010_0000_0000_0000 + f));
    lemma_fundamental_div_mod_converse_div(
        b,
        0x8000_0000_0000_0000,
        s as int,
        e * 0x0010_0000_0000_0000 + f,
    );
}

/// A binary64 pattern is the composition of its three fields.
pub proof fn lemma_u64_split(b: u64)
    ensures
        b == sign64_of(b) * 0x8000_0000_0000_0000 + exp64_of(b) * 0x0010_0000_0000_0000
            + frac64_of(b),
        sign64_of(b) <= 1,
        exp64_of(b) <= 0x7FF,
        frac64_of(b) < 0x0010_0000_0000_0000,
{
    lemma_fundamental_div_mod(b as int, 0x0010_0000_0000_0000);
    let q: int = b as int / 0x0010_0000_0000_0000;
    lemma_fundamental_div_mod(q, 0x800);
    vstd::arithmetic::div_mod::lemma_div_denominator(b as int, 0x0010_0000_0000_0000, 0x800);
    vstd::arithmetic::div_mod::lemma_mod_division_less_than_divisor(
        b as int,
        0x0010_0000_0000_0000,
    );
    vstd::arithmetic::div_mod::lemma_mod_division_less_than_divisor(q, 0x800);
}

} // verus!
