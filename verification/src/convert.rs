//! The four conversions from IBM hexadecimal floating point to IEEE-754 bit
//! patterns.
//!
//! Each conversion is a total function from raw words to raw words: every
//! input bit pattern has a defined result.  A zero fraction converts to a
//! signed zero whatever the exponent bits hold.  Otherwise the fraction is
//! normalized (IBM floats have no hidden bit, so a nonzero fraction may still
//! have leading zero digits), the exponent is rebiased from powers of 16 to
//! the target's powers of 2, and the significand is rounded to nearest with
//! ties to even where the target is narrower, saturating to infinity on
//! overflow and to zero on underflow.

use vstd::prelude::*;

verus! {

use vstd::arithmetic::power2::pow2;
use vstd::arithmetic::power2::lemma_pow2_adds;
use vstd::arithmetic::power2::lemma_pow2_pos;
use vstd::arithmetic::power2::lemma_pow2_strictly_increases;
use vstd::arithmetic::power2::lemma2_to64;
use vstd::arithmetic::power2::lemma2_to64_rest;
use vstd::arithmetic::div_mod::lemma_div_denominator;
use vstd::arithmetic::div_mod::lemma_div_basics;
use vstd::arithmetic::mul::lemma_mul_is_associative;
use vstd::arithmetic::mul::lemma_mul_inequality;
use vstd::arithmetic::mul::lemma_mul_upper_bound;
use vstd::bits::low_bits_mask;
use vstd::bits::lemma_u32_shl_is_mul;
use vstd::bits::lemma_u32_shr_is_div;
use vstd::bits::lemma_u32_low_bits_mask_is_mod;
use vstd::bits::lemma_u32_pow2_no_overflow;
use vstd::bits::lemma_u64_shl_is_mul;
use vstd::bits::lemma_u64_shr_is_div;
use vstd::bits::lemma_u64_low_bits_mask_is_mod;
use vstd::bits::lemma_u64_pow2_no_overflow;
use crate::rounding::floor_log2;
use crate::rounding::rne_div;
use crate::rounding::normalized_sig;
use crate::rounding::sticky_or_parity;
use crate::rounding::lemma_floor_log2_unique;
use crate::rounding::lemma_floor_log2_mul_pow2;
use crate::rounding::lemma_rne_shift;
use crate::rounding::lemma_rne_div_upper;
use crate::rounding::lemma_rne_div_lower;
use crate::rounding::lemma_rne_div_zero;
use crate::rounding::lemma_rne_div_mono;
use crate::rounding::lemma_rne_div_mono_same;

/// The 24-bit fraction field of a 32-bit IBM word.
pub open spec fn ibm32_fraction(x: u32) -> nat {
    (x & 0x00ff_ffff) as nat
}

/// The 7-bit biased exponent field of a 32-bit IBM word.
pub open spec fn ibm32_exponent(x: u32) -> nat {
    ((x >> 24) & 0x7f) as nat
}

/// The sign bit of a 32-bit IBM word, kept in place.
pub open spec fn ibm32_sign(x: u32) -> u32 {
    x & 0x8000_0000
}

/// The 56-bit fraction field of a 64-bit IBM word.
pub open spec fn ibm64_fraction(x: u64) -> nat {
    (x & 0x00ff_ffff_ffff_ffff) as nat
}

/// The 7-bit biased exponent field of a 64-bit IBM word.
pub open spec fn ibm64_exponent(x: u64) -> nat {
    ((x >> 56) & 0x7f) as nat
}

/// The sign bit of a 64-bit IBM word, kept in place.
pub open spec fn ibm64_sign(x: u64) -> u64 {
    x & 0x8000_0000_0000_0000
}

/// Ranges of the three fields of a 32-bit word.
proof fn lemma_ibm32_field_bounds(x: u32)
    ensures
        ibm32_exponent(x) <= 127,
        ibm32_fraction(x) < 0x0100_0000,
        ibm32_sign(x) == 0 || ibm32_sign(x) == 0x8000_0000,
{
    assert(((x >> 24) & 0x7f) <= 127 && (x & 0x00ff_ffff) < 0x0100_0000 && ((x & 0x8000_0000) == 0
        || (x & 0x8000_0000) == 0x8000_0000)) by (bit_vector);
}

/// Ranges of the three fields of a 64-bit word.
pub proof fn lemma_ibm64_field_bounds(x: u64)
    ensures
        ibm64_exponent(x) <= 127,
        ibm64_fraction(x) < 0x0100_0000_0000_0000,
        ibm64_sign(x) == 0 || ibm64_sign(x) == 0x8000_0000_0000_0000,
        (ibm64_sign(x) >> 32) == 0 || (ibm64_sign(x) >> 32) == 0x8000_0000,
{
    assert(((x >> 56) & 0x7f) <= 127 && (x & 0x00ff_ffff_ffff_ffff) < 0x0100_0000_0000_0000 && ((x
        & 0x8000_0000_0000_0000) == 0 || (x & 0x8000_0000_0000_0000) == 0x8000_0000_0000_0000) && (
    ((x & 0x8000_0000_0000_0000) >> 32) == 0 || ((x & 0x8000_0000_0000_0000) >> 32)
        == 0x8000_0000)) by (bit_vector);
}

/// Magnitude bits of the IEEE-754 binary32 value nearest to
/// `nsig * pow2(e - 149 - extra)`, where `nsig` is a normalized significand
/// carrying `extra` bits beyond the target's 24 (hidden bit included):
/// `pow2(23 + extra) <= nsig < pow2(24 + extra)`.
///
/// `e` is the converted exponent, one less than the biased IEEE exponent of a
/// normal result: the hidden bit is never stripped from `nsig`, so placing the
/// rounded significand by addition carries it into the exponent field.  A
/// converted exponent at or above 254 overflows to infinity; a negative one
/// puts the value below the normal range, where the significand is shifted
/// further right and rounded, giving a subnormal or zero.  Rounding is to
/// nearest, ties to even, throughout.
pub open spec fn ieee32_pack(nsig: nat, extra: nat, e: int) -> nat {
    if e >= 254 {
        0x7f80_0000
    } else if e >= 0 {
        e as nat * 0x80_0000 + rne_div(nsig, pow2(extra))
    } else {
        rne_div(nsig, pow2((extra + (0 - e)) as nat))
    }
}

/// Magnitude bits of the IEEE-754 binary64 value nearest to
/// `nsig * pow2(e - 1074 - extra)`, with `nsig` a normalized significand
/// carrying `extra` bits beyond the target's 53 (hidden bit included):
/// `pow2(52 + extra) <= nsig < pow2(53 + extra)`.
///
/// The converted exponent `e` plays the same role as in [`ieee32_pack`]; for
/// the 64-bit target its overflow and underflow branches are out of reach of
/// both IBM source widths.
pub open spec fn ieee64_pack(nsig: nat, extra: nat, e: int) -> nat {
    if e >= 2046 {
        0x7ff0_0000_0000_0000
    } else if e >= 0 {
        e as nat * 0x10_0000_0000_0000 + rne_div(nsig, pow2(extra))
    } else {
        rne_div(nsig, pow2((extra + (0 - e)) as nat))
    }
}

/// The IEEE-754 binary32 bit pattern denoting the real number held by the
/// 32-bit IBM word `x`, rounded to nearest with ties to even, overflowing to
/// infinity and underflowing to zero.
///
/// The word holds `(-1)^sign * fraction * pow2(4 * exponent - 280)`; with the
/// top set bit of a nonzero fraction at position `l`, its normalized
/// significand sits at `pow2(23)` and the converted binary32 exponent is
/// `4 * exponent + l - 154`.
pub open spec fn ieee32_of_ibm32(x: u32) -> u32 {
    let f = ibm32_fraction(x);
    if f == 0 {
        ibm32_sign(x)
    } else {
        let e = 4 * ibm32_exponent(x) + floor_log2(f) - 154;
        (ibm32_sign(x) + ieee32_pack(normalized_sig(f, 23), 0, e)) as u32
    }
}

/// The IEEE-754 binary64 bit pattern denoting exactly the real number held by
/// the 32-bit IBM word `x`.  The binary64 exponent range strictly contains
/// the convertible range and its significand is wider, so this widening never
/// rounds, overflows or underflows.
pub open spec fn ieee64_of_ibm32(x: u32) -> u64 {
    let f = ibm32_fraction(x);
    let sign = (ibm32_sign(x) as nat) * 0x1_0000_0000;
    if f == 0 {
        sign as u64
    } else {
        let e = 4 * ibm32_exponent(x) + floor_log2(f) + 742;
        (sign + ieee64_pack(normalized_sig(f, 52), 0, e as int)) as u64
    }
}

/// The IEEE-754 binary32 bit pattern denoting the real number held by the
/// 64-bit IBM word `x`, rounded to nearest with ties to even, overflowing to
/// infinity and underflowing to zero.  The 56-bit normalized significand
/// carries 32 bits beyond the target's 24, so the normal range rounds too.
pub open spec fn ieee32_of_ibm64(x: u64) -> u32 {
    let f = ibm64_fraction(x);
    let sign = (ibm64_sign(x) >> 32) as nat;
    if f == 0 {
        sign as u32
    } else {
        let e = 4 * ibm64_exponent(x) + floor_log2(f) - 186;
        (sign + ieee32_pack(normalized_sig(f, 55), 32, e)) as u32
    }
}

/// The IEEE-754 binary64 bit pattern denoting the real number held by the
/// 64-bit IBM word `x`, rounded to nearest with ties to even.  The 56-bit
/// normalized significand carries 3 bits beyond the target's 53, so most
/// conversions round; the exponent range cannot overflow or underflow.
pub open spec fn ieee64_of_ibm64(x: u64) -> u64 {
    let f = ibm64_fraction(x);
    if f == 0 {
        ibm64_sign(x)
    } else {
        let e = 4 * ibm64_exponent(x) + floor_log2(f) + 710;
        (ibm64_sign(x) as nat + ieee64_pack(normalized_sig(f, 55), 3, e as int)) as u64
    }
}

/// The three pieces of a rounding right-shift by `s + 1` on a `u32`: the
/// one-bit-early shift is a division, the mask test reads the sticky and
/// parity bits, and the halving of the incremented value completes a
/// round-to-nearest-even division by `pow2(s + 1)`.
proof fn lemma_u32_rne_parts(m: u32, s: u32)
    requires
        s < 32,
    ensures
        (m >> s) == m as nat / pow2(s as nat),
        ((m & !(0xffff_fffdu32 << s)) != 0) <==> sticky_or_parity(m as nat, s as nat) == 1,
        rne_div(m as nat, pow2(s as nat + 1)) == (m as nat / pow2(s as nat) + sticky_or_parity(
            m as nat,
            s as nat,
        )) / 2,
{
    lemma_u32_pow2_no_overflow(s as nat);
    lemma_u32_shr_is_div(m, s);
    assert((m & !(0xffff_fffdu32 << s)) != 0 <==> ((m & (((1u32 << s) - 1) as u32)) != 0 || ((m >> s)
        & 2) != 0)) by (bit_vector)
        requires
            s < 32,
    ;
    assert((1u32 << s) == pow2(s as nat)) by {
        lemma_u32_shl_is_mul(1u32, s);
    }
    assert((m & (((1u32 << s) - 1) as u32)) == m % (pow2(s as nat) as u32)) by {
        assert(((1u32 << s) - 1) as u32 == low_bits_mask(s as nat));
        lemma_u32_low_bits_mask_is_mod(m, s as nat);
    }
    let h = m >> s;
    assert(((h & 2) != 0) <==> ((h >> 1u32) % 2) == 1) by (bit_vector);
    assert(h >> 1u32 == h as nat / 2) by {
        lemma_u32_shr_is_div(h, 1);
        lemma2_to64();
    }
    assert(h as nat / 2 == m as nat / pow2(s as nat + 1)) by {
        lemma_pow2_pos(s as nat);
        lemma_div_denominator(m as int, pow2(s as nat) as int, 2);
        lemma_pow2_adds(s as nat, 1);
        lemma2_to64();
    }
    lemma_rne_shift(m as nat, s as nat);
}

/// The counterpart of [`lemma_u32_rne_parts`] for a `u64`.
proof fn lemma_u64_rne_parts(m: u64, s: u64)
    requires
        s < 64,
    ensures
        (m >> s) == m as nat / pow2(s as nat),
        ((m & !(0xffff_ffff_ffff_fffdu64 << s)) != 0) <==> sticky_or_parity(
            m as nat,
            s as nat,
        ) == 1,
        rne_div(m as nat, pow2(s as nat + 1)) == (m as nat / pow2(s as nat) + sticky_or_parity(
            m as nat,
            s as nat,
        )) / 2,
{
    lemma_u64_pow2_no_overflow(s as nat);
    lemma_u64_shr_is_div(m, s);
    assert((m & !(0xffff_ffff_ffff_fffdu64 << s)) != 0 <==> ((m & (((1u64 << s) - 1) as u64)) != 0 || ((m
        >> s) & 2) != 0)) by (bit_vector)
        requires
            s < 64,
    ;
    assert((1u64 << s) == pow2(s as nat)) by {
        lemma_u64_shl_is_mul(1u64, s);
    }
    assert((m & (((1u64 << s) - 1) as u64)) == m % (pow2(s as nat) as u64)) by {
        assert(((1u64 << s) - 1) as u64 == low_bits_mask(s as nat));
        lemma_u64_low_bits_mask_is_mod(m, s as nat);
    }
    let h = m >> s;
    assert(((h & 2) != 0) <==> ((h >> 1u64) % 2) == 1) by (bit_vector);
    assert(h >> 1u64 == h as nat / 2) by {
        lemma_u64_shr_is_div(h, 1);
        lemma2_to64();
    }
    assert(h as nat / 2 == m as nat / pow2(s as nat + 1)) by {
        lemma_pow2_pos(s as nat);
        lemma_div_denominator(m as int, pow2(s as nat) as int, 2);
        lemma_pow2_adds(s as nat, 1);
        lemma2_to64();
    }
    lemma_rne_shift(m as nat, s as nat);
}

/// Normalize a nonzero 32-bit fraction field: shift it up until its top set
/// bit reaches position 23, first a hex digit at a time and then by the 0 to
/// 3 leading zero bits of the top digit, read from a small table.  Returns
/// the normalized significand together with the word's binary exponent
/// (4 times the exponent field) less the shift applied.
fn normalize32(frac0: u32, exp: u32) -> (res: (u32, i32))
    requires
        0 < frac0 < 0x0100_0000,
        exp <= 127,
    ensures
        res.0 as nat == normalized_sig(frac0 as nat, 23),
        0x0080_0000 <= res.0 < 0x0100_0000,
        res.1 == 4 * exp - 23 + floor_log2(frac0 as nat),
        floor_log2(frac0 as nat) <= 23,
        -23 <= res.1 <= 508,
{
    let mut frac: u32 = frac0;
    let mut bexp: i32 = (exp as i32) * 4;
    let ghost f0: nat = frac0 as nat;
    let ghost mut k: nat = 0;
    proof {
        lemma2_to64();
        assert(frac as nat == f0 * pow2(0));
    }
    while frac & 0x00f0_0000 == 0
        invariant
            0 < frac < 0x0100_0000,
            frac as nat == f0 * pow2(4 * k),
            f0 > 0,
            k <= 5,
            exp <= 127,
            bexp == 4 * exp - 4 * k,
        decreases 0x0100_0000 - frac,
    {
        proof {
            assert(frac < 0x0010_0000 && (frac << 4u32) == frac * 16 && (frac << 4u32)
                > frac) by (bit_vector)
                requires
                    frac & 0x00f0_0000 == 0 && 0 < frac < 0x0100_0000,
            ;
            assert(f0 * pow2(4 * k) * 16 == f0 * pow2(4 * (k + 1))) by {
                lemma_pow2_adds(4 * k, 4);
                lemma2_to64();
                lemma_mul_is_associative(f0 as int, pow2(4 * k) as int, 16);
            }
            assert(k + 1 <= 5) by {
                if 4 * (k + 1) >= 24 {
                    lemma_pow2_pos(4 * (k + 1));
                    if 4 * (k + 1) > 24 {
                        lemma_pow2_strictly_increases(24, 4 * (k + 1));
                    }
                    lemma2_to64();
                    assert(pow2(4 * (k + 1)) <= f0 * pow2(4 * (k + 1))) by {
                        lemma_mul_inequality(1, f0 as int, pow2(4 * (k + 1)) as int);
                    }
                }
            }
        }
        frac = frac << 4;
        bexp = bexp - 4;
        proof {
            k = k + 1;
        }
    }
    proof {
        assert(((frac & 0x00f0_0000) >> 19) < 32) by (bit_vector);
    }
    let lz: u32 = (0x55afu32 >> ((frac & 0x00f0_0000) >> 19)) & 3;
    proof {
        assert(lz <= 3 && 0x0080_0000 <= (frac << lz) < 0x0100_0000) by (bit_vector)
            requires
                frac & 0x00f0_0000 != 0 && frac < 0x0100_0000 && lz == (0x55afu32 >> ((frac
                    & 0x00f0_0000) >> 19)) & 3,
        ;
    }
    let nfrac: u32 = frac << lz;
    proof {
        lemma2_to64();
        assert(pow2(lz as nat) <= 8);
        assert(frac * pow2(lz as nat) <= 0x00ff_ffff * 8) by {
            lemma_mul_upper_bound(frac as int, 0x00ff_ffff, pow2(lz as nat) as int, 8);
        }
        lemma_u32_shl_is_mul(frac, lz);
        assert(nfrac as nat == f0 * pow2(4 * k + lz as nat)) by {
            lemma_pow2_adds(4 * k, lz as nat);
            lemma_mul_is_associative(f0 as int, pow2(4 * k) as int, pow2(lz as nat) as int);
        }
        assert(floor_log2(nfrac as nat) == 23) by {
            lemma_floor_log2_unique(nfrac as nat, 23);
        }
        lemma_floor_log2_mul_pow2(f0, 4 * k + lz as nat);
        assert(floor_log2(f0) == 23 - (4 * k + lz as nat));
        assert(normalized_sig(f0, 23) == nfrac as nat);
    }
    (nfrac, bexp - (lz as i32))
}

/// The counterpart of [`normalize32`] for the 56-bit fraction field of a
/// 64-bit word, normalizing its top set bit to position 55.
fn normalize64(frac0: u64, exp: u32) -> (res: (u64, i32))
    requires
        0 < frac0 < 0x0100_0000_0000_0000,
        exp <= 127,
    ensures
        res.0 as nat == normalized_sig(frac0 as nat, 55),
        0x0080_0000_0000_0000 <= res.0 < 0x0100_0000_0000_0000,
        res.1 == 4 * exp - 55 + floor_log2(frac0 as nat),
        floor_log2(frac0 as nat) <= 55,
        -55 <= res.1 <= 508,
{
    let mut frac: u64 = frac0;
    let mut bexp: i32 = (exp as i32) * 4;
    let ghost f0: nat = frac0 as nat;
    let ghost mut k: nat = 0;
    proof {
        lemma2_to64();
        assert(frac as nat == f0 * pow2(0));
    }
    while frac & 0x00f0_0000_0000_0000 == 0
        invariant
            0 < frac < 0x0100_0000_0000_0000,
            frac as nat == f0 * pow2(4 * k),
            f0 > 0,
            k <= 13,
            exp <= 127,
            bexp == 4 * exp - 4 * k,
        decreases 0x0100_0000_0000_0000 - frac,
    {
        proof {
            assert(frac < 0x0010_0000_0000_0000 && (frac << 4u64) == frac * 16 && (frac << 4u64)
                > frac) by (bit_vector)
                requires
                    frac & 0x00f0_0000_0000_0000 == 0 && 0 < frac < 0x0100_0000_0000_0000,
            ;
            assert(f0 * pow2(4 * k) * 16 == f0 * pow2(4 * (k + 1))) by {
                lemma_pow2_adds(4 * k, 4);
                lemma2_to64();
                lemma_mul_is_associative(f0 as int, pow2(4 * k) as int, 16);
            }
            assert(k + 1 <= 13) by {
                if 4 * (k + 1) >= 56 {
                    lemma_pow2_pos(4 * (k + 1));
                    if 4 * (k + 1) > 56 {
                        lemma_pow2_strictly_increases(56, 4 * (k + 1));
                    }
                    lemma2_to64_rest();
                    assert(pow2(4 * (k + 1)) <= f0 * pow2(4 * (k + 1))) by {
                        lemma_mul_inequality(1, f0 as int, pow2(4 * (k + 1)) as int);
                    }
                }
            }
        }
        frac = frac << 4;
        bexp = bexp - 4;
        proof {
            k = k + 1;
        }
    }
    proof {
        assert(((frac & 0x00f0_0000_0000_0000) >> 51) < 64) by (bit_vector);
    }
    let lz: u64 = (0x55afu64 >> ((frac & 0x00f0_0000_0000_0000) >> 51)) & 3;
    proof {
        assert(lz <= 3 && 0x0080_0000_0000_0000 <= (frac << lz) < 0x0100_0000_0000_0000)
            by (bit_vector)
            requires
                frac & 0x00f0_0000_0000_0000 != 0 && frac < 0x0100_0000_0000_0000 && lz == (
                0x55afu64 >> ((frac & 0x00f0_0000_0000_0000) >> 51)) & 3,
        ;
    }
    let nfrac: u64 = frac << lz;
    proof {
        lemma2_to64();
        assert(pow2(lz as nat) <= 8);
        assert(frac * pow2(lz as nat) <= 0x00ff_ffff_ffff_ffff * 8) by {
            lemma_mul_upper_bound(frac as int, 0x00ff_ffff_ffff_ffff, pow2(lz as nat) as int, 8);
        }
        lemma_u64_shl_is_mul(frac, lz);
        assert(nfrac as nat == f0 * pow2(4 * k + lz as nat)) by {
            lemma_pow2_adds(4 * k, lz as nat);
            lemma_mul_is_associative(f0 as int, pow2(4 * k) as int, pow2(lz as nat) as int);
        }
        assert(floor_log2(nfrac as nat) == 55) by {
            lemma2_to64_rest();
            lemma_floor_log2_unique(nfrac as nat, 55);
        }
        lemma_floor_log2_mul_pow2(f0, 4 * k + lz as nat);
        assert(floor_log2(f0) == 55 - (4 * k + lz as nat));
        assert(normalized_sig(f0, 55) == nfrac as nat);
    }
    (nfrac, bexp - (lz as i32))
}

/// Convert a native-endian 32-bit IBM float to a native-endian IEEE-754
/// binary32 bit pattern, rounding to nearest with ties to even.  Total:
/// overflow returns signed infinity, underflow signed zero, never an error.
pub fn ibm32ieee32(ibm: u32) -> (r: u32)
    ensures
        r == ieee32_of_ibm32(ibm),
{
    let ieee_sign: u32 = ibm & 0x8000_0000;
    let frac: u32 = ibm & 0x00ff_ffff;
    proof {
        lemma_ibm32_field_bounds(ibm);
    }
    if frac == 0 {
        return ieee_sign;
    }
    let exp: u32 = (ibm >> 24) & 0x7f;
    let (nfrac, be) = normalize32(frac, exp);
    let e: i32 = be - 131;
    proof {
        assert(e == 4 * ibm32_exponent(ibm) + floor_log2(frac as nat) - 154);
        assert(frac as nat == ibm32_fraction(ibm));
    }
    if e >= 254 {
        ieee_sign + 0x7f80_0000
    } else if e >= 0 {
        let ee: u32 = (e as u32) << 23u32;
        proof {
            lemma2_to64();
            assert((e as u32) * pow2(23) <= 253 * 0x80_0000) by {
                lemma_mul_inequality(e as int, 253, pow2(23) as int);
            }
            lemma_u32_shl_is_mul(e as u32, 23);
            assert(rne_div(nfrac as nat, pow2(0)) == nfrac as nat) by {
                lemma_div_basics(nfrac as int);
            }
        }
        ieee_sign + ee + nfrac
    } else if e >= -32 {
        let s: u32 = (-1 - e) as u32;
        let mask: u32 = !(0xffff_fffdu32 << s);
        let round: u32 = if nfrac & mask != 0 {
            1
        } else {
            0
        };
        let shifted: u32 = nfrac >> s;
        proof {
            lemma_u32_rne_parts(nfrac, s);
            assert(shifted <= nfrac) by {
                lemma_pow2_pos(s as nat);
                vstd::arithmetic::div_mod::lemma_div_is_ordered_by_denominator(
                    nfrac as int,
                    1,
                    pow2(s as nat) as int,
                );
                lemma_div_basics(nfrac as int);
            }
        }
        let fracr: u32 = (shifted + round) >> 1u32;
        proof {
            lemma_u32_shr_is_div((shifted + round) as u32, 1);
            lemma2_to64();
            assert(fracr == rne_div(nfrac as nat, pow2(s as nat + 1)));
            assert(s as nat + 1 == 0 + (0 - e as int));
            assert(fracr <= 0x80_0000) by {
                lemma_pow2_pos(s as nat + 1);
                assert(pow2(s as nat + 1) >= 2) by {
                    if s as nat + 1 > 1 {
                        lemma_pow2_strictly_increases(1, s as nat + 1);
                    }
                }
                assert(nfrac as nat <= 0x80_0000 * pow2(s as nat + 1)) by {
                    lemma_mul_inequality(2, pow2(s as nat + 1) as int, 0x80_0000);
                }
                lemma_rne_div_upper(nfrac as nat, pow2(s as nat + 1), 0x80_0000);
            }
        }
        ieee_sign + fracr
    } else {
        proof {
            let n = (0 - e as int) as nat;
            assert(rne_div(nfrac as nat, pow2(0 + n)) == 0) by {
                assert(pow2(25) <= pow2(n)) by {
                    lemma_pow2_strictly_increases(25, n);
                }
                lemma2_to64();
                lemma_rne_div_zero(nfrac as nat, pow2(n));
            }
        }
        ieee_sign
    }
}

/// Convert a native-endian 32-bit IBM float to a native-endian IEEE-754
/// binary64 bit pattern.  This widening is exact: it never rounds,
/// overflows or underflows.
pub fn ibm32ieee64(ibm: u32) -> (r: u64)
    ensures
        r == ieee64_of_ibm32(ibm),
{
    let sign32: u32 = ibm & 0x8000_0000;
    let ieee_sign: u64 = (sign32 as u64) << 32u64;
    let frac: u32 = ibm & 0x00ff_ffff;
    proof {
        lemma_ibm32_field_bounds(ibm);
        lemma2_to64();
        assert((sign32 as u64) * pow2(32) <= 0x8000_0000 * 0x1_0000_0000) by {
            lemma_mul_inequality(sign32 as int, 0x8000_0000, pow2(32) as int);
        }
        lemma_u64_shl_is_mul(sign32 as u64, 32);
    }
    if frac == 0 {
        return ieee_sign;
    }
    let exp: u32 = (ibm >> 24) & 0x7f;
    let (nfrac, be) = normalize32(frac, exp);
    let e: i32 = be + 765;
    let nsig: u64 = (nfrac as u64) << 29u64;
    proof {
        lemma2_to64();
        assert((nfrac as u64) * pow2(29) <= 0x0100_0000 * 0x2000_0000) by {
            lemma_mul_inequality(nfrac as int, 0x0100_0000, pow2(29) as int);
        }
        lemma_u64_shl_is_mul(nfrac as u64, 29);
        assert(nsig as nat == normalized_sig(frac as nat, 52)) by {
            let l = floor_log2(frac as nat);
            lemma_pow2_adds((23 - l) as nat, 29);
            lemma_mul_is_associative(frac as int, pow2((23 - l) as nat) as int, pow2(29) as int);
        }
        assert((0x0010_0000_0000_0000 <= (nsig as nat)) && ((nsig as nat) < 0x0020_0000_0000_0000)) by {
            lemma_mul_inequality(0x0080_0000, nfrac as int, pow2(29) as int);
            vstd::arithmetic::mul::lemma_mul_strict_inequality(
                nfrac as int,
                0x0100_0000,
                pow2(29) as int,
            );
        }
    }
    let ee: u64 = (e as u64) << 52u64;
    proof {
        lemma2_to64_rest();
        assert((e as u64) * pow2(52) <= 1273 * 0x10_0000_0000_0000) by {
            lemma_mul_inequality(e as int, 1273, pow2(52) as int);
        }
        lemma_u64_shl_is_mul(e as u64, 52);
        assert(rne_div(nsig as nat, pow2(0)) == nsig as nat) by {
            lemma2_to64();
            lemma_div_basics(nsig as int);
        }
        assert(e == 4 * ibm32_exponent(ibm) + floor_log2(frac as nat) + 742);
        assert(frac as nat == ibm32_fraction(ibm));
    }
    ieee_sign + ee + nsig
}

/// Convert a native-endian 64-bit IBM float to a native-endian IEEE-754
/// binary32 bit pattern, rounding to nearest with ties to even.  Total:
/// overflow returns signed infinity, underflow signed zero, never an error.
pub fn ibm64ieee32(ibm: u64) -> (r: u32)
    ensures
        r == ieee32_of_ibm64(ibm),
{
    let ieee_sign: u32 = ((ibm & 0x8000_0000_0000_0000) >> 32) as u32;
    let frac: u64 = ibm & 0x00ff_ffff_ffff_ffff;
    proof {
        lemma_ibm64_field_bounds(ibm);
    }
    if frac == 0 {
        return ieee_sign;
    }
    let exp: u32 = ((ibm >> 56) & 0x7f) as u32;
    let (nfrac, be) = normalize64(frac, exp);
    let e: i32 = be - 131;
    proof {
        assert(e == 4 * ibm64_exponent(ibm) + floor_log2(frac as nat) - 186);
        assert(frac as nat == ibm64_fraction(ibm));
    }
    if e >= 254 {
        ieee_sign + 0x7f80_0000
    } else if e >= 0 {
        let round: u64 = if nfrac & 0x0001_7fff_ffff != 0 {
            1
        } else {
            0
        };
        let shifted: u64 = nfrac >> 31u64;
        proof {
            assert(0x0001_7fff_ffffu64 == !(0xffff_ffff_ffff_fffdu64 << 31u64)) by (bit_vector);
            lemma_u64_rne_parts(nfrac, 31);
            assert(shifted <= nfrac) by (bit_vector)
                requires
                    shifted == nfrac >> 31u64,
            ;
        }
        let fracr64: u64 = (shifted + round) >> 1u64;
        proof {
            lemma_u64_shr_is_div((shifted + round) as u64, 1);
            lemma2_to64();
            assert(fracr64 == rne_div(nfrac as nat, pow2(32)));
            assert(fracr64 <= 0x0100_0000) by {
                lemma2_to64_rest();
                assert(nfrac as nat <= 0x0100_0000 * pow2(32));
                lemma_rne_div_upper(nfrac as nat, pow2(32), 0x0100_0000);
            }
        }
        let fracr: u32 = fracr64 as u32;
        let ee: u32 = (e as u32) << 23u32;
        proof {
            lemma2_to64();
            assert((e as u32) * pow2(23) <= 253 * 0x80_0000) by {
                lemma_mul_inequality(e as int, 253, pow2(23) as int);
            }
            lemma_u32_shl_is_mul(e as u32, 23);
        }
        ieee_sign + ee + fracr
    } else if e >= -32 {
        let s: u64 = (31 - e) as u64;
        let mask: u64 = !(0xffff_ffff_ffff_fffdu64 << s);
        let round: u64 = if nfrac & mask != 0 {
            1
        } else {
            0
        };
        let shifted: u64 = nfrac >> s;
        proof {
            lemma_u64_rne_parts(nfrac, s);
            assert(shifted <= nfrac) by {
                lemma_pow2_pos(s as nat);
                vstd::arithmetic::div_mod::lemma_div_is_ordered_by_denominator(
                    nfrac as int,
                    1,
                    pow2(s as nat) as int,
                );
                lemma_div_basics(nfrac as int);
            }
        }
        let fracr64: u64 = (shifted + round) >> 1u64;
        proof {
            lemma_u64_shr_is_div((shifted + round) as u64, 1);
            lemma2_to64();
            assert(fracr64 == rne_div(nfrac as nat, pow2(s as nat + 1)));
            assert(s as nat + 1 == 32 + (0 - e as int));
            assert(fracr64 <= 0x80_0000) by {
                assert(pow2(33) <= pow2(s as nat + 1)) by {
                    if 33 < s as nat + 1 {
                        lemma_pow2_strictly_increases(33, s as nat + 1);
                    }
                }
                lemma2_to64_rest();
                assert(nfrac as nat <= 0x80_0000 * pow2(s as nat + 1)) by {
                    lemma_mul_inequality(pow2(33) as int, pow2(s as nat + 1) as int, 0x80_0000);
                }
                lemma_rne_div_upper(nfrac as nat, pow2(s as nat + 1), 0x80_0000);
            }
        }
        ieee_sign + (fracr64 as u32)
    } else {
        proof {
            let n = (32 + (0 - e as int)) as nat;
            assert(rne_div(nfrac as nat, pow2(n)) == 0) by {
                assert(pow2(57) <= pow2(n)) by {
                    lemma_pow2_strictly_increases(57, n);
                }
                lemma2_to64_rest();
                lemma_rne_div_zero(nfrac as nat, pow2(n));
            }
        }
        ieee_sign
    }
}

/// Convert a native-endian 64-bit IBM float to a native-endian IEEE-754
/// binary64 bit pattern, rounding to nearest with ties to even.  The
/// exponent range cannot overflow or underflow, so the result is always the
/// nearest finite value.
pub fn ibm64ieee64(ibm: u64) -> (r: u64)
    ensures
        r == ieee64_of_ibm64(ibm),
{
    let ieee_sign: u64 = ibm & 0x8000_0000_0000_0000;
    let frac: u64 = ibm & 0x00ff_ffff_ffff_ffff;
    proof {
        lemma_ibm64_field_bounds(ibm);
    }
    if frac == 0 {
        return ieee_sign;
    }
    let exp: u32 = ((ibm >> 56) & 0x7f) as u32;
    let (nfrac, be) = normalize64(frac, exp);
    let e: i32 = be + 765;
    proof {
        assert(e == 4 * ibm64_exponent(ibm) + floor_log2(frac as nat) + 710);
        assert(frac as nat == ibm64_fraction(ibm));
    }
    let round: u64 = if nfrac & 0xb != 0 {
        1
    } else {
        0
    };
    let shifted: u64 = nfrac >> 2u64;
    proof {
        assert(0xbu64 == !(0xffff_ffff_ffff_fffdu64 << 2u64)) by (bit_vector);
        lemma_u64_rne_parts(nfrac, 2);
        assert(shifted <= nfrac) by (bit_vector)
            requires
                shifted == nfrac >> 2u64,
        ;
    }
    let fracr: u64 = (shifted + round) >> 1u64;
    proof {
        lemma_u64_shr_is_div((shifted + round) as u64, 1);
        lemma2_to64();
        assert(fracr == rne_div(nfrac as nat, pow2(3)));
        assert(fracr <= 0x0020_0000_0000_0000) by {
            lemma2_to64_rest();
            assert(nfrac as nat <= 0x0020_0000_0000_0000 * 8);
            lemma_rne_div_upper(nfrac as nat, pow2(3), 0x0020_0000_0000_0000);
        }
    }
    let ee: u64 = (e as u64) << 52u64;
    proof {
        lemma2_to64_rest();
        assert((e as u64) * pow2(52) <= 1273 * 0x10_0000_0000_0000) by {
            lemma_mul_inequality(e as int, 1273, pow2(52) as int);
        }
        lemma_u64_shl_is_mul(e as u64, 52);
    }
    ieee_sign + ee + fracr
}

/// The packed binary32 magnitude never exceeds the infinity pattern.
proof fn lemma_ieee32_pack_bound(nsig: nat, extra: nat, e: int)
    requires
        nsig < pow2(24 + extra),
    ensures
        ieee32_pack(nsig, extra, e) <= 0x7f80_0000,
{
    lemma_pow2_pos(extra);
    lemma_pow2_adds(23, extra);
    lemma_pow2_adds(24, extra);
    lemma2_to64();
    if e >= 254 {
    } else if e >= 0 {
        assert(rne_div(nsig, pow2(extra)) <= 0x0100_0000) by {
            lemma_rne_div_upper(nsig, pow2(extra), 0x0100_0000);
        }
        assert(e as nat * 0x80_0000 <= 253 * 0x80_0000) by {
            lemma_mul_inequality(e, 253, 0x80_0000);
        }
    } else {
        let k = (extra + (0 - e)) as nat;
        assert(rne_div(nsig, pow2(k)) <= 0x80_0000) by {
            assert(pow2(extra + 1) <= pow2(k)) by {
                if extra + 1 < k {
                    lemma_pow2_strictly_increases(extra + 1, k);
                }
            }
            lemma_pow2_adds(23, extra + 1);
            lemma_pow2_adds(extra, 1);
            assert(nsig <= 0x80_0000 * pow2(k)) by {
                lemma_mul_inequality(pow2(extra + 1) as int, pow2(k) as int, 0x80_0000);
            }
            lemma_rne_div_upper(nsig, pow2(k), 0x80_0000);
        }
    }
}

/// The packed binary64 magnitude never exceeds the infinity pattern.
pub proof fn lemma_ieee64_pack_bound(nsig: nat, extra: nat, e: int)
    requires
        nsig < pow2(53 + extra),
    ensures
        ieee64_pack(nsig, extra, e) <= 0x7ff0_0000_0000_0000,
{
    lemma_pow2_pos(extra);
    lemma_pow2_adds(52, extra);
    lemma_pow2_adds(53, extra);
    lemma2_to64_rest();
    if e >= 2046 {
    } else if e >= 0 {
        assert(rne_div(nsig, pow2(extra)) <= 0x20_0000_0000_0000) by {
            lemma_rne_div_upper(nsig, pow2(extra), 0x20_0000_0000_0000);
        }
        assert(e as nat * 0x10_0000_0000_0000 <= 2045 * 0x10_0000_0000_0000) by {
            lemma_mul_inequality(e, 2045, 0x10_0000_0000_0000);
        }
    } else {
        let k = (extra + (0 - e)) as nat;
        assert(rne_div(nsig, pow2(k)) <= 0x10_0000_0000_0000) by {
            assert(pow2(extra + 1) <= pow2(k)) by {
                if extra + 1 < k {
                    lemma_pow2_strictly_increases(extra + 1, k);
                }
            }
            lemma_pow2_adds(52, extra + 1);
            lemma_pow2_adds(extra, 1);
            assert(nsig <= 0x10_0000_0000_0000 * pow2(k)) by {
                lemma_mul_inequality(pow2(extra + 1) as int, pow2(k) as int, 0x10_0000_0000_0000);
            }
            lemma_rne_div_upper(nsig, pow2(k), 0x10_0000_0000_0000);
        }
    }
}

/// With both significands normalized, the packed binary32 magnitude
/// respects the lexicographic order of (converted exponent, significand),
/// which is the order of the represented values.
proof fn lemma_ieee32_pack_mono(n1: nat, n2: nat, extra: nat, e1: int, e2: int)
    requires
        pow2(23 + extra) <= n1 < pow2(24 + extra),
        pow2(23 + extra) <= n2 < pow2(24 + extra),
        e1 <= e2,
        e1 == e2 ==> n1 <= n2,
    ensures
        ieee32_pack(n1, extra, e1) <= ieee32_pack(n2, extra, e2),
{
    lemma_pow2_pos(extra);
    lemma_pow2_adds(23, extra);
    lemma_pow2_adds(24, extra);
    lemma2_to64();
    let m1 = rne_div(n1, pow2(extra));
    let m2 = rne_div(n2, pow2(extra));
    assert(0x80_0000 <= m1 <= 0x0100_0000 && 0x80_0000 <= m2 <= 0x0100_0000) by {
        lemma_rne_div_lower(n1, pow2(extra), 0x80_0000);
        lemma_rne_div_upper(n1, pow2(extra), 0x0100_0000);
        lemma_rne_div_lower(n2, pow2(extra), 0x80_0000);
        lemma_rne_div_upper(n2, pow2(extra), 0x0100_0000);
    }
    if e1 >= 254 {
    } else if e1 >= 0 {
        if e2 >= 254 {
            assert(e1 as nat * 0x80_0000 <= 253 * 0x80_0000) by {
                lemma_mul_inequality(e1, 253, 0x80_0000);
            }
        } else if e1 == e2 {
            lemma_rne_div_mono_same(n1, n2, pow2(extra));
        } else {
            assert((e1 + 2) * 0x80_0000 <= (e2 + 1) * 0x80_0000) by {
                lemma_mul_inequality(e1 + 2, e2 + 1, 0x80_0000);
            }
            assert((e1 + 2) * 0x80_0000 == e1 * 0x80_0000 + 2 * 0x80_0000) by {
                vstd::arithmetic::mul::lemma_mul_is_distributive_add_other_way(0x80_0000, e1, 2);
            }
            assert((e2 + 1) * 0x80_0000 == e2 * 0x80_0000 + 1 * 0x80_0000) by {
                vstd::arithmetic::mul::lemma_mul_is_distributive_add_other_way(0x80_0000, e2, 1);
            }
        }
    } else {
        let k1 = (extra + (0 - e1)) as nat;
        assert(rne_div(n1, pow2(k1)) <= 0x80_0000) by {
            assert(pow2(extra + 1) <= pow2(k1)) by {
                if extra + 1 < k1 {
                    lemma_pow2_strictly_increases(extra + 1, k1);
                }
            }
            lemma_pow2_adds(23, extra + 1);
            lemma_pow2_adds(extra, 1);
            assert(n1 <= 0x80_0000 * pow2(k1)) by {
                lemma_mul_inequality(pow2(extra + 1) as int, pow2(k1) as int, 0x80_0000);
            }
            lemma_rne_div_upper(n1, pow2(k1), 0x80_0000);
        }
        if e2 >= 254 {
        } else if e2 >= 0 {
            assert(e2 as nat * 0x80_0000 + m2 >= 0x80_0000);
        } else {
            let k2 = (extra + (0 - e2)) as nat;
            if e1 == e2 {
                assert(n1 * pow2(k2) <= n2 * pow2(k1)) by {
                    lemma_mul_inequality(n1 as int, n2 as int, pow2(k2) as int);
                }
            } else {
                let d = (k1 - k2) as nat;
                assert(pow2(k1) == pow2(d) * pow2(k2)) by {
                    lemma_pow2_adds(d, k2);
                }
                assert(2 <= pow2(d)) by {
                    if 1 < d {
                        lemma_pow2_strictly_increases(1, d);
                    }
                }
                assert(n1 <= n2 * pow2(d)) by {
                    assert(2 * pow2(23 + extra) <= pow2(d) * n2) by (nonlinear_arith)
                        requires
                            2 <= pow2(d),
                            pow2(23 + extra) <= n2,
                    ;
                    lemma_pow2_adds(23 + extra, 1);
                }
                assert(n1 * pow2(k2) <= n2 * pow2(k1)) by {
                    lemma_mul_inequality(n1 as int, (n2 * pow2(d)) as int, pow2(k2) as int);
                    lemma_mul_is_associative(n2 as int, pow2(d) as int, pow2(k2) as int);
                }
            }
            lemma_rne_div_mono(n1, k1, n2, k2);
        }
    }
}

/// The binary64 counterpart of [`lemma_ieee32_pack_mono`], for converted
/// exponents inside the normal range — the only ones either IBM source
/// width can produce.
proof fn lemma_ieee64_pack_mono(n1: nat, n2: nat, extra: nat, e1: int, e2: int)
    requires
        pow2(52 + extra) <= n1 < pow2(53 + extra),
        pow2(52 + extra) <= n2 < pow2(53 + extra),
        0 <= e1 <= e2 < 2046,
        e1 == e2 ==> n1 <= n2,
    ensures
        ieee64_pack(n1, extra, e1) <= ieee64_pack(n2, extra, e2),
{
    lemma_pow2_pos(extra);
    lemma_pow2_adds(52, extra);
    lemma_pow2_adds(53, extra);
    lemma2_to64_rest();
    let m1 = rne_div(n1, pow2(extra));
    let m2 = rne_div(n2, pow2(extra));
    assert(0x10_0000_0000_0000 <= m1 <= 0x20_0000_0000_0000 && 0x10_0000_0000_0000 <= m2
        <= 0x20_0000_0000_0000) by {
        lemma_rne_div_lower(n1, pow2(extra), 0x10_0000_0000_0000);
        lemma_rne_div_upper(n1, pow2(extra), 0x20_0000_0000_0000);
        lemma_rne_div_lower(n2, pow2(extra), 0x10_0000_0000_0000);
        lemma_rne_div_upper(n2, pow2(extra), 0x20_0000_0000_0000);
    }
    if e1 == e2 {
        lemma_rne_div_mono_same(n1, n2, pow2(extra));
    } else {
        assert((e1 + 2) * 0x10_0000_0000_0000 <= (e2 + 1) * 0x10_0000_0000_0000) by {
            lemma_mul_inequality(e1 + 2, e2 + 1, 0x10_0000_0000_0000);
        }
        assert((e1 + 2) * 0x10_0000_0000_0000 == e1 * 0x10_0000_0000_0000 + 2
            * 0x10_0000_0000_0000) by {
            vstd::arithmetic::mul::lemma_mul_is_distributive_add_other_way(
                0x10_0000_0000_0000,
                e1,
                2,
            );
        }
        assert((e2 + 1) * 0x10_0000_0000_0000 == e2 * 0x10_0000_0000_0000 + 1
            * 0x10_0000_0000_0000) by {
            vstd::arithmetic::mul::lemma_mul_is_distributive_add_other_way(
                0x10_0000_0000_0000,
                e2,
                1,
            );
        }
    }
}

/// Zero law: a zero fraction field converts to the sign bit alone, whatever
/// the exponent bits hold.
pub proof fn lemma_ibm32ieee32_zero(x: u32)
    requires
        x & 0x00ff_ffff == 0,
    ensures
        ieee32_of_ibm32(x) == x & 0x8000_0000,
{
}

/// Zero law for the widening conversion: a zero fraction field converts to
/// the sign bit placed at the 64-bit sign position.
pub proof fn lemma_ibm32ieee64_zero(x: u32)
    requires
        x & 0x00ff_ffff == 0,
    ensures
        ieee64_of_ibm32(x) == ((x & 0x8000_0000) as u64) << 32u64,
{
    lemma_ibm32_field_bounds(x);
    lemma2_to64();
    assert(((x & 0x8000_0000) as u64) * pow2(32) <= 0x8000_0000 * 0x1_0000_0000) by {
        lemma_mul_inequality((x & 0x8000_0000) as int, 0x8000_0000, pow2(32) as int);
    }
    lemma_u64_shl_is_mul((x & 0x8000_0000) as u64, 32);
}

/// Zero law for the narrowing conversion: a zero fraction field converts to
/// the sign bit placed at the 32-bit sign position.
pub proof fn lemma_ibm64ieee32_zero(x: u64)
    requires
        x & 0x00ff_ffff_ffff_ffff == 0,
    ensures
        ieee32_of_ibm64(x) == ((x & 0x8000_0000_0000_0000) >> 32) as u32,
{
    lemma_ibm64_field_bounds(x);
}

/// Zero law: a zero fraction field converts to the sign bit alone, whatever
/// the exponent bits hold.
pub proof fn lemma_ibm64ieee64_zero(x: u64)
    requires
        x & 0x00ff_ffff_ffff_ffff == 0,
    ensures
        ieee64_of_ibm64(x) == x & 0x8000_0000_0000_0000,
{
}

/// Round-half-to-even: when the bits that the 64-bit-to-64-bit conversion
/// discards form an exact tie — the normalized significand's low three bits
/// are one-zero-zero — the rounded significand is even, so the result's
/// lowest bit is clear, where rounding always up or always down would set it
/// on half of such inputs.
pub proof fn lemma_ibm64ieee64_tie_rounds_even(x: u64)
    requires
        ibm64_fraction(x) != 0,
        normalized_sig(ibm64_fraction(x), 55) % 8 == 4,
    ensures
        ieee64_of_ibm64(x) % 2 == 0,
{
    lemma_ibm64_field_bounds(x);
    lemma2_to64();
    lemma2_to64_rest();
    let f = ibm64_fraction(x);
    let s = ibm64_sign(x);
    crate::rounding::lemma_floor_log2_below(f, 55);
    let l = floor_log2(f);
    let n = normalized_sig(f, 55);
    crate::rounding::lemma_normalized_sig_bounds(f, 55);
    let e = 4 * ibm64_exponent(x) + l + 710;
    let m = rne_div(n, pow2(3));
    assert(m % 2 == 0) by {
        crate::rounding::lemma_rne_div_tie_even(n, 8);
    }
    assert(m <= 0x20_0000_0000_0000) by {
        lemma_rne_div_upper(n, 8, 0x20_0000_0000_0000);
    }
    let ep = (e as nat) * 0x10_0000_0000_0000;
    assert(ep % 2 == 0 && ep <= 1273 * 0x10_0000_0000_0000) by {
        lemma_mul_inequality(e as int, 1273, 0x10_0000_0000_0000);
        lemma_mul_is_associative(e as int, 0x08_0000_0000_0000, 2);
        vstd::arithmetic::div_mod::lemma_mod_multiples_basic(e as int * 0x08_0000_0000_0000, 2);
    }
    assert((s as nat + ep + m) % 2 == 0) by {
        assert(s % 2 == 0);
        vstd::arithmetic::div_mod::lemma_add_mod_noop(s as int, ep as int, 2);
        vstd::arithmetic::div_mod::lemma_add_mod_noop(s as int + ep, m as int, 2);
    }
    assert(ieee64_of_ibm64(x) == s as nat + ep + m);
}

/// Round-half-to-even in the narrowing conversion's normal range: when the
/// 32 discarded bits form an exact tie, the rounded significand is even, so
/// the result's lowest bit is clear.
pub proof fn lemma_ibm64ieee32_tie_rounds_even(x: u64)
    requires
        ibm64_fraction(x) != 0,
        normalized_sig(ibm64_fraction(x), 55) % 0x1_0000_0000 == 0x8000_0000,
        0 <= 4 * ibm64_exponent(x) + floor_log2(ibm64_fraction(x)) - 186 < 254,
    ensures
        ieee32_of_ibm64(x) % 2 == 0,
{
    lemma_ibm64_field_bounds(x);
    lemma2_to64();
    lemma2_to64_rest();
    let f = ibm64_fraction(x);
    let s = (ibm64_sign(x) >> 32) as nat;
    crate::rounding::lemma_floor_log2_below(f, 55);
    crate::rounding::lemma_normalized_sig_bounds(f, 55);
    let n = normalized_sig(f, 55);
    let e = 4 * ibm64_exponent(x) + floor_log2(f) - 186;
    let m = rne_div(n, pow2(32));
    assert(m % 2 == 0) by {
        crate::rounding::lemma_rne_div_tie_even(n, 0x1_0000_0000);
    }
    assert(m <= 0x0100_0000) by {
        lemma_rne_div_upper(n, pow2(32), 0x0100_0000);
    }
    let ep = (e as nat) * 0x80_0000;
    assert(ep % 2 == 0 && ep <= 253 * 0x80_0000) by {
        lemma_mul_inequality(e, 253, 0x80_0000);
        lemma_mul_is_associative(e, 0x40_0000, 2);
        vstd::arithmetic::div_mod::lemma_mod_multiples_basic(e * 0x40_0000, 2);
    }
    assert((s + ep + m) % 2 == 0) by {
        assert(s % 2 == 0);
        vstd::arithmetic::div_mod::lemma_add_mod_noop(s as int, ep as int, 2);
        vstd::arithmetic::div_mod::lemma_add_mod_noop(s as int + ep, m as int, 2);
    }
    assert(ieee32_of_ibm64(x) == s + ep + m);
}

/// Round-half-to-even below the normal range: when the bits discarded by
/// the subnormal shift of the 32-bit conversion form an exact tie, the
/// rounded significand is even, so the result's lowest bit is clear.
pub proof fn lemma_ibm32ieee32_subnormal_tie_rounds_even(x: u32)
    requires
        ibm32_fraction(x) != 0,
        4 * ibm32_exponent(x) + floor_log2(ibm32_fraction(x)) - 154 < 0,
        2 * (normalized_sig(ibm32_fraction(x), 23) % pow2(
            (154 - 4 * ibm32_exponent(x) - floor_log2(ibm32_fraction(x))) as nat,
        )) == pow2((154 - 4 * ibm32_exponent(x) - floor_log2(ibm32_fraction(x))) as nat),
    ensures
        ieee32_of_ibm32(x) % 2 == 0,
{
    lemma_ibm32_field_bounds(x);
    lemma2_to64();
    let f = ibm32_fraction(x);
    let s = ibm32_sign(x);
    crate::rounding::lemma_floor_log2_below(f, 23);
    crate::rounding::lemma_normalized_sig_bounds(f, 23);
    let n = normalized_sig(f, 23);
    let e = 4 * ibm32_exponent(x) + floor_log2(f) - 154;
    let d = pow2((0 - e) as nat);
    lemma_pow2_pos((0 - e) as nat);
    let m = rne_div(n, d);
    assert(m % 2 == 0) by {
        crate::rounding::lemma_rne_div_tie_even(n, d);
    }
    assert(m <= 0x80_0000) by {
        assert(2 <= d) by {
            if 1 < (0 - e) as nat {
                lemma_pow2_strictly_increases(1, (0 - e) as nat);
            }
        }
        assert(n <= 0x80_0000 * d) by {
            lemma_mul_inequality(2, d as int, 0x80_0000);
        }
        lemma_rne_div_upper(n, d, 0x80_0000);
    }
    assert((s as nat + m) % 2 == 0) by {
        assert(s % 2 == 0);
        vstd::arithmetic::div_mod::lemma_add_mod_noop(s as int, m as int, 2);
    }
    assert(ieee32_of_ibm32(x) == s as nat + m);
}

/// Magnitude bits of a packed binary32 word: clearing the sign bit of
/// `sign + magnitude` gives the magnitude back.
proof fn lemma_u32_mag_extract(r: u32, s: u32, m: u32)
    requires
        s == 0 || s == 0x8000_0000,
        m <= 0x7f80_0000,
        r == s + m,
    ensures
        r & 0x7fff_ffff == m,
{
    assert(r & 0x7fff_ffff == m) by (bit_vector)
        requires
            (s == 0 || s == 0x8000_0000) && m <= 0x7f80_0000 && r == s + m,
    ;
}

/// Magnitude bits of a packed binary64 word: clearing the sign bit of
/// `sign + magnitude` gives the magnitude back.
proof fn lemma_u64_mag_extract(r: u64, s: u64, m: u64)
    requires
        s == 0 || s == 0x8000_0000_0000_0000,
        m <= 0x7ff0_0000_0000_0000,
        r == s + m,
    ensures
        r & 0x7fff_ffff_ffff_ffff == m,
{
    assert(r & 0x7fff_ffff_ffff_ffff == m) by (bit_vector)
        requires
            (s == 0 || s == 0x8000_0000_0000_0000) && m <= 0x7ff0_0000_0000_0000 && r == s + m,
    ;
}

/// Monotonicity under fraction increments: adding one to the fraction field
/// of a 32-bit word, without carrying into the exponent field, never
/// decreases the converted binary32 magnitude — IEEE-754 magnitudes order as
/// their magnitude bits.
pub proof fn lemma_ibm32ieee32_fraction_monotone(x: u32)
    requires
        x & 0x00ff_ffff < 0x00ff_ffff,
    ensures
        ieee32_of_ibm32(x) & 0x7fff_ffff <= ieee32_of_ibm32((x + 1) as u32) & 0x7fff_ffff,
{
    let y = (x + 1) as u32;
    assert(y & 0x8000_0000 == x & 0x8000_0000 && (y >> 24) & 0x7f == (x >> 24) & 0x7f && y
        & 0x00ff_ffff == (x & 0x00ff_ffff) + 1) by (bit_vector)
        requires
            x & 0x00ff_ffff < 0x00ff_ffff && y == (x + 1) as u32,
    ;
    lemma_ibm32_field_bounds(x);
    lemma2_to64();
    let s = ibm32_sign(x);
    let f1 = ibm32_fraction(x);
    let f2 = ibm32_fraction(y);
    let ex = ibm32_exponent(x);
    let l2 = floor_log2(f2);
    crate::rounding::lemma_floor_log2_below(f2, 23);
    let n2 = normalized_sig(f2, 23);
    crate::rounding::lemma_normalized_sig_bounds(f2, 23);
    let e2 = 4 * ex + l2 - 154;
    let p2 = ieee32_pack(n2, 0, e2);
    lemma_ieee32_pack_bound(n2, 0, e2);
    lemma_u32_mag_extract(ieee32_of_ibm32(y), s, p2 as u32);
    if f1 == 0 {
        lemma_u32_mag_extract(ieee32_of_ibm32(x), s, 0);
    } else {
        let l1 = floor_log2(f1);
        crate::rounding::lemma_floor_log2_below(f1, 23);
        let n1 = normalized_sig(f1, 23);
        crate::rounding::lemma_normalized_sig_bounds(f1, 23);
        let e1 = 4 * ex + l1 - 154;
        let p1 = ieee32_pack(n1, 0, e1);
        lemma_ieee32_pack_bound(n1, 0, e1);
        lemma_u32_mag_extract(ieee32_of_ibm32(x), s, p1 as u32);
        crate::rounding::lemma_floor_log2_mono(f1, f2);
        if l1 == l2 {
            assert(n1 <= n2) by {
                lemma_mul_inequality(f1 as int, f2 as int, pow2((23 - l1) as nat) as int);
            }
        }
        lemma_ieee32_pack_mono(n1, n2, 0, e1, e2);
    }
}

/// Monotonicity under fraction increments for the widening conversion of a
/// 32-bit word to binary64.
pub proof fn lemma_ibm32ieee64_fraction_monotone(x: u32)
    requires
        x & 0x00ff_ffff < 0x00ff_ffff,
    ensures
        ieee64_of_ibm32(x) & 0x7fff_ffff_ffff_ffff <= ieee64_of_ibm32((x + 1) as u32)
            & 0x7fff_ffff_ffff_ffff,
{
    let y = (x + 1) as u32;
    assert(y & 0x8000_0000 == x & 0x8000_0000 && (y >> 24) & 0x7f == (x >> 24) & 0x7f && y
        & 0x00ff_ffff == (x & 0x00ff_ffff) + 1) by (bit_vector)
        requires
            x & 0x00ff_ffff < 0x00ff_ffff && y == (x + 1) as u32,
    ;
    lemma_ibm32_field_bounds(x);
    lemma2_to64();
    lemma2_to64_rest();
    let s = (ibm32_sign(x) as nat) * 0x1_0000_0000;
    assert(s == 0 || s == 0x8000_0000_0000_0000);
    let f1 = ibm32_fraction(x);
    let f2 = ibm32_fraction(y);
    let ex = ibm32_exponent(x);
    let l2 = floor_log2(f2);
    crate::rounding::lemma_floor_log2_below(f2, 23);
    let n2 = normalized_sig(f2, 52);
    crate::rounding::lemma_normalized_sig_bounds(f2, 52);
    let e2 = 4 * ex + l2 + 742;
    let p2 = ieee64_pack(n2, 0, e2 as int);
    lemma_ieee64_pack_bound(n2, 0, e2 as int);
    lemma_u64_mag_extract(ieee64_of_ibm32(y), s as u64, p2 as u64);
    if f1 == 0 {
        lemma_u64_mag_extract(ieee64_of_ibm32(x), s as u64, 0);
    } else {
        let l1 = floor_log2(f1);
        crate::rounding::lemma_floor_log2_below(f1, 23);
        let n1 = normalized_sig(f1, 52);
        crate::rounding::lemma_normalized_sig_bounds(f1, 52);
        let e1 = 4 * ex + l1 + 742;
        let p1 = ieee64_pack(n1, 0, e1 as int);
        lemma_ieee64_pack_bound(n1, 0, e1 as int);
        lemma_u64_mag_extract(ieee64_of_ibm32(x), s as u64, p1 as u64);
        crate::rounding::lemma_floor_log2_mono(f1, f2);
        if l1 == l2 {
            assert(n1 <= n2) by {
                lemma_mul_inequality(f1 as int, f2 as int, pow2((52 - l1) as nat) as int);
            }
        }
        lemma_ieee64_pack_mono(n1, n2, 0, e1 as int, e2 as int);
    }
}

/// Monotonicity under fraction increments for the narrowing conversion of a
/// 64-bit word to binary32.
pub proof fn lemma_ibm64ieee32_fraction_monotone(x: u64)
    requires
        x & 0x00ff_ffff_ffff_ffff < 0x00ff_ffff_ffff_ffff,
    ensures
        ieee32_of_ibm64(x) & 0x7fff_ffff <= ieee32_of_ibm64((x + 1) as u64) & 0x7fff_ffff,
{
    let y = (x + 1) as u64;
    assert(y & 0x8000_0000_0000_0000 == x & 0x8000_0000_0000_0000 && (y >> 56) & 0x7f == (x >> 56)
        & 0x7f && y & 0x00ff_ffff_ffff_ffff == (x & 0x00ff_ffff_ffff_ffff) + 1) by (bit_vector)
        requires
            x & 0x00ff_ffff_ffff_ffff < 0x00ff_ffff_ffff_ffff && y == (x + 1) as u64,
    ;
    lemma_ibm64_field_bounds(x);
    lemma2_to64();
    lemma2_to64_rest();
    let s = (ibm64_sign(x) >> 32) as u32;
    let f1 = ibm64_fraction(x);
    let f2 = ibm64_fraction(y);
    let ex = ibm64_exponent(x);
    let l2 = floor_log2(f2);
    crate::rounding::lemma_floor_log2_below(f2, 55);
    let n2 = normalized_sig(f2, 55);
    crate::rounding::lemma_normalized_sig_bounds(f2, 55);
    let e2 = 4 * ex + l2 - 186;
    let p2 = ieee32_pack(n2, 32, e2);
    lemma_ieee32_pack_bound(n2, 32, e2);
    lemma_u32_mag_extract(ieee32_of_ibm64(y), s, p2 as u32);
    if f1 == 0 {
        lemma_u32_mag_extract(ieee32_of_ibm64(x), s, 0);
    } else {
        let l1 = floor_log2(f1);
        crate::rounding::lemma_floor_log2_below(f1, 55);
        let n1 = normalized_sig(f1, 55);
        crate::rounding::lemma_normalized_sig_bounds(f1, 55);
        let e1 = 4 * ex + l1 - 186;
        let p1 = ieee32_pack(n1, 32, e1);
        lemma_ieee32_pack_bound(n1, 32, e1);
        lemma_u32_mag_extract(ieee32_of_ibm64(x), s, p1 as u32);
        crate::rounding::lemma_floor_log2_mono(f1, f2);
        if l1 == l2 {
            assert(n1 <= n2) by {
                lemma_mul_inequality(f1 as int, f2 as int, pow2((55 - l1) as nat) as int);
            }
        }
        lemma_ieee32_pack_mono(n1, n2, 32, e1, e2);
    }
}

/// Monotonicity under fraction increments for the 64-bit-to-64-bit
/// conversion.
pub proof fn lemma_ibm64ieee64_fraction_monotone(x: u64)
    requires
        x & 0x00ff_ffff_ffff_ffff < 0x00ff_ffff_ffff_ffff,
    ensures
        ieee64_of_ibm64(x) & 0x7fff_ffff_ffff_ffff <= ieee64_of_ibm64((x + 1) as u64)
            & 0x7fff_ffff_ffff_ffff,
{
    let y = (x + 1) as u64;
    assert(y & 0x8000_0000_0000_0000 == x & 0x8000_0000_0000_0000 && (y >> 56) & 0x7f == (x >> 56)
        & 0x7f && y & 0x00ff_ffff_ffff_ffff == (x & 0x00ff_ffff_ffff_ffff) + 1) by (bit_vector)
        requires
            x & 0x00ff_ffff_ffff_ffff < 0x00ff_ffff_ffff_ffff && y == (x + 1) as u64,
    ;
    lemma_ibm64_field_bounds(x);
    lemma2_to64();
    lemma2_to64_rest();
    let s = ibm64_sign(x);
    let f1 = ibm64_fraction(x);
    let f2 = ibm64_fraction(y);
    let ex = ibm64_exponent(x);
    let l2 = floor_log2(f2);
    crate::rounding::lemma_floor_log2_below(f2, 55);
    let n2 = normalized_sig(f2, 55);
    crate::rounding::lemma_normalized_sig_bounds(f2, 55);
    let e2 = 4 * ex + l2 + 710;
    let p2 = ieee64_pack(n2, 3, e2 as int);
    lemma_ieee64_pack_bound(n2, 3, e2 as int);
    lemma_u64_mag_extract(ieee64_of_ibm64(y), s, p2 as u64);
    if f1 == 0 {
        lemma_u64_mag_extract(ieee64_of_ibm64(x), s, 0);
    } else {
        let l1 = floor_log2(f1);
        crate::rounding::lemma_floor_log2_below(f1, 55);
        let n1 = normalized_sig(f1, 55);
        crate::rounding::lemma_normalized_sig_bounds(f1, 55);
        let e1 = 4 * ex + l1 + 710;
        let p1 = ieee64_pack(n1, 3, e1 as int);
        lemma_ieee64_pack_bound(n1, 3, e1 as int);
        lemma_u64_mag_extract(ieee64_of_ibm64(x), s, p1 as u64);
        crate::rounding::lemma_floor_log2_mono(f1, f2);
        if l1 == l2 {
            assert(n1 <= n2) by {
                lemma_mul_inequality(f1 as int, f2 as int, pow2((55 - l1) as nat) as int);
            }
        }
        lemma_ieee64_pack_mono(n1, n2, 3, e1 as int, e2 as int);
    }
}

} // verus!
