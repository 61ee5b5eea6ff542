//! IBM System/370 hexadecimal floating-point numbers, and their conversion to
//! IEEE-754 binary floating-point bit patterns.
//!
//! An IBM float stores a sign bit, a 7-bit exponent biased so that it encodes
//! a power of 16, and a fraction with no hidden bit.  The [`convert`] module
//! turns such words into IEEE-754 bit patterns in all four width pairings,
//! rounding to nearest with ties to even and saturating to infinity or zero.
//! [`F32`] and [`F64`] wrap raw words, and [`sas`] layers a missing-value
//! sentinel scheme on top of the 64-bit format.

use vstd::prelude::*;

pub mod convert;
pub mod rounding;
pub mod sas;

verus! {

/// The unsigned word read from four bytes in big-endian order.
pub open spec fn be_word_32(b: Seq<u8>) -> nat
    recommends
        b.len() == 4,
{
    (b[0] as nat) * 0x100_0000 + (b[1] as nat) * 0x1_0000 + (b[2] as nat) * 0x100 + (b[3] as nat)
}

/// The unsigned word read from eight bytes in big-endian order.
pub open spec fn be_word_64(b: Seq<u8>) -> nat
    recommends
        b.len() == 8,
{
    (b[0] as nat) * 0x100_0000_0000_0000 + (b[1] as nat) * 0x1_0000_0000_0000 + (b[2] as nat)
        * 0x100_0000_0000 + (b[3] as nat) * 0x1_0000_0000 + (b[4] as nat) * 0x100_0000 + (
    b[5] as nat) * 0x1_0000 + (b[6] as nat) * 0x100 + (b[7] as nat)
}

/// A 32-bit IBM floating point number, wrapping its raw bit pattern.
///
/// Bit layout, most significant first: 1 sign bit, 7 exponent bits biased by
/// 64 (each unit is a power of 16), 24 fraction bits interpreted as
/// `0.hex-digits` with no hidden bit.
#[derive(Copy, Clone)]
pub struct F32(u32);

impl F32 {
    /// The raw bit pattern held by this value.
    pub closed spec fn spec_bits(self) -> u32 {
        self.0
    }

    /// Wrap a native-endian `u32` bit pattern.
    pub fn from_bits(value: u32) -> (r: Self)
        ensures
            r.spec_bits() == value,
    {
        F32(value)
    }

    /// The raw bit pattern as a native-endian `u32`.
    pub fn to_bits(self) -> (r: u32)
        ensures
            r == self.spec_bits(),
    {
        self.0
    }

    /// Read a value from its big-endian (network order) byte representation.
    pub fn from_be_bytes(bytes: [u8; 4]) -> (r: Self)
        ensures
            r.spec_bits() == be_word_32(bytes@),
    {
        let b0: u8 = bytes[0];
        let b1: u8 = bytes[1];
        let b2: u8 = bytes[2];
        let b3: u8 = bytes[3];
        let w: u32 = ((b0 as u32) << 24u32) | ((b1 as u32) << 16u32) | ((b2 as u32) << 8u32) | (
        b3 as u32);
        proof {
            assert(w == (b0 as nat) * 0x100_0000 + (b1 as nat) * 0x1_0000 + (b2 as nat) * 0x100 + (
            b3 as nat)) by (bit_vector)
                requires
                    w == ((b0 as u32) << 24u32) | ((b1 as u32) << 16u32) | ((b2 as u32) << 8u32) | (
                    b3 as u32),
            ;
        }
        F32(w)
    }

    /// The big-endian (network order) byte representation of this value.
    pub fn to_be_bytes(self) -> (r: [u8; 4])
        ensures
            r@.len() == 4,
            be_word_32(r@) == self.spec_bits(),
    {
        let v: u32 = self.0;
        let b0: u8 = (v >> 24u32) as u8;
        let b1: u8 = (v >> 16u32) as u8;
        let b2: u8 = (v >> 8u32) as u8;
        let b3: u8 = v as u8;
        proof {
            assert((((v >> 24u32) as u8) as nat) * 0x100_0000 + (((v >> 16u32) as u8) as nat)
                * 0x1_0000 + (((v >> 8u32) as u8) as nat) * 0x100 + ((v as u8) as nat)
                == v) by (bit_vector);
        }
        [b0, b1, b2, b3]
    }

    /// The IEEE-754 binary32 bit pattern nearest to this value, through
    /// [`convert::ibm32ieee32`]; large magnitudes round, overflow or
    /// underflow.
    pub fn to_ieee32_bits(self) -> (r: u32)
        ensures
            r == convert::ieee32_of_ibm32(self.spec_bits()),
    {
        convert::ibm32ieee32(self.0)
    }

    /// The IEEE-754 binary64 bit pattern holding exactly this value, through
    /// [`convert::ibm32ieee64`]; this widening never loses information.
    pub fn to_ieee64_bits(self) -> (r: u64)
        ensures
            r == convert::ieee64_of_ibm32(self.spec_bits()),
    {
        convert::ibm32ieee64(self.0)
    }
}

/// A 64-bit IBM floating point number, wrapping its raw bit pattern.
///
/// Bit layout, most significant first: 1 sign bit, 7 exponent bits biased by
/// 64 (each unit is a power of 16), 56 fraction bits interpreted as
/// `0.hex-digits` with no hidden bit.
#[derive(Copy, Clone)]
pub struct F64(u64);

impl F64 {
    /// The raw bit pattern held by this value.
    pub closed spec fn spec_bits(self) -> u64 {
        self.0
    }

    /// Wrap a native-endian `u64` bit pattern.
    pub fn from_bits(value: u64) -> (r: Self)
        ensures
            r.spec_bits() == value,
    {
        F64(value)
    }

    /// The raw bit pattern as a native-endian `u64`.
    pub fn to_bits(self) -> (r: u64)
        ensures
            r == self.spec_bits(),
    {
        self.0
    }

    /// Read a value from its big-endian (network order) byte representation.
    pub fn from_be_bytes(bytes: [u8; 8]) -> (r: Self)
        ensures
            r.spec_bits() == be_word_64(bytes@),
    {
        let b0: u8 = bytes[0];
        let b1: u8 = bytes[1];
        let b2: u8 = bytes[2];
        let b3: u8 = bytes[3];
        let b4: u8 = bytes[4];
        let b5: u8 = bytes[5];
        let b6: u8 = bytes[6];
        let b7: u8 = bytes[7];
        let w: u64 = ((b0 as u64) << 56u64) | ((b1 as u64) << 48u64) | ((b2 as u64) << 40u64) | ((
        b3 as u64) << 32u64) | ((b4 as u64) << 24u64) | ((b5 as u64) << 16u64) | ((b6 as u64)
            << 8u64) | (b7 as u64);
        proof {
            assert(w == (b0 as nat) * 0x100_0000_0000_0000 + (b1 as nat) * 0x1_0000_0000_0000 + (
            b2 as nat) * 0x100_0000_0000 + (b3 as nat) * 0x1_0000_0000 + (b4 as nat) * 0x100_0000
                + (b5 as nat) * 0x1_0000 + (b6 as nat) * 0x100 + (b7 as nat)) by (bit_vector)
                requires
                    w == ((b0 as u64) << 56u64) | ((b1 as u64) << 48u64) | ((b2 as u64) << 40u64)
                        | ((b3 as u64) << 32u64) | ((b4 as u64) << 24u64) | ((b5 as u64) << 16u64)
                        | ((b6 as u64) << 8u64) | (b7 as u64),
            ;
        }
        F64(w)
    }

    /// The big-endian (network order) byte representation of this value.
    pub fn to_be_bytes(self) -> (r: [u8; 8])
        ensures
            r@.len() == 8,
            be_word_64(r@) == self.spec_bits(),
    {
        let v: u64 = self.0;
        let b0: u8 = (v >> 56u64) as u8;
        let b1: u8 = (v >> 48u64) as u8;
        let b2: u8 = (v >> 40u64) as u8;
        let b3: u8 = (v >> 32u64) as u8;
        let b4: u8 = (v >> 24u64) as u8;
        let b5: u8 = (v >> 16u64) as u8;
        let b6: u8 = (v >> 8u64) as u8;
        let b7: u8 = v as u8;
        proof {
            assert((((v >> 56u64) as u8) as nat) * 0x100_0000_0000_0000 + (((v >> 48u64) as u8)
                as nat) * 0x1_0000_0000_0000 + (((v >> 40u64) as u8) as nat) * 0x100_0000_0000 + ((
            (v >> 32u64) as u8) as nat) * 0x1_0000_0000 + (((v >> 24u64) as u8) as nat)
                * 0x100_0000 + (((v >> 16u64) as u8) as nat) * 0x1_0000 + (((v >> 8u64) as u8)
                as nat) * 0x100 + ((v as u8) as nat) == v) by (bit_vector);
        }
        [b0, b1, b2, b3, b4, b5, b6, b7]
    }

    /// The IEEE-754 binary32 bit pattern nearest to this value, through
    /// [`convert::ibm64ieee32`]; most conversions round, and extreme
    /// magnitudes overflow or underflow.
    pub fn to_ieee32_bits(self) -> (r: u32)
        ensures
            r == convert::ieee32_of_ibm64(self.spec_bits()),
    {
        convert::ibm64ieee32(self.0)
    }

    /// The IEEE-754 binary64 bit pattern nearest to this value, through
    /// [`convert::ibm64ieee64`]; most conversions round, but overflow and
    /// underflow cannot occur.
    pub fn to_ieee64_bits(self) -> (r: u64)
        ensures
            r == convert::ieee64_of_ibm64(self.spec_bits()),
    {
        convert::ibm64ieee64(self.0)
    }
}

} // verus!
