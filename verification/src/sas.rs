//! The SAS missing-value sentinel layer over 64-bit IBM floats.
//!
//! A SAS 64-bit float is an IBM 64-bit float with one extra reading: when the
//! 7 bits after the sign bit hold the ASCII code of a missing-value flavour —
//! a period, an underscore, or an uppercase letter — the word denotes a
//! missing number whatever its fraction bits hold.  Converting a missing
//! value to IEEE-754 yields a quiet NaN whose payload carries the
//! complemented code, so distinct flavours stay distinguishable.

use vstd::prelude::*;

verus! {

use crate::convert::ieee64_of_ibm64;
use crate::convert::ibm64_fraction;
use crate::convert::ibm64_sign;
use crate::convert::ibm64_exponent;

/// A missing numeric value's flavour: a period (the default), an underscore,
/// or one of the uppercase ASCII letters.
#[derive(Debug, Copy, Clone, PartialEq, Eq, Structural)]
pub enum MissingValue {
    /// A missing value written as a period (`.`).  This is the default.
    Period,
    /// A missing value written as an underscore (`_`).
    Underscore,
    /// A missing value written as the letter `A`.
    A,
    /// A missing value written as the letter `B`.
    B,
    /// A missing value written as the letter `C`.
    C,
    /// A missing value written as the letter `D`.
    D,
    /// A missing value written as the letter `E`.
    E,
    /// A missing value written as the letter `F`.
    F,
    /// A missing value written as the letter `G`.
    G,
    /// A missing value written as the letter `H`.
    H,
    /// A missing value written as the letter `I`.
    I,
    /// A missing value written as the letter `J`.
    J,
    /// A missing value written as the letter `K`.
    K,
    /// A missing value written as the letter `L`.
    L,
    /// A missing value written as the letter `M`.
    M,
    /// A missing value written as the letter `N`.
    N,
    /// A missing value written as the letter `O`.
    O,
    /// A missing value written as the letter `P`.
    P,
    /// A missing value written as the letter `Q`.
    Q,
    /// A missing value written as the letter `R`.
    R,
    /// A missing value written as the letter `S`.
    S,
    /// A missing value written as the letter `T`.
    T,
    /// A missing value written as the letter `U`.
    U,
    /// A missing value written as the letter `V`.
    V,
    /// A missing value written as the letter `W`.
    W,
    /// A missing value written as the letter `X`.
    X,
    /// A missing value written as the letter `Y`.
    Y,
    /// A missing value written as the letter `Z`.
    Z,
}

/// The ASCII code of a missing-value flavour: `.` is 0x2e, `_` is 0x5f, and
/// the letters are 0x41 through 0x5a.
pub open spec fn spec_code(mv: MissingValue) -> u8 {
    match mv {
        MissingValue::Period => 0x2e,
        MissingValue::Underscore => 0x5f,
        MissingValue::A => 0x41,
        MissingValue::B => 0x42,
        MissingValue::C => 0x43,
        MissingValue::D => 0x44,
        MissingValue::E => 0x45,
        MissingValue::F => 0x46,
        MissingValue::G => 0x47,
        MissingValue::H => 0x48,
        MissingValue::I => 0x49,
        MissingValue::J => 0x4a,
        MissingValue::K => 0x4b,
        MissingValue::L => 0x4c,
        MissingValue::M => 0x4d,
        MissingValue::N => 0x4e,
        MissingValue::O => 0x4f,
        MissingValue::P => 0x50,
        MissingValue::Q => 0x51,
        MissingValue::R => 0x52,
        MissingValue::S => 0x53,
        MissingValue::T => 0x54,
        MissingValue::U => 0x55,
        MissingValue::V => 0x56,
        MissingValue::W => 0x57,
        MissingValue::X => 0x58,
        MissingValue::Y => 0x59,
        MissingValue::Z => 0x5a,
    }
}

/// Decode a byte as a missing-value flavour: exactly the 28 codes of
/// [`spec_code`] decode, every other byte is no missing value.
pub open spec fn spec_decode(value: u8) -> Option<MissingValue> {
    if value == 0x2e {
        Some(MissingValue::Period)
    } else if value == 0x5f {
        Some(MissingValue::Underscore)
    } else if value == 0x41 {
        Some(MissingValue::A)
    } else if value == 0x42 {
        Some(MissingValue::B)
    } else if value == 0x43 {
        Some(MissingValue::C)
    } else if value == 0x44 {
        Some(MissingValue::D)
    } else if value == 0x45 {
        Some(MissingValue::E)
    } else if value == 0x46 {
        Some(MissingValue::F)
    } else if value == 0x47 {
        Some(MissingValue::G)
    } else if value == 0x48 {
        Some(MissingValue::H)
    } else if value == 0x49 {
        Some(MissingValue::I)
    } else if value == 0x4a {
        Some(MissingValue::J)
    } else if value == 0x4b {
        Some(MissingValue::K)
    } else if value == 0x4c {
        Some(MissingValue::L)
    } else if value == 0x4d {
        Some(MissingValue::M)
    } else if value == 0x4e {
        Some(MissingValue::N)
    } else if value == 0x4f {
        Some(MissingValue::O)
    } else if value == 0x50 {
        Some(MissingValue::P)
    } else if value == 0x51 {
        Some(MissingValue::Q)
    } else if value == 0x52 {
        Some(MissingValue::R)
    } else if value == 0x53 {
        Some(MissingValue::S)
    } else if value == 0x54 {
        Some(MissingValue::T)
    } else if value == 0x55 {
        Some(MissingValue::U)
    } else if value == 0x56 {
        Some(MissingValue::V)
    } else if value == 0x57 {
        Some(MissingValue::W)
    } else if value == 0x58 {
        Some(MissingValue::X)
    } else if value == 0x59 {
        Some(MissingValue::Y)
    } else if value == 0x5a {
        Some(MissingValue::Z)
    } else {
        None
    }
}

/// Decoding a flavour's own code gives that flavour back: [`spec_code`] and
/// [`spec_decode`] are mutually inverse on the 28 legal codes.
pub proof fn lemma_code_decode_roundtrip(mv: MissingValue)
    ensures
        spec_decode(spec_code(mv)) == Some(mv),
{
}

impl MissingValue {
    /// The ASCII code representing this missing value.
    pub fn code(&self) -> (r: u8)
        ensures
            r == spec_code(*self),
    {
        match self {
            MissingValue::Period => 0x2e,
            MissingValue::Underscore => 0x5f,
            MissingValue::A => 0x41,
            MissingValue::B => 0x42,
            MissingValue::C => 0x43,
            MissingValue::D => 0x44,
            MissingValue::E => 0x45,
            MissingValue::F => 0x46,
            MissingValue::G => 0x47,
            MissingValue::H => 0x48,
            MissingValue::I => 0x49,
            MissingValue::J => 0x4a,
            MissingValue::K => 0x4b,
            MissingValue::L => 0x4c,
            MissingValue::M => 0x4d,
            MissingValue::N => 0x4e,
            MissingValue::O => 0x4f,
            MissingValue::P => 0x50,
            MissingValue::Q => 0x51,
            MissingValue::R => 0x52,
            MissingValue::S => 0x53,
            MissingValue::T => 0x54,
            MissingValue::U => 0x55,
            MissingValue::V => 0x56,
            MissingValue::W => 0x57,
            MissingValue::X => 0x58,
            MissingValue::Y => 0x59,
            MissingValue::Z => 0x5a,
        }
    }

    /// Decode a byte as a missing-value code.  Returns the flavour for each
    /// of the 28 recognized codes, and an error — a normal, expected outcome,
    /// not a failure — for each of the remaining byte values.
    pub fn try_from(value: u8) -> (r: Result<MissingValue, &'static str>)
        ensures
            r is Ok <==> spec_decode(value) is Some,
            r matches Ok(mv) ==> spec_decode(value) == Some(mv),
    {
        match value {
            0x2e => Ok(MissingValue::Period),
            0x5f => Ok(MissingValue::Underscore),
            0x41 => Ok(MissingValue::A),
            0x42 => Ok(MissingValue::B),
            0x43 => Ok(MissingValue::C),
            0x44 => Ok(MissingValue::D),
            0x45 => Ok(MissingValue::E),
            0x46 => Ok(MissingValue::F),
            0x47 => Ok(MissingValue::G),
            0x48 => Ok(MissingValue::H),
            0x49 => Ok(MissingValue::I),
            0x4a => Ok(MissingValue::J),
            0x4b => Ok(MissingValue::K),
            0x4c => Ok(MissingValue::L),
            0x4d => Ok(MissingValue::M),
            0x4e => Ok(MissingValue::N),
            0x4f => Ok(MissingValue::O),
            0x50 => Ok(MissingValue::P),
            0x51 => Ok(MissingValue::Q),
            0x52 => Ok(MissingValue::R),
            0x53 => Ok(MissingValue::S),
            0x54 => Ok(MissingValue::T),
            0x55 => Ok(MissingValue::U),
            0x56 => Ok(MissingValue::V),
            0x57 => Ok(MissingValue::W),
            0x58 => Ok(MissingValue::X),
            0x59 => Ok(MissingValue::Y),
            0x5a => Ok(MissingValue::Z),
            _ => Err("Not a missing value"),
        }
    }
}

impl Default for MissingValue {
    /// The default missing value is the period.
    fn default() -> (r: Self)
        ensures
            r == MissingValue::Period,
    {
        MissingValue::Period
    }
}

/// True of the bit patterns that IEEE-754 binary64 reads as NaN: exponent
/// field all ones and a nonzero fraction.
pub open spec fn ieee64_is_nan(b: u64) -> bool {
    (b >> 52) & 0x7ff == 0x7ff && b & 0x000f_ffff_ffff_ffff != 0
}

/// The quiet-NaN bit pattern carrying a missing value's complemented code in
/// its payload, at the byte above the low 40 bits.
pub open spec fn sas_nan_bits(code: u8) -> u64 {
    0xffff_0000_0000_0000u64 | (((!code) as u64) << 40)
}

/// Every missing-value NaN pattern is indeed read as NaN by IEEE-754.
pub proof fn lemma_sas_nan_bits_is_nan(code: u8)
    ensures
        ieee64_is_nan(sas_nan_bits(code)),
{
    assert((0xffff_0000_0000_0000u64 | (((!code) as u64) << 40)) >> 52 == 0xfff) by (bit_vector);
    assert((0xffff_0000_0000_0000u64 | (((!code) as u64) << 40)) & 0x000f_ffff_ffff_ffff
        != 0) by (bit_vector);
    assert(0xfffu64 & 0x7ff == 0x7ff) by (bit_vector);
}

/// The ordinary 64-bit conversion never produces a NaN bit pattern: IBM
/// floats have no NaN encoding, and the converted exponent stays far below
/// the all-ones field.  A SAS value therefore converts to NaN exactly when
/// it is missing.
pub proof fn lemma_ordinary_conversion_never_nan(x: u64)
    ensures
        !ieee64_is_nan(ieee64_of_ibm64(x)),
{
    crate::convert::lemma_ibm64_field_bounds(x);
    let f = ibm64_fraction(x);
    let s = ibm64_sign(x);
    if f == 0 {
        assert(!(((0u64 >> 52) & 0x7ff == 0x7ff && 0u64 & 0x000f_ffff_ffff_ffff != 0)
            || ((0x8000_0000_0000_0000u64 >> 52) & 0x7ff == 0x7ff))) by (bit_vector);
    } else {
        vstd::arithmetic::power2::lemma2_to64_rest();
        crate::rounding::lemma_floor_log2_below(f, 55);
        crate::rounding::lemma_normalized_sig_bounds(f, 55);
        let n = crate::rounding::normalized_sig(f, 55);
        let e = 4 * ibm64_exponent(x) + crate::rounding::floor_log2(f) + 710;
        let p = crate::convert::ieee64_pack(n, 3, e as int);
        crate::convert::lemma_ieee64_pack_bound(n, 3, e as int);
        let pu = p as u64;
        let b = ieee64_of_ibm64(x);
        assert(!((b >> 52) & 0x7ff == 0x7ff && b & 0x000f_ffff_ffff_ffff != 0)) by (bit_vector)
            requires
                (s == 0 || s == 0x8000_0000_0000_0000) && pu <= 0x7ff0_0000_0000_0000 && b == s
                    + pu,
        ;
    }
}

/// A 64-bit SAS floating point number: an IBM 64-bit float whose 7-bit
/// exponent field may instead hold a missing-value code.
#[derive(Copy, Clone)]
pub struct F64(crate::F64);

/// The IEEE-754 binary64 bit pattern a SAS value converts to: the sentinel
/// NaN for a missing value, the ordinary IBM conversion for any other word.
pub open spec fn spec_to_ieee_bits(v: F64) -> u64 {
    match spec_decode(v.spec_sentinel()) {
        Some(mv) => sas_nan_bits(spec_code(mv)),
        None => ieee64_of_ibm64(v.spec_bits()),
    }
}

impl F64 {
    /// The raw bit pattern held by this value.
    pub closed spec fn spec_bits(self) -> u64 {
        self.0.spec_bits()
    }

    /// The sentinel byte: the 7 bits after the sign bit.
    pub open spec fn spec_sentinel(self) -> u8 {
        ((self.spec_bits() >> 56) & 0x7f) as u8
    }

    /// The missing-value flavour this word denotes, if any.
    pub open spec fn spec_missing_value(self) -> Option<MissingValue> {
        spec_decode(self.spec_sentinel())
    }

    /// Read a value from its big-endian (network order) byte representation.
    pub fn from_be_bytes(bytes: [u8; 8]) -> (r: Self)
        ensures
            r.spec_bits() == crate::be_word_64(bytes@),
    {
        F64(crate::F64::from_be_bytes(bytes))
    }

    /// The raw bit pattern as a native-endian `u64`.
    pub fn to_bits(self) -> (r: u64)
        ensures
            r == self.spec_bits(),
    {
        self.0.to_bits()
    }

    /// The missing-value flavour this word denotes: the decoding of its
    /// sentinel byte, or nothing when that byte holds no recognized code.
    pub fn missing_value(&self) -> (r: Option<MissingValue>)
        ensures
            r == self.spec_missing_value(),
    {
        let high: u8 = ((self.0.to_bits() >> 56u64) & 0x7f) as u8;
        match MissingValue::try_from(high) {
            Ok(mv) => Some(mv),
            Err(_) => None,
        }
    }

    /// Whether this word denotes a missing numeric value.
    pub fn is_missing_value(&self) -> (r: bool)
        ensures
            r == (self.spec_missing_value() is Some),
    {
        self.missing_value().is_some()
    }

    /// Whether this value converts to an IEEE-754 NaN: true for every
    /// missing value, and for any word whose ordinary conversion would be
    /// NaN — which, IBM floats having no NaN encoding, never happens.
    pub fn is_nan(&self) -> (r: bool)
        ensures
            r == (ieee64_is_nan(ieee64_of_ibm64(self.spec_bits())) || self.spec_missing_value()
                is Some),
    {
        let bits: u64 = crate::convert::ibm64ieee64(self.0.to_bits());
        let ordinary_nan: bool = (bits >> 52u64) & 0x7ff == 0x7ff && bits & 0x000f_ffff_ffff_ffff
            != 0;
        ordinary_nan || self.is_missing_value()
    }

    /// The IEEE-754 binary64 bit pattern for this value: a missing value
    /// becomes a quiet NaN carrying its complemented code in the payload;
    /// any other word converts through the ordinary 64-bit path.
    pub fn to_ieee_bits(self) -> (r: u64)
        ensures
            r == spec_to_ieee_bits(self),
    {
        match self.missing_value() {
            Some(mv) => {
                let code: u8 = mv.code();
                0xffff_0000_0000_0000u64 | (((!code) as u64) << 40u64)
            },
            None => crate::convert::ibm64ieee64(self.0.to_bits()),
        }
    }
}

} // verus!
