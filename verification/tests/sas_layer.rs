//! The missing-value sentinel layer.

use ibmfloat::sas::{MissingValue, F64};

#[test]
fn from_be_bytes_missing_value() {
    let bytes: [u8; 8] = [0x2E, 0x00, 0x00, 0x00, 0x00, 0x00, 0x00, 0x00];
    let sas = F64::from_be_bytes(bytes);
    assert!(sas.is_missing_value());
    assert_eq!(MissingValue::Period, sas.missing_value().unwrap());
    assert!(sas.is_nan());
}

#[test]
fn from_missing_value() {
    let bytes: [u8; 8] = [0x2E, 0x00, 0x00, 0x00, 0x00, 0x00, 0x00, 0x00];
    let sas = F64::from_be_bytes(bytes);
    let ieee = f64::from_bits(sas.to_ieee_bits());
    assert!(ieee.is_nan());
}

#[test]
fn from_non_missing_value() {
    // The sentinel field is the exponent byte masked to 7 bits, so only a
    // word whose masked byte falls outside the 28 codes is an ordinary
    // number; 0x40 (the code of 0.25) is one such byte.
    let foreign_float = F64::from_be_bytes([
        0b0100_0000,
        0b0100_0000,
        0b0000_0000,
        0b0000_0000,
        0b0000_0000,
        0b0000_0000,
        0b0000_0000,
        0b0000_00000,
    ]);
    let native_float = f64::from_bits(foreign_float.to_ieee_bits());
    assert_eq!(native_float, 0.25f64);

    let native_float: f64 = f64::from_bits(foreign_float.to_ieee_bits());
    assert_eq!(native_float, 0.25f64);

    assert!(!foreign_float.is_nan());
    assert_eq!(None, foreign_float.missing_value());
}

#[test]
fn code() {
    assert_eq!(b'.', MissingValue::Period.code());
}

#[test]
fn default() {
    assert_eq!(MissingValue::Period, Default::default());
}

#[test]
fn try_from_known() {
    assert_eq!(MissingValue::Period, MissingValue::try_from(b'.').unwrap());
}

#[test]
fn try_from_unknown() {
    assert!(MissingValue::try_from(0u8).is_err());
}

#[test]
fn all_codes_roundtrip() {
    let all: [MissingValue; 28] = [
        MissingValue::Period,
        MissingValue::Underscore,
        MissingValue::A,
        MissingValue::B,
        MissingValue::C,
        MissingValue::D,
        MissingValue::E,
        MissingValue::F,
        MissingValue::G,
        MissingValue::H,
        MissingValue::I,
        MissingValue::J,
        MissingValue::K,
        MissingValue::L,
        MissingValue::M,
        MissingValue::N,
        MissingValue::O,
        MissingValue::P,
        MissingValue::Q,
        MissingValue::R,
        MissingValue::S,
        MissingValue::T,
        MissingValue::U,
        MissingValue::V,
        MissingValue::W,
        MissingValue::X,
        MissingValue::Y,
        MissingValue::Z,
    ];
    for mv in all {
        assert_eq!(mv, MissingValue::try_from(mv.code()).unwrap());
    }
}

#[test]
fn try_from_rejects_neighbours() {
    // bytes just outside each recognized range decode to nothing
    for b in [0x2Du8, 0x2F, 0x40, 0x5B, 0x5E, 0x60, b'a', b'z', 0x7F, 0xFF] {
        assert!(MissingValue::try_from(b).is_err(), "0x{:02x} decoded", b);
    }
}

#[test]
fn missing_value_nan_payload() {
    // the complemented sentinel code sits in the NaN payload above bit 40
    let sas = F64::from_be_bytes([b'A', 0, 0, 0, 0, 0, 0, 0]);
    assert_eq!(sas.missing_value(), Some(MissingValue::A));
    let bits = sas.to_ieee_bits();
    assert_eq!(bits, 0xFFFF_0000_0000_0000 | ((!b'A' as u64) << 40));
    assert!(f64::from_bits(bits).is_nan());
}

#[test]
fn distinct_flavours_stay_distinguishable() {
    let period = F64::from_be_bytes([b'.', 0, 0, 0, 0, 0, 0, 0]).to_ieee_bits();
    let underscore = F64::from_be_bytes([b'_', 0, 0, 0, 0, 0, 0, 0]).to_ieee_bits();
    let letter = F64::from_be_bytes([b'Z', 0, 0, 0, 0, 0, 0, 0]).to_ieee_bits();
    assert!(period != underscore && underscore != letter && period != letter);
}

#[test]
fn sentinel_ignores_fraction_bits() {
    // the fraction bits are irrelevant once the sentinel byte matches
    let sas = F64::from_be_bytes([0x2E, 0xAB, 0xCD, 0xEF, 0x01, 0x23, 0x45, 0x67]);
    assert!(sas.is_missing_value());
    assert_eq!(sas.missing_value(), Some(MissingValue::Period));
}

#[test]
fn ordinary_value_bits_roundtrip() {
    let sas = F64::from_be_bytes([0x40, 0x10, 0, 0, 0, 0, 0, 0]);
    assert_eq!(sas.to_bits(), 0x4010000000000000);
    assert!(!sas.is_missing_value());
    assert_eq!(f64::from_bits(sas.to_ieee_bits()), 0.0625f64);
}
