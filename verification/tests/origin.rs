//! Parsing of ISO 3166-1 alpha-3 origins.

use kovanica::origin::{Origin, OriginError};

#[test]
fn parse_uppercases_and_rejects_junk() {
    assert_eq!(Origin::parse("hrv").unwrap().as_str(), "HRV");
    assert_eq!(Origin::parse("USA").unwrap().as_str(), "USA");
    assert_eq!(Origin::parse("hr").unwrap_err(), OriginError::Invalid);
    assert_eq!(Origin::parse("HRVV").unwrap_err(), OriginError::Invalid);
    assert_eq!(Origin::parse("12A").unwrap_err(), OriginError::Invalid);
    assert_eq!(Origin::parse("").unwrap_err(), OriginError::Invalid);
}

#[test]
fn ordering_is_byte_order() {
    let a = Origin::parse("HRV").unwrap();
    let b = Origin::parse("USA").unwrap();
    assert!(a < b);
}

#[test]
fn parse_accepts_mixed_case_and_rejects_non_ascii() {
    assert_eq!(Origin::parse("dEu").unwrap().as_bytes(), b"DEU");
    assert_eq!(Origin::parse("ÀB").unwrap_err(), OriginError::Invalid);
    assert_eq!(Origin::parse("A-B").unwrap_err(), OriginError::Invalid);
    assert_eq!(Origin::parse("hrv").unwrap(), Origin::parse("HRV").unwrap());
}
