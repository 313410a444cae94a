//! Prices, quantities and times.

use libro_unificado::fixed::{
    notional, parse_fixed8, parse_json_number8, write_fixed8, ParseFixedError, Px, Qty, SCALE,
};
use libro_unificado::time::rfc3339_ms;

#[test]
fn parse_exacto() {
    assert_eq!(parse_fixed8("0").unwrap(), 0);
    assert_eq!(parse_fixed8("1").unwrap(), SCALE);
    assert_eq!(parse_fixed8("123.45").unwrap(), 12_345_000_000);
    assert_eq!(parse_fixed8("123.45000000").unwrap(), 12_345_000_000);
    assert_eq!(parse_fixed8("0.00000001").unwrap(), 1);
    assert_eq!(parse_fixed8(".5").unwrap(), SCALE / 2);
    assert_eq!(parse_fixed8("5.").unwrap(), 5 * SCALE);
    assert_eq!(parse_fixed8("1.0000000000").unwrap(), SCALE);
}

#[test]
fn parse_rechaza_sin_redondear() {
    assert_eq!(parse_fixed8(""), Err(ParseFixedError::Empty));
    assert_eq!(parse_fixed8("."), Err(ParseFixedError::Empty));
    assert_eq!(parse_fixed8("-1"), Err(ParseFixedError::Negative));
    assert_eq!(parse_fixed8("1e-8"), Err(ParseFixedError::InvalidChar));
    assert_eq!(parse_fixed8("1.2.3"), Err(ParseFixedError::InvalidChar));
    assert_eq!(parse_fixed8("0.000000001"), Err(ParseFixedError::Precision));
    assert_eq!(
        parse_fixed8("99999999999999999999"),
        Err(ParseFixedError::Overflow)
    );
}

#[test]
fn formato_minimo_y_roundtrip() {
    for s in ["0", "1", "123.45", "0.00000001", "98765.4321"] {
        let v = parse_fixed8(s).unwrap();
        let mut out = String::new();
        write_fixed8(v, &mut out);
        assert_eq!(out, s);
    }
    assert_eq!(Px::parse("150.10").unwrap().to_string(), "150.1");
}

#[test]
fn buckets_de_1_usdt() {
    let w = Px::from_units(1);
    assert_eq!(Px::parse("102.99").unwrap().bucket(w), 102);
    assert_eq!(Px::parse("103.00").unwrap().bucket(w), 103);
}

#[test]
fn notional_exacto() {
    let n = notional(Px::parse("150.25").unwrap(), Qty::parse("2.5").unwrap());
    assert_eq!(n, 37_562_500_000); // 375.625 * 1e8
}

#[test]
fn fecha_rfc3339_exacta() {
    assert_eq!(rfc3339_ms("1970-01-01T00:00:00Z").unwrap(), 0);
    assert_eq!(
        rfc3339_ms("2000-03-01T00:00:00.5Z").unwrap(),
        951_868_800_500
    );
    assert_eq!(
        rfc3339_ms("2026-09-26T04:15:00.114692Z").unwrap(),
        1_790_396_100_114
    );
    assert!(rfc3339_ms("2026-09-26 04:15:00Z").is_err());
}

#[test]
fn negative_values_are_written_with_their_sign() {
    assert_eq!(Qty::from_raw(-150_000_000).to_string(), "-1.5");
    assert_eq!(Px::from_raw(-1).to_string(), "-0.00000001");
    assert_eq!(Px::from_raw(-1).bucket(Px::from_units(1)), -1);
}

#[test]
fn json_numbers_keep_their_exponent() {
    assert_eq!(parse_json_number8("1e0").unwrap(), SCALE);
    assert_eq!(parse_json_number8("1.5e-3").unwrap(), 150_000);
    assert_eq!(parse_json_number8("2E2").unwrap(), 200 * SCALE);
    assert_eq!(parse_json_number8("120.7").unwrap(), 12_070_000_000);
    assert!(parse_json_number8("1e-9").is_err());
    assert!(parse_json_number8("x").is_err());
}

#[test]
fn sums_stop_at_the_limits() {
    assert_eq!(
        Qty::from_raw(i64::MAX) + Qty::from_raw(1),
        Qty::from_raw(i64::MAX)
    );
    assert_eq!(
        Px::from_raw(i64::MIN) - Px::from_raw(1),
        Px::from_raw(i64::MIN)
    );
    assert_eq!(Qty::from_units(2) + Qty::from_units(3), Qty::from_units(5));
}

#[test]
fn every_fault_has_a_message() {
    for e in [
        ParseFixedError::Empty,
        ParseFixedError::Negative,
        ParseFixedError::InvalidChar,
        ParseFixedError::Precision,
        ParseFixedError::Overflow,
    ] {
        assert!(!e.message().is_empty());
    }
}

#[test]
fn no_text_of_the_same_value_is_shorter() {
    for s in ["7.50", "07.5", "7.5", "7.500000000"] {
        let v = parse_fixed8(s).unwrap();
        let mut out = String::new();
        write_fixed8(v, &mut out);
        assert_eq!(out, "7.5");
        assert!(out.len() <= s.len());
    }
    let mut out = String::new();
    write_fixed8(parse_fixed8("100.").unwrap(), &mut out);
    assert_eq!(out, "100");
}
