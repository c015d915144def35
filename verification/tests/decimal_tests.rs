use arbitrage::decimal::{
    format_fp, format_fp_signed, format_u64, parse_fp, parse_fp_signed, parse_u64,
};

const SCALE: u64 = 100_000_000;

#[test]
fn parses_venue_filter_strings() {
    assert_eq!(parse_fp("0.00100000"), Some(100_000));
    assert_eq!(parse_fp("100000.00000000"), Some(100_000 * SCALE));
    assert_eq!(parse_fp("10.00000000"), Some(10 * SCALE));
    assert_eq!(parse_fp("1"), Some(SCALE));
    assert_eq!(parse_fp("0.1"), Some(10_000_000));
    assert_eq!(parse_fp("25000.5"), Some(2_500_050_000_000));
}

#[test]
fn rejects_malformed_decimals() {
    assert_eq!(parse_fp(""), None);
    assert_eq!(parse_fp("."), None);
    assert_eq!(parse_fp("1."), None);
    assert_eq!(parse_fp(".5"), None);
    assert_eq!(parse_fp("1.2.3"), None);
    assert_eq!(parse_fp("abc"), None);
    assert_eq!(parse_fp("1,5"), None);
    // A ninth decimal digit is representable only when zero.
    assert_eq!(parse_fp("0.000000001"), None);
    assert_eq!(parse_fp("0.100000000"), Some(10_000_000));
}

#[test]
fn formatting_round_trips_through_parse() {
    for &v in &[0u64, 1, 99, 100_000, SCALE, 3 * SCALE / 2, 2_500_050_000_000] {
        let s = format_fp(v, 8);
        assert_eq!(parse_fp(s.as_str()), Some(v), "value {} via {}", v, s);
    }
}

#[test]
fn formatting_rounds_to_requested_places() {
    // 0.0123456 at five places rounds half up to 0.01235.
    assert_eq!(format_fp(1_234_560, 5).as_str(), "0.01235");
    assert_eq!(parse_fp("0.01235"), Some(1_235_000));
    // Zero places drops the dot entirely.
    assert_eq!(format_fp(150_000_000, 0).as_str(), "2");
    assert_eq!(format_fp(149_999_999, 0).as_str(), "1");
}

#[test]
fn whole_numbers_round_trip() {
    for &n in &[0u64, 7, 10, 123, 10_000, u64::MAX] {
        let s = format_u64(n);
        assert_eq!(parse_u64(s.as_str()), Some(n));
    }
    assert_eq!(parse_u64(""), None);
    assert_eq!(parse_u64("12a"), None);
    assert_eq!(parse_u64("99999999999999999999999"), None);
}

#[test]
fn signed_values_round_trip() {
    for &v in &[0i64, 1, -1, 100_000_000, -100_000_000, 123_456_789, -123_456_789] {
        let s = format_fp_signed(v);
        assert_eq!(parse_fp_signed(s.as_str()), Some(v), "value {} via {}", v, s);
    }
    assert_eq!(format_fp_signed(-(SCALE as i64)).as_str(), "-1.00000000");
}
