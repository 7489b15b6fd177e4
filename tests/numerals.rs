use mmvisual::numeral::{parse_decimal, parse_unsigned, Decimal};
use mmvisual::text::{same_text, starts_with};

#[test]
fn decimals_read_exactly() {
    assert_eq!(parse_decimal("3.5"), Some(Decimal { units: 35, places: 1 }));
    assert_eq!(parse_decimal("-12.750"), Some(Decimal { units: -12750, places: 3 }));
    assert_eq!(parse_decimal("+7"), Some(Decimal { units: 7, places: 0 }));
    assert_eq!(parse_decimal("5."), Some(Decimal { units: 5, places: 0 }));
    assert_eq!(parse_decimal(".25"), Some(Decimal { units: 25, places: 2 }));
    assert_eq!(parse_decimal("9223372036854775807"), Some(Decimal { units: i64::MAX, places: 0 }));
}

#[test]
fn malformed_decimals_are_refused() {
    for s in ["", ".", "-", "1.2.3", "abc", " 1", "9223372036854775808", "--1", "e3", "1e", "1e+", "1e3.5", "1ee3", "1e19", "1e100001", ".e1"] {
        assert_eq!(parse_decimal(s), None, "{}", s);
    }
}

#[test]
fn exponents_shift_the_point() {
    assert_eq!(parse_decimal("2.5e1"), Some(Decimal { units: 25, places: 0 }));
    assert_eq!(parse_decimal("2.5e-3"), Some(Decimal { units: 25, places: 4 }));
    assert_eq!(parse_decimal("1E3"), Some(Decimal { units: 1000, places: 0 }));
    assert_eq!(parse_decimal("-1e-2"), Some(Decimal { units: -1, places: 2 }));
    assert_eq!(parse_decimal("+1.25e+1"), Some(Decimal { units: 125, places: 1 }));
    assert_eq!(parse_decimal("9e18"), Some(Decimal { units: 9_000_000_000_000_000_000, places: 0 }));
}

#[test]
fn unsigned_limits_hold() {
    assert_eq!(parse_unsigned("255", 255), Some(255));
    assert_eq!(parse_unsigned("256", 255), None);
    assert_eq!(parse_unsigned("+01", 255), Some(1));
    assert_eq!(parse_unsigned("4294967295", u32::MAX as u64), Some(4294967295));
    assert_eq!(parse_unsigned("4294967296", u32::MAX as u64), None);
    assert_eq!(parse_unsigned("18446744073709551615", u64::MAX), Some(u64::MAX));
    assert_eq!(parse_unsigned("18446744073709551616", u64::MAX), None);
    for s in ["", "+", "-1", "1.0", "x"] {
        assert_eq!(parse_unsigned(s, 255), None, "{}", s);
    }
}

#[test]
fn millimetres_become_metres() {
    assert_eq!(Decimal::from_millimetres(-1234), Decimal { units: -1234, places: 3 });
}

#[test]
fn prefixes_and_equality() {
    assert!(starts_with("beacon12", "beacon"));
    assert!(!starts_with("beaco", "beacon"));
    assert!(starts_with("x", ""));
    assert!(same_text("é1", "é1"));
    assert!(!same_text("a", "ab"));
}
