use isofit::calc::{calc_average_tol, calc_sizes_with_tols, size_tols_map_decimal};
use isofit::decimal::Decimal;

fn dec(text: &str) -> Decimal {
    Decimal::from_str(text).unwrap()
}

fn triple(a: &str, b: &str, c: &str) -> (String, String, String) {
    (a.to_string(), b.to_string(), c.to_string())
}

#[test]
fn test_calculate_size() {
    assert_eq!(
        calc_sizes_with_tols((dec("1"), dec("0.2"), dec("0.1")), dec("0.15")),
        triple("1.15", "1.2", "1.1")
    );
    assert_eq!(
        calc_sizes_with_tols((dec("1.234"), dec("0.2"), dec("0.1")), dec("0.15")),
        triple("1.384", "1.434", "1.334")
    );
    assert_eq!(
        calc_sizes_with_tols((dec("1.234"), dec("0.789"), dec("0.123")), dec("0.456")),
        triple("1.69", "2.023", "1.357")
    );
    assert_eq!(
        calc_sizes_with_tols((dec("1"), dec("0.789"), dec("-0.123")), dec("0.333")),
        triple("1.333", "1.789", "0.877")
    );
    assert_eq!(
        calc_sizes_with_tols((dec("1.234"), dec("0.789"), dec("-0.123")), dec("0.333")),
        triple("1.567", "2.023", "1.111")
    );
    assert_eq!(
        calc_sizes_with_tols((dec("1"), dec("-0.123"), dec("-0.789")), dec("-0.456")),
        triple("0.544", "0.877", "0.211")
    );
}

// Rounding exactness: the average of 0.789 and -0.123 is exactly 0.333.
#[test]
fn test_average_tol_rounding() {
    assert_eq!(calc_average_tol(&dec("0.789"), &dec("-0.123")).to_string(), "0.333");
    assert_eq!(calc_average_tol(&dec("0.0008"), &dec("0")).to_string(), "0.0004");
    assert_eq!(calc_average_tol(&dec("0.00125"), &dec("-0.00125")).to_string(), "0");
    assert_eq!(calc_average_tol(&dec("0.46"), &dec("0.24")).to_string(), "0.35");
}

// The midpoint at the seventh fractional digit rounds away from zero, on
// both sides of zero; below the midpoint it rounds toward zero.
#[test]
fn test_average_tol_half_away_from_zero() {
    assert_eq!(calc_average_tol(&dec("0.000001"), &dec("0")).to_string(), "0.000001");
    assert_eq!(calc_average_tol(&dec("0"), &dec("-0.000001")).to_string(), "-0.000001");
    assert_eq!(calc_average_tol(&dec("0.0000004"), &dec("0")).to_string(), "0");
    assert_eq!(calc_average_tol(&dec("0.0000014"), &dec("0")).to_string(), "0.000001");
    assert_eq!(calc_average_tol(&dec("0.0000015"), &dec("0.0000015")).to_string(), "0.000002");
}

#[test]
fn test_size_tols_map_decimal() {
    let got = size_tols_map_decimal("112", ("0.46", "0.24")).unwrap();
    assert_eq!(got.0, dec("112"));
    assert_eq!(got.1, dec("0.46"));
    assert_eq!(got.2, dec("0.24"));
    assert!(size_tols_map_decimal("112", ("abc", "0.24")).is_none());
    assert!(size_tols_map_decimal("112", ("0.46", "")).is_none());
    assert!(size_tols_map_decimal("11,2", ("0.46", "0.24")).is_none());
}

#[test]
fn test_decimal_parse_and_render() {
    assert_eq!(dec("0").to_string(), "0");
    assert_eq!(dec("-0").to_string(), "0");
    assert_eq!(dec("1.500").to_string(), "1.5");
    assert_eq!(dec("-0.0500").to_string(), "-0.05");
    assert_eq!(dec("0016.5").to_string(), "16.5");
    assert_eq!(dec(".5").to_string(), "0.5");
    assert_eq!(dec("-14").to_string(), "-14");
    assert_eq!(dec("3150.001").to_string(), "3150.001");
    assert!(Decimal::from_str("").is_none());
    assert!(Decimal::from_str("1..2").is_none());
    assert!(Decimal::from_str("1.").is_none());
    assert!(Decimal::from_str("-").is_none());
    assert!(Decimal::from_str("1e5").is_none());
    assert!(Decimal::from_str("5 ").is_none());
    assert!(Decimal::from_str("0.1234567890123456789").is_none());
    assert!(Decimal::from_str("1000000000000000000").is_none());
    assert!(Decimal::from_str("999999999999999999").is_some());
    assert!(Decimal::from_str("0.123456789012345678").is_some());
}
