use isofit::parser::{is_uppercase, parse_input, replace_comma_with_dot};

fn parsed(input: &str) -> (String, String, String) {
    parse_input(input).unwrap()
}

#[test]
fn test_parse_input() {
    assert_eq!(parsed("0H2"), ("0".to_string(), "H".to_string(), "2".to_string()));
    assert_eq!(parsed("0.123h2"), ("0.123".to_string(), "h".to_string(), "2".to_string()));
    assert_eq!(parsed("0,123h2"), ("0.123".to_string(), "h".to_string(), "2".to_string()));
    assert_eq!(parsed("1h2"), ("1".to_string(), "h".to_string(), "2".to_string()));
    assert_eq!(parsed("1H2"), ("1".to_string(), "H".to_string(), "2".to_string()));
    assert_eq!(parsed("18k5"), ("18".to_string(), "k".to_string(), "5".to_string()));
    assert_eq!(parsed("315h9"), ("315".to_string(), "h".to_string(), "9".to_string()));
    assert_eq!(parsed("1.0H2"), ("1.0".to_string(), "H".to_string(), "2".to_string()));
    assert_eq!(parsed("1,0H2"), ("1.0".to_string(), "H".to_string(), "2".to_string()));
    assert_eq!(parsed("1.92h2"), ("1.92".to_string(), "h".to_string(), "2".to_string()));
    assert_eq!(parsed("1,92h2"), ("1.92".to_string(), "h".to_string(), "2".to_string()));
    assert_eq!(parsed("1.685h2"), ("1.685".to_string(), "h".to_string(), "2".to_string()));
    assert_eq!(parsed("1,685h2"), ("1.685".to_string(), "h".to_string(), "2".to_string()));
    assert_eq!(parse_input("1.6853K2"), None);
    assert_eq!(parsed("1,685j12"), ("1.685".to_string(), "j".to_string(), "12".to_string()));
    assert_eq!(parsed("1,685j18"), ("1.685".to_string(), "j".to_string(), "18".to_string()));
    assert_eq!(parsed("1,685cd18"), ("1.685".to_string(), "cd".to_string(), "18".to_string()));
    assert_eq!(parsed("1,685CD18"), ("1.685".to_string(), "CD".to_string(), "18".to_string()));
    assert_eq!(parse_input("1.685J19"), None);
    assert_eq!(parse_input("1,685j19"), None);
    assert_eq!(parse_input("1.685j123"), None);
    assert_eq!(parse_input("1,685j123"), None);
    assert_eq!(parsed("3150h2"), ("3150".to_string(), "h".to_string(), "2".to_string()));
    assert_eq!(parsed("1h2"), ("1".to_string(), "h".to_string(), "2".to_string()));
}

#[test]
fn test_replace_comma_with_dot() {
    assert_eq!(replace_comma_with_dot("0,1"), "0.1");
    assert_eq!(replace_comma_with_dot("0.1"), "0.1");
    assert_eq!(replace_comma_with_dot(",1"), ".1");
    assert_eq!(replace_comma_with_dot("10,01"), "10.01");
    assert_eq!(replace_comma_with_dot("10.01"), "10.01")
}

#[test]
fn test_is_uppercase() {
    assert!(is_uppercase("A"));
    assert!(is_uppercase("AC"));
    assert!(!is_uppercase("Ac"));
    assert!(!is_uppercase("aC"));
    assert!(!is_uppercase(" "));
    assert!(!is_uppercase("."));
}

// Every integer band of the size grammar, at both of its ends.
#[test]
fn test_parse_size_bands() {
    for size in ["0", "9", "10", "99", "100", "999", "1000", "2999", "3000", "3099", "3100",
        "3149", "3150"]
    {
        let input = format!("{}H7", size);
        let got = parse_input(&input).unwrap();
        assert_eq!(got, (size.to_string(), "H".to_string(), "7".to_string()));
    }
}

// One unit past the last band, and malformed integer parts, are rejected.
#[test]
fn test_parse_size_out_of_bands() {
    assert_eq!(parse_input("3151H7"), None);
    assert_eq!(parse_input("4000H7"), None);
    assert_eq!(parse_input("01H7"), None);
    assert_eq!(parse_input("007H7"), None);
    assert_eq!(parse_input("10000H7"), None);
}

#[test]
fn test_parse_grade_bounds() {
    assert!(parse_input("5H1").is_some());
    assert!(parse_input("5H18").is_some());
    assert_eq!(parse_input("5H0"), None);
    assert_eq!(parse_input("5H19"), None);
    assert_eq!(parse_input("5H07"), None);
    assert_eq!(parse_input("5H"), None);
}

// Case purity: a mixed-case field code is rejected outright.
#[test]
fn test_parse_mixed_case_field() {
    assert_eq!(parse_input("5Ab7"), None);
    assert_eq!(parse_input("5aB7"), None);
    assert!(parse_input("5AB7").is_some());
    assert!(parse_input("5ab7").is_some());
}

#[test]
fn test_parse_fraction_shapes() {
    assert!(parse_input("5.1h7").is_some());
    assert!(parse_input("5.123h7").is_some());
    assert_eq!(parse_input("5.h7"), None);
    assert_eq!(parse_input("5.1234h7"), None);
    assert_eq!(parse_input("5..1h7"), None);
    assert_eq!(parse_input(""), None);
    assert_eq!(parse_input("h7"), None);
    assert_eq!(parse_input("5 h7"), None);
}
