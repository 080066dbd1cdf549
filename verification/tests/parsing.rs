use binance_bot::dec::Dec;
use binance_bot::parse::{parse_dec, parse_u32, validator};

#[test]
fn parse_dec_keeps_exact_representation() {
    let d = parse_dec("12.5").unwrap();
    assert_eq!(d, Dec { n: 125, d: 10 });
    let d = parse_dec("-0.001").unwrap();
    assert_eq!(d, Dec { n: -1, d: 1000 });
    let d = parse_dec("0.00100000").unwrap();
    assert!(d.eq_frac(Dec { n: 1, d: 1000 }));
    let d = parse_dec("42").unwrap();
    assert_eq!(d, Dec { n: 42, d: 1 });
    let d = parse_dec("9223372036854775807").unwrap();
    assert_eq!(d, Dec { n: i64::MAX, d: 1 });
}

#[test]
fn parse_dec_rejects_malformed_input() {
    for bad in ["", ".", "1.", ".5", "1.2.3", "abc", "--1", "1e5", "+1", "1 2"] {
        assert!(parse_dec(bad).is_none(), "accepted {:?}", bad);
    }
}

#[test]
fn parse_dec_rejects_unrepresentable_values() {
    // numerator beyond 64 bits
    assert!(parse_dec("9223372036854775808").is_none());
    // nineteen fraction digits need a denominator beyond 64 bits
    assert!(parse_dec("0.0000000000000000001").is_none());
}

#[test]
fn parse_u32_matches_std_shape() {
    assert_eq!(parse_u32("42"), Some(42));
    assert_eq!(parse_u32("+7"), Some(7));
    assert_eq!(parse_u32("0"), Some(0));
    assert_eq!(parse_u32("4294967295"), Some(u32::MAX));
    assert_eq!(parse_u32("4294967296"), None);
    assert_eq!(parse_u32(""), None);
    assert_eq!(parse_u32("-1"), None);
    assert_eq!(parse_u32("1.0"), None);
}

#[test]
fn validator_accepts_percentages_only() {
    assert!(validator("0".to_string()).is_ok());
    assert!(validator("50".to_string()).is_ok());
    assert!(validator("100".to_string()).is_ok());
    assert_eq!(
        validator("101".to_string()),
        Err("value has to be between 0-100".to_string())
    );
    assert!(validator("abc".to_string()).is_err());
    assert!(validator("4294967296".to_string()).is_err());
    assert!(validator("-5".to_string()).is_err());
}
