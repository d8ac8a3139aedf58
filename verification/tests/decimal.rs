use decimal_bytes::Decimal;

#[test]
fn test_from_str() {
    let d = Decimal::from_str("123.456").unwrap();
    assert_eq!(d.to_string(), "123.456");
}

#[test]
fn test_zero() {
    let d = Decimal::from_str("0").unwrap();
    assert!(d.is_zero());
    assert!(!d.is_negative());
    assert!(!d.is_positive());
}

#[test]
fn test_negative() {
    let d = Decimal::from_str("-123.456").unwrap();
    assert!(d.is_negative());
    assert!(!d.is_zero());
    assert!(!d.is_positive());
}

#[test]
fn test_positive() {
    let d = Decimal::from_str("123.456").unwrap();
    assert!(d.is_positive());
    assert!(!d.is_zero());
    assert!(!d.is_negative());
}

#[test]
fn test_ordering() {
    let values = vec!["-100", "-10", "-1", "-0.1", "0", "0.1", "1", "10", "100"];
    let decimals: Vec<Decimal> = values
        .iter()
        .map(|s| Decimal::from_str(s).unwrap())
        .collect();

    // Check that ordering is correct
    for i in 0..decimals.len() - 1 {
        assert!(
            decimals[i] < decimals[i + 1],
            "{} should be < {}",
            values[i],
            values[i + 1]
        );
    }

    // Check that byte ordering matches
    for i in 0..decimals.len() - 1 {
        assert!(
            decimals[i].as_bytes() < decimals[i + 1].as_bytes(),
            "bytes of {} should be < bytes of {}",
            values[i],
            values[i + 1]
        );
    }
}

#[test]
fn test_roundtrip() {
    let values = vec![
        "0",
        "1",
        "-1",
        "123.456",
        "-123.456",
        "0.001",
        "0.1",
        "10",
        "100",
        "1000000",
        "-1000000",
    ];

    for s in values {
        let d = Decimal::from_str(s).unwrap();
        let bytes = d.as_bytes();
        let restored = Decimal::from_bytes(bytes).unwrap();
        assert_eq!(d, restored, "Roundtrip failed for {}", s);
    }
}

#[test]
fn test_precision_scale() {
    // Round to 2 decimal places
    let d = Decimal::with_precision_scale("123.456", Some(10), Some(2)).unwrap();
    assert_eq!(d.to_string(), "123.46");

    // When precision is exceeded, least significant integer digits are kept
    let d = Decimal::with_precision_scale("12345.67", Some(5), Some(2)).unwrap();
    assert_eq!(d.to_string(), "345.67"); // 5 digits total, 2 after decimal = 3 integer digits max

    // Rounding within precision limits
    let d = Decimal::with_precision_scale("99.999", Some(5), Some(2)).unwrap();
    assert_eq!(d.to_string(), "100"); // Rounds up, fits in precision
}

#[test]
fn test_from_integer() {
    let d = Decimal::from(42i64);
    assert_eq!(d.to_string(), "42");

    let d = Decimal::from(-100i32);
    assert_eq!(d.to_string(), "-100");
}

#[test]
fn test_byte_efficiency() {
    // Check that storage is reasonably efficient
    let d = Decimal::from_str("123456789").unwrap();
    // 1 byte sign + ~2 bytes exponent + ~5 bytes mantissa (9 digits / 2)
    assert!(d.byte_len() <= 10, "Expected <= 10 bytes, got {}", d.byte_len());

    let d = Decimal::from_str("0.000001").unwrap();
    // Should be compact for small numbers too
    assert!(d.byte_len() <= 6, "Expected <= 6 bytes, got {}", d.byte_len());
}
