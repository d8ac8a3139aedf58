use decimal_bytes::encoding::{decode_to_string, encode_decimal, SIGN_ZERO};
use decimal_bytes::truncate::truncate_decimal;

#[test]
fn test_encode_decode_roundtrip() {
    let values = vec![
        "0",
        "1",
        "-1",
        "123.456",
        "-123.456",
        "0.001",
        "0.1",
        "10",
        "100",
        "1000",
        "-0.001",
        "999999999999999999",
    ];

    for s in values {
        let encoded = encode_decimal(s).unwrap();
        let decoded = decode_to_string(&encoded).unwrap();
        // Re-encode to normalize
        let re_encoded = encode_decimal(&decoded).unwrap();
        assert_eq!(encoded, re_encoded, "Roundtrip failed for {}", s);
    }
}

#[test]
fn test_lexicographic_ordering() {
    let values = vec![
        "-1000", "-100", "-10", "-1", "-0.1", "-0.01", "0", "0.01", "0.1", "1", "10", "100",
        "1000",
    ];

    let encoded: Vec<Vec<u8>> = values
        .iter()
        .map(|s| encode_decimal(s).unwrap())
        .collect();

    // Verify encoding preserves order
    for i in 0..encoded.len() - 1 {
        assert!(
            encoded[i] < encoded[i + 1],
            "Ordering failed: {} should be < {}",
            values[i],
            values[i + 1]
        );
    }
}

#[test]
fn test_zero_encoding() {
    let encoded = encode_decimal("0").unwrap();
    assert_eq!(encoded, vec![SIGN_ZERO]);

    let encoded = encode_decimal("0.0").unwrap();
    assert_eq!(encoded, vec![SIGN_ZERO]);

    let encoded = encode_decimal("-0").unwrap();
    assert_eq!(encoded, vec![SIGN_ZERO]);
}

#[test]
fn test_truncate_scale() {
    assert_eq!(truncate_decimal("123.456", None, Some(2)).unwrap(), "123.46");
    assert_eq!(truncate_decimal("123.454", None, Some(2)).unwrap(), "123.45");
    assert_eq!(truncate_decimal("123.995", None, Some(2)).unwrap(), "124");
    assert_eq!(truncate_decimal("9.999", None, Some(2)).unwrap(), "10");
}

#[test]
fn test_storage_efficiency() {
    // 9 digit number: should be ~1 sign + 2 exp + 5 mantissa = 8 bytes
    let encoded = encode_decimal("123456789").unwrap();
    assert!(
        encoded.len() <= 8,
        "Expected <= 8 bytes, got {}",
        encoded.len()
    );

    // Small decimal
    let encoded = encode_decimal("0.1").unwrap();
    assert!(
        encoded.len() <= 4,
        "Expected <= 4 bytes, got {}",
        encoded.len()
    );
}
