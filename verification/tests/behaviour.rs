use decimal_bytes::encoding::{
    decode_to_string, encode_decimal, encode_decimal_with_constraints, DecimalError,
};
use decimal_bytes::parse::parse_decimal;
use decimal_bytes::truncate::truncate_decimal;
use decimal_bytes::Decimal;

fn enc(s: &str) -> Vec<u8> {
    encode_decimal(s).unwrap()
}

#[test]
fn exact_encodings() {
    assert_eq!(enc("0"), vec![0x80]);
    assert_eq!(enc("1"), vec![0xff, 0x40, 0x01, 0x10]);
    assert_eq!(enc("-1"), vec![0x00, 0xbf, 0xfe, 0x89, 0xff]);
    assert_eq!(enc("-2.5"), vec![0x00, 0xbf, 0xfe, 0x74, 0xff]);
    assert_eq!(enc("123.456"), vec![0xff, 0x40, 0x03, 0x12, 0x34, 0x56]);
    assert_eq!(enc("0.0001"), vec![0xff, 0x3f, 0xfd, 0x10]);
    assert_eq!(enc("1e100"), vec![0xff, 0x40, 0x65, 0x10]);
}

#[test]
fn storage_size_is_three_plus_half_the_digits() {
    // a negative value adds its terminator byte
    assert_eq!(enc("-123456789").len(), 9);
    // an escaped exponent adds four bytes
    assert_eq!(enc("0.1e49149").len(), 8);
    assert_eq!(enc("0.1e49148").len(), 4);
    // special values take three bytes
    assert_eq!(enc("-Infinity").len(), 3);
    // 9 significant digits: 1 + 2 + 5 bytes
    assert_eq!(enc("123456789").len(), 8);
    // 10 significant digits: 1 + 2 + 5 bytes
    assert_eq!(enc("1234567891").len(), 8);
    assert_eq!(enc("0.000001").len(), 4);
    assert_eq!(enc("-0").len(), 1);
}

#[test]
fn texts_of_one_number_share_one_encoding() {
    let a = enc("1.5");
    for t in ["1.50", "01.5", "15e-1", "0.15E1", "+1.5", "  1.5\t\n", "1.5e"] {
        assert_eq!(enc(t), a, "{}", t);
    }
}

#[test]
fn equal_values_share_bytes_and_different_ones_do_not() {
    let one = enc("1");
    for t in ["1.0", "+01", "10e-1", "0.1e1"] {
        assert_eq!(enc(t), one, "{}", t);
    }
    for t in ["1.01", "-1", "0.1", "10"] {
        assert_ne!(enc(t), one, "{}", t);
    }
}

#[test]
fn canonical_texts_come_back_letter_for_letter() {
    for t in ["0", "7", "-7", "120", "-0.05", "0.5", "3.14159", "-12.5", "100.001"] {
        assert_eq!(decode_to_string(&enc(t)).unwrap(), t);
    }
}

#[test]
fn texts_without_digits_read_as_zero() {
    for t in ["", "   ", "-", "+", ".", "-.", "e5", "-0.000", "0e99999999"] {
        assert_eq!(enc(t), vec![0x80], "{:?}", t);
    }
}

#[test]
fn refused_texts_give_the_errors() {
    assert_eq!(
        encode_decimal("1.2.3"),
        Err(DecimalError::InvalidFormat("Multiple decimal points".to_string()))
    );
    assert_eq!(
        encode_decimal("12a4"),
        Err(DecimalError::InvalidFormat("Invalid character: a".to_string()))
    );
    assert_eq!(
        encode_decimal("1 2"),
        Err(DecimalError::InvalidFormat("Invalid character:  ".to_string()))
    );
    assert_eq!(
        encode_decimal("1ex"),
        Err(DecimalError::InvalidFormat("Invalid exponent: x".to_string()))
    );
    assert_eq!(
        encode_decimal("1e2147483648"),
        Err(DecimalError::InvalidFormat("Invalid exponent: 2147483648".to_string()))
    );
    assert_eq!(
        encode_decimal("1e+-3"),
        Err(DecimalError::InvalidFormat("Invalid exponent: +-3".to_string()))
    );
    assert_eq!(encode_decimal("1e131072"), Err(DecimalError::PrecisionOverflow));
    assert_eq!(encode_decimal("1e-2147483648"), Err(DecimalError::PrecisionOverflow));
    assert_eq!(encode_decimal("1e99999").map(|b| b.len()), Ok(8));
    assert_eq!(encode_decimal("1e131071").map(|b| b.len()), Ok(8));
    assert_eq!(encode_decimal("0.1e-16383").map(|b| b.len()), Ok(4));
    assert_eq!(encode_decimal("0.1e-16384"), Err(DecimalError::PrecisionOverflow));
    assert_eq!(
        encode_decimal("-nan"),
        Err(DecimalError::InvalidFormat("Invalid character: n".to_string()))
    );
    assert_eq!(
        encode_decimal("infinite"),
        Err(DecimalError::InvalidFormat("Invalid character: i".to_string()))
    );
}

#[test]
fn parse_gives_sign_digits_exponent() {
    assert_eq!(parse_decimal("-001.2300e2").unwrap(), (true, vec![1, 2, 3], 3));
    assert_eq!(parse_decimal("0.00705").unwrap(), (false, vec![7, 0, 5], -2));
    assert_eq!(parse_decimal("-0").unwrap(), (false, vec![], 0));
}

#[test]
fn bad_bytes_are_refused() {
    assert_eq!(decode_to_string(&[]), Err(DecimalError::InvalidEncoding));
    assert_eq!(decode_to_string(&[0x01]), Err(DecimalError::InvalidEncoding));
    assert_eq!(decode_to_string(&[0xff, 0x40]), Err(DecimalError::InvalidEncoding));
    assert_eq!(decode_to_string(&[0xff, 0x40, 0x01, 0xa0]), Err(DecimalError::InvalidEncoding));
    assert_eq!(decode_to_string(&[0x00, 0xbf, 0xfe, 0x10]), Err(DecimalError::InvalidEncoding));
    assert_eq!(Decimal::from_bytes(&[0x7f]), Err(DecimalError::InvalidEncoding));
    assert_eq!(Decimal::from_bytes(&[0xff, 0xff, 0xfd]), Err(DecimalError::InvalidEncoding));
    assert_eq!(Decimal::from_bytes(&[0x00, 0x00, 0x01]), Err(DecimalError::InvalidEncoding));
}

#[test]
fn bytes_that_no_value_encodes_to_are_refused() {
    // Bytes after the zero sign byte, a missing mantissa, extra zero padding,
    // a leading zero digit: none of these is the encoding of a value.
    for b in [
        &[0x80, 0x01][..],
        &[0x80, 1, 2][..],
        &[0xff, 0x40, 0x01][..],
        &[0xff, 0x40, 0x02, 0x10, 0x00][..],
        &[0xff, 0x40, 0x02, 0x01][..],
        &[0x00, 0xbf, 0xfe, 0x89][..],
        &[0x00, 0xbf, 0xfe, 0x89, 0xff, 0xff][..],
    ] {
        assert_eq!(decode_to_string(b), Err(DecimalError::InvalidEncoding), "{:?}", b);
        assert_eq!(Decimal::from_bytes(b), Err(DecimalError::InvalidEncoding), "{:?}", b);
    }
    // the encodings themselves are accepted
    for t in ["0", "-1", "1e-16000", "1e99999", "-1e99999", "NaN", "-Infinity"] {
        assert_eq!(Decimal::from_bytes(&enc(t)).unwrap().as_bytes(), &enc(t)[..]);
    }
}

#[test]
fn decoding_formats_plainly() {
    for (t, out) in [
        ("1e3", "1000"),
        ("-1.5e-3", "-0.0015"),
        ("12.5e1", "125"),
        ("0.000001", "0.000001"),
        ("-123.456", "-123.456"),
        ("100", "100"),
    ] {
        assert_eq!(decode_to_string(&enc(t)).unwrap(), out);
    }
}

#[test]
fn byte_order_follows_numbers() {
    let ordered = [
        "-1e300", "-12", "-11.6", "-11.5", "-2", "-1.2", "-1.1", "-0.5", "-0.01", "0", "1e-300",
        "0.0099", "0.01", "0.011", "0.1", "0.9999", "1", "1.0001", "2", "10", "10.5", "99",
        "100", "1e300",
    ];
    for w in ordered.windows(2) {
        assert!(enc(w[0]) < enc(w[1]), "{} < {}", w[0], w[1]);
    }
}

#[test]
fn negative_values_with_longer_digits_sort_lower() {
    for (smaller, larger) in [("-0.1203", "-0.12"), ("-11.5", "-11"), ("-1.01", "-1")] {
        assert!(enc(smaller) < enc(larger), "{} < {}", smaller, larger);
        let a = Decimal::from_str(smaller).unwrap();
        let b = Decimal::from_str(larger).unwrap();
        assert!(a < b);
        assert_eq!(a.partial_cmp(&b), Some(std::cmp::Ordering::Less));
    }
}

#[test]
fn special_values_read_by_name_in_any_case() {
    for (t, name) in [
        ("Infinity", "Infinity"),
        ("inf", "Infinity"),
        ("INF", "Infinity"),
        ("+infinity", "Infinity"),
        (" -Inf ", "-Infinity"),
        ("-INFINITY", "-Infinity"),
        ("NaN", "NaN"),
        ("nan", "NaN"),
        ("\tNAN\n", "NaN"),
    ] {
        let d = Decimal::from_str(t).unwrap();
        assert_eq!(d.to_string(), name, "{:?}", t);
        assert!(!d.is_finite());
    }
    assert_eq!(enc("Infinity"), vec![0xff, 0xff, 0xfe]);
    assert_eq!(enc("-Infinity"), vec![0x00, 0x00, 0x00]);
    assert_eq!(enc("NaN"), vec![0xff, 0xff, 0xff]);
    assert_eq!(decode_to_string(&[0xff, 0xff, 0xfe]).unwrap(), "Infinity");
}

#[test]
fn special_value_constructors_and_tests() {
    let pos = Decimal::infinity();
    let neg = Decimal::neg_infinity();
    let nan = Decimal::nan();
    assert!(pos.is_infinity() && pos.is_pos_infinity() && !pos.is_neg_infinity());
    assert!(neg.is_infinity() && neg.is_neg_infinity() && !neg.is_pos_infinity());
    assert!(nan.is_nan() && !nan.is_infinity());
    assert!(!pos.is_finite() && !neg.is_finite() && !nan.is_finite());
    assert!(Decimal::from_str("1.5").unwrap().is_finite());
    assert!(pos.is_positive() && !pos.is_negative());
    assert!(neg.is_negative() && !neg.is_positive());
    assert!(!nan.is_positive() && !nan.is_negative() && !nan.is_zero());
    assert!(neg < Decimal::from_str("-1000000").unwrap());
    assert!(Decimal::from_str("1000000").unwrap() < pos);
    assert!(pos < nan);
    assert_eq!(pos, Decimal::from_str("inf").unwrap());
    assert!(pos != neg);
}

#[test]
fn truncation_rounds_and_cuts() {
    assert_eq!(truncate_decimal("2.5", None, Some(0)).unwrap(), "3");
    assert_eq!(truncate_decimal("2.4", None, Some(0)).unwrap(), "2");
    assert_eq!(truncate_decimal("-1.005", None, Some(2)).unwrap(), "-1.01");
    assert_eq!(truncate_decimal("-0.004", None, Some(2)).unwrap(), "0");
    assert_eq!(truncate_decimal("99.99", Some(3), Some(1)).unwrap(), "0");
    assert_eq!(truncate_decimal("12345.67", Some(5), Some(2)).unwrap(), "345.67");
    assert_eq!(truncate_decimal("12345.67", Some(2), Some(2)).unwrap(), "0.67");
    assert_eq!(truncate_decimal("007.1200", None, None).unwrap(), "7.12");
    assert_eq!(truncate_decimal("1.54", Some(10), Some(5)).unwrap(), "1.54");
    assert_eq!(truncate_decimal("1.5e3", None, Some(0)).unwrap(), "1500");
    assert_eq!(truncate_decimal("12345", Some(10), Some(-3)).unwrap(), "12000");
    assert_eq!(truncate_decimal("12500", None, Some(-3)).unwrap(), "13000");
    assert_eq!(truncate_decimal("499", None, Some(-3)).unwrap(), "0");
    assert_eq!(truncate_decimal("1.23456", Some(3), None).unwrap(), "1.23");
    assert_eq!(truncate_decimal("999", Some(2), None).unwrap(), "99");
    assert_eq!(truncate_decimal("12345", Some(3), None).unwrap(), "345");
    assert_eq!(truncate_decimal("12345.678", Some(3), None).unwrap(), "346");
    assert_eq!(truncate_decimal("999.95", Some(3), None).unwrap(), "1000");
    assert_eq!(truncate_decimal("0.5", Some(1), Some(2)).unwrap(), "0.5");
    assert_eq!(truncate_decimal("12.345", Some(1), Some(2)).unwrap(), "0.35");
    assert_eq!(truncate_decimal("-Inf", Some(2), Some(1)).unwrap(), "-Infinity");
    assert_eq!(
        truncate_decimal("0.95e131072", None, Some(-131071)),
        Err(DecimalError::PrecisionOverflow)
    );
    assert_eq!(
        truncate_decimal("--+5.0", None, None),
        Err(DecimalError::InvalidFormat("Invalid character: -".to_string()))
    );
    assert_eq!(
        truncate_decimal(" 1.5é ", None, Some(1)),
        Err(DecimalError::InvalidFormat("Invalid character: é".to_string()))
    );
    assert_eq!(
        encode_decimal_with_constraints("1.a9", None, Some(1)),
        Err(DecimalError::InvalidFormat("Invalid character: a".to_string()))
    );
}

#[test]
fn no_constraint_changes_nothing() {
    for t in ["0", "-1.5e3", "123.456", "1e99999", "NaN", "-inf", "0.1e-16383"] {
        assert_eq!(encode_decimal_with_constraints(t, None, None), encode_decimal(t), "{}", t);
    }
    for t in ["--1", "+-1", "1.2.3", "0.1e-16384"] {
        assert!(encode_decimal_with_constraints(t, None, None).is_err(), "{}", t);
    }
}

#[test]
fn constraints_apply_before_encoding() {
    assert_eq!(
        encode_decimal_with_constraints("123.456", Some(10), Some(2)).unwrap(),
        enc("123.46")
    );
    assert_eq!(
        Decimal::with_precision_scale("12345", Some(10), None).unwrap().to_string(),
        "12345"
    );
    assert_eq!(
        Decimal::with_precision_scale("1.2.3", None, Some(5)),
        Err(DecimalError::InvalidFormat("Multiple decimal points".to_string()))
    );
}

#[test]
fn decimal_accessors() {
    let d = Decimal::from_str("-2.5").unwrap();
    assert_eq!(d.as_bytes(), &[0x00, 0xbf, 0xfe, 0x74, 0xff][..]);
    assert_eq!(d.byte_len(), 5);
    assert!(d.is_negative() && !d.is_positive() && !d.is_zero());
    let c = d.clone();
    assert_eq!(c, d);
    assert_eq!(c.into_bytes(), vec![0x00, 0xbf, 0xfe, 0x74, 0xff]);
    let z = Decimal::default();
    assert!(z.is_zero());
    assert_eq!(z.to_string(), "0");
    let u = Decimal::from_bytes_unchecked(vec![0xff, 0x40, 0x01, 0x10]);
    assert_eq!(u.to_string(), "1");
    let p: Decimal = "42".parse().unwrap();
    assert_eq!(p, Decimal::from(42u8));
}

#[test]
fn integers_convert_through_their_text() {
    assert_eq!(Decimal::from(0u32).to_string(), "0");
    assert_eq!(Decimal::from(-7i8).to_string(), "-7");
    assert_eq!(Decimal::from(1000u16).to_string(), "1000");
    assert_eq!(Decimal::from(i64::MIN).to_string(), i64::MIN.to_string());
    assert_eq!(Decimal::from(i128::MIN).to_string(), i128::MIN.to_string());
    assert_eq!(Decimal::from(u128::MAX).to_string(), u128::MAX.to_string());
    assert_eq!(Decimal::from(u64::MAX).to_string(), u64::MAX.to_string());
    assert_eq!(Decimal::from(-100i16), Decimal::from_str("-1e2").unwrap());
    assert_eq!(Decimal::from_integer(true, 0).to_string(), "0");
}
