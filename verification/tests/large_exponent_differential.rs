use decimal_bytes::Decimal;
use std::cmp::Ordering;

/// Widest normalized exponent the encoding accepts, matching PostgreSQL's limit
/// of 131072 digits to the left of the decimal point.
const MAX_NORMALIZED_EXPONENT: i64 = 131_072;

/// Smallest normalized exponent, matching PostgreSQL's 16383 digits to the
/// right of the decimal point.
const MIN_NORMALIZED_EXPONENT: i64 = -16_383;

/// Last normalized exponent that still fits the inline 2-byte exponent field.
/// Values above this take the escaped form.
const LAST_INLINE_EXPONENT: i64 = 49_148;

/// A value expressed the way the encoding thinks of it: `sign * 0.<digits> *
/// 10^normalized_exponent`, with `digits` carrying no leading or trailing zero.
#[derive(Debug, Clone, PartialEq, Eq)]
struct Value {
    negative: bool,
    digits: String,
    normalized_exponent: i64,
}

impl Value {
    /// Renders as scientific notation, which every parser here accepts and
    /// which avoids materializing 131072-character strings.
    fn to_scientific(&self) -> String {
        format!(
            "{}0.{}e{}",
            if self.negative { "-" } else { "" },
            self.digits,
            self.normalized_exponent
        )
    }

    /// The mathematical ordering, derived only from the parts, never from bytes.
    fn cmp_mathematically(&self, other: &Self) -> Ordering {
        let magnitude = self
            .normalized_exponent
            .cmp(&other.normalized_exponent)
            .then_with(|| self.digits.cmp(&other.digits));

        match (self.negative, other.negative) {
            (false, false) => magnitude,
            (true, true) => magnitude.reverse(),
            (true, false) => Ordering::Less,
            (false, true) => Ordering::Greater,
        }
    }

    fn encode(&self) -> Vec<u8> {
        Decimal::from_str(&self.to_scientific())
            .unwrap_or_else(|e| panic!("{} failed to encode: {e:?}", self.to_scientific()))
            .into_bytes()
    }
}

/// Walks every exponent in a window straddling the escape boundary and checks
/// the whole sequence is strictly increasing, for both signs.
#[test]
fn exhaustive_sweep_across_the_escape_boundary() {
    for negative in [false, true] {
        let values: Vec<Value> = (LAST_INLINE_EXPONENT - 40..=LAST_INLINE_EXPONENT + 40)
            .map(|normalized_exponent| Value {
                negative,
                digits: "1234567890123456789".to_string(),
                normalized_exponent,
            })
            .collect();

        let mut sorted = values.clone();
        sorted.sort_by(|a, b| a.cmp_mathematically(b));

        let mut by_bytes = values.clone();
        by_bytes.sort_by_key(|v| v.encode());

        assert_eq!(by_bytes, sorted, "sweep mismatch (negative={negative})");
    }
}

/// The extremes of PostgreSQL's range, including full-width mantissas.
#[test]
fn extremes_round_trip_and_order() {
    let widest_integer: String = (0..131_072)
        .map(|i| (b'1' + (i % 9) as u8) as char)
        .collect();
    let widest_full = {
        let mut s = widest_integer.clone();
        s.push('.');
        s.extend((0..16_383).map(|i| (b'1' + (i % 9) as u8) as char));
        s
    };

    for input in [&widest_integer, &widest_full] {
        let d = Decimal::from_str(input).expect("widest PostgreSQL value should encode");
        assert_eq!(&d.to_string(), input, "widest value did not round-trip");
    }

    // 147455 significant digits is the most PostgreSQL can hold, and it must
    // still sort above every shorter value with the same leading digits.
    let smaller = Decimal::from_str(&widest_integer).unwrap().into_bytes();
    let larger = Decimal::from_str(&widest_full).unwrap().into_bytes();
    assert!(smaller < larger);
}

/// Anything past PostgreSQL's own limits must be refused rather than silently
/// wrapping into a wrong encoding.
#[test]
fn out_of_range_is_rejected() {
    let cases = [
        format!("0.1e{}", MAX_NORMALIZED_EXPONENT + 1),
        format!("-0.1e{}", MAX_NORMALIZED_EXPONENT + 1),
        format!("0.1e{}", MIN_NORMALIZED_EXPONENT - 1),
        format!("-0.1e{}", MIN_NORMALIZED_EXPONENT - 1),
        "1e999999999".to_string(),
        "-1e999999999".to_string(),
    ];
    for case in cases {
        assert!(
            Decimal::from_str(&case).is_err(),
            "{case} should have been rejected"
        );
    }
}

/// Special values must keep their positions now that escaped encodings sit
/// between the ordinary numbers and the infinities.
#[test]
fn specials_still_bound_the_escaped_range() {
    let neg_inf = Decimal::from_str("-Infinity").unwrap().into_bytes();
    let pos_inf = Decimal::from_str("Infinity").unwrap().into_bytes();
    let nan = Decimal::from_str("NaN").unwrap().into_bytes();

    let biggest = Decimal::from_str(&format!("0.9e{MAX_NORMALIZED_EXPONENT}"))
        .unwrap()
        .into_bytes();
    let smallest = Decimal::from_str(&format!("-0.9e{MAX_NORMALIZED_EXPONENT}"))
        .unwrap()
        .into_bytes();

    assert!(neg_inf < smallest, "-Infinity must sort below every value");
    assert!(biggest < pos_inf, "+Infinity must sort above every value");
    assert!(pos_inf < nan, "NaN must sort last, as in PostgreSQL");
}
