//! # decimal_bytes
//!
//! Arbitrary precision decimals with lexicographically sortable byte encoding.
//!
//! A `Decimal` stores a decimal number as bytes in a format whose byte-wise
//! comparison follows the numerical order, which makes it fit for database keys
//! and range queries.
//!
//! - **Bytes-first storage**: the primary representation is a compact byte array
//! - **Lexicographic ordering**: byte comparison matches numerical comparison
//!   (see `laws`)
//! - **Arbitrary precision**: up to 131,072 digits before and 16,383 digits
//!   after the decimal point
//! - **SQL NUMERIC compatibility**: precision and scale constraints (scale may
//!   be negative), and the special values Infinity, -Infinity and NaN, sorted
//!   as `-Infinity < negatives < zero < positives < Infinity < NaN`
use vstd::prelude::*;

pub mod encoding;
pub mod format;
pub mod integer;
pub mod laws;

pub mod compare;
pub mod order;
pub mod parse;
pub mod roundtrip;
pub mod special;
pub mod text;
pub mod truncate;
pub mod value;

pub use encoding::DecimalError;
pub use special::Special;

use encoding::{
    decode_finite, decode_text, decode_to_string, decode_value, encode_decimal,
    encode_number, encode_text, lemma_decode_number,
    lemma_read_number_valid, read_number, Number, SIGN_NEGATIVE, SIGN_POSITIVE, SIGN_ZERO,
};
use integer::{integer_text, lemma_integer_text_reads, text_of_integer};
use special::{special_bytes, special_from_bytes, special_to_bytes};
use truncate::{constrained_number, encode_decimal_with_constraints, lemma_constrained_valid};

verus! {

/// An arbitrary precision decimal number stored as sortable bytes.
///
/// The byte representation is lexicographically sortable: comparing the bytes
/// yields the same result as comparing the numerical values.
///
/// The encoding uses 1 byte for the sign, 2 bytes for the exponent (6 for an
/// exponent above 49148), and 4 bits per decimal digit (two digits per byte);
/// the special values take 3 bytes each.
#[derive(Debug, Eq, Ord, Hash)]
pub struct Decimal {
    bytes: Vec<u8>,
}

impl View for Decimal {
    type V = Seq<u8>;

    closed spec fn view(&self) -> Seq<u8> {
        self.bytes@
    }
}

/// A byte string that the decoder accepts: the encoding of some value.
pub open spec fn is_encoding(b: Seq<u8>) -> bool {
    decode_value(b) is Some
}

/// The result of making a `Decimal` out of what a text reads as.
pub open spec fn decimal_agrees(
    res: Result<Decimal, DecimalError>,
    o: Result<Seq<u8>, Option<Seq<char>>>,
) -> bool {
    match o {
        Ok(b) => res matches Ok(d) && d@ == b,
        Err(m) => res matches Err(e) && crate::parse::error_matches(e, m),
    }
}

impl Decimal {
    /// The bytes are the encoding of a value.
    #[verifier::type_invariant]
    closed spec fn decodes(self) -> bool {
        is_encoding(self.bytes@)
    }

    /// Creates a new Decimal from a string representation.
    ///
    /// Succeeds exactly where the text reads as a value (`read_number`), with
    /// the encoding of what it reads; otherwise gives the error that reading
    /// stops on.
    pub fn from_str(s: &str) -> (res: Result<Self, DecimalError>)
        ensures
            decimal_agrees(res, encode_text(s@)),
    {
        proof {
            lemma_read_number_valid(s@);
            if let Ok(n) = read_number(s@) {
                lemma_decode_number(n);
            }
        }
        let bytes = encode_decimal(s)?;
        Ok(Self { bytes })
    }

    /// Creates a new Decimal with precision and scale constraints.
    ///
    /// The text is read as `from_str` reads it. A finite value is then fitted
    /// as SQL NUMERIC(precision, scale) does: with a scale it is rounded to
    /// `scale` fraction digits (ties away from zero; a negative scale rounds
    /// to the left of the decimal point), and a precision keeps the least
    /// significant `precision - scale` integer digits (none where the
    /// precision is not above the scale). With a precision and no scale it
    /// keeps the least significant `precision` integer digits and is rounded
    /// to `precision` significant digits.
    pub fn with_precision_scale(s: &str, precision: Option<u32>, scale: Option<i32>) -> (res:
        Result<Self, DecimalError>)
        ensures
            decimal_agrees(res, constrained_number(s@, precision, scale)),
    {
        proof {
            lemma_constrained_valid(s@, precision, scale);
        }
        let bytes = encode_decimal_with_constraints(s, precision, scale)?;
        Ok(Self { bytes })
    }

    /// Creates a Decimal from raw bytes: succeeds exactly where the bytes are
    /// the encoding of a value.
    pub fn from_bytes(bytes: &[u8]) -> (res: Result<Self, DecimalError>)
        ensures
            is_encoding(bytes@) ==> (res matches Ok(d) && d@ == bytes@),
            !is_encoding(bytes@) ==> res matches Err(DecimalError::InvalidEncoding),
    {
        if special_from_bytes(bytes).is_none() {
            let _ = decode_finite(bytes)?;
        }
        Ok(Self { bytes: vstd::slice::slice_to_vec(bytes) })
    }

    /// Creates a Decimal from raw bytes without validation: the bytes must be
    /// the encoding of a value.
    pub fn from_bytes_unchecked(bytes: Vec<u8>) -> (res: Self)
        requires
            is_encoding(bytes@),
        ensures
            res@ == bytes@,
    {
        Self { bytes }
    }

    /// Returns the raw byte representation.
    pub fn as_bytes(&self) -> (res: &[u8])
        ensures
            res@ == self@,
            is_encoding(res@),
    {
        proof {
            use_type_invariant(self);
        }
        self.bytes.as_slice()
    }

    /// Consumes the Decimal and returns the underlying bytes.
    pub fn into_bytes(self) -> (res: Vec<u8>)
        ensures
            res@ == self@,
            is_encoding(res@),
    {
        proof {
            use_type_invariant(&self);
        }
        self.bytes
    }

    /// Returns the string representation of this decimal, computed from the bytes.
    pub fn to_string(&self) -> (res: String)
        ensures
            res@ == decode_text(self@).unwrap(),
    {
        proof {
            use_type_invariant(self);
        }
        decode_to_string(self.bytes.as_slice()).expect("Decimal contains valid bytes")
    }

    /// Positive infinity.
    pub fn infinity() -> (res: Self)
        ensures
            res@ == special_bytes(Special::Infinity),
    {
        Self { bytes: special_to_bytes(Special::Infinity) }
    }

    /// Negative infinity.
    pub fn neg_infinity() -> (res: Self)
        ensures
            res@ == special_bytes(Special::NegativeInfinity),
    {
        Self { bytes: special_to_bytes(Special::NegativeInfinity) }
    }

    /// Not a number.
    pub fn nan() -> (res: Self)
        ensures
            res@ == special_bytes(Special::NaN),
    {
        Self { bytes: special_to_bytes(Special::NaN) }
    }

    /// The special value that this decimal is, if any.
    fn special(&self) -> (res: Option<Special>)
        ensures
            res == crate::special::special_of_bytes(self@),
    {
        special_from_bytes(self.bytes.as_slice())
    }

    /// Returns true for Infinity and -Infinity.
    pub fn is_infinity(&self) -> (res: bool)
        ensures
            res == (self@ == special_bytes(Special::Infinity) || self@ == special_bytes(
                Special::NegativeInfinity,
            )),
    {
        match self.special() {
            Some(Special::Infinity) => true,
            Some(Special::NegativeInfinity) => true,
            _ => false,
        }
    }

    /// Returns true for Infinity.
    pub fn is_pos_infinity(&self) -> (res: bool)
        ensures
            res == (self@ == special_bytes(Special::Infinity)),
    {
        match self.special() {
            Some(Special::Infinity) => true,
            _ => false,
        }
    }

    /// Returns true for -Infinity.
    pub fn is_neg_infinity(&self) -> (res: bool)
        ensures
            res == (self@ == special_bytes(Special::NegativeInfinity)),
    {
        match self.special() {
            Some(Special::NegativeInfinity) => true,
            _ => false,
        }
    }

    /// Returns true for NaN.
    pub fn is_nan(&self) -> (res: bool)
        ensures
            res == (self@ == special_bytes(Special::NaN)),
    {
        match self.special() {
            Some(Special::NaN) => true,
            _ => false,
        }
    }

    /// Returns true for a finite value: neither infinity nor NaN.
    pub fn is_finite(&self) -> (res: bool)
        ensures
            res == (decode_value(self@) matches Some(Number::Finite(_, _, _))),
    {
        proof {
            use_type_invariant(self);
        }
        self.special().is_none()
    }

    /// Returns true if this decimal is zero.
    pub fn is_zero(&self) -> (res: bool)
        ensures
            res == (self@ == seq![SIGN_ZERO]),
    {
        let r = self.bytes.len() == 1 && self.bytes[0] == SIGN_ZERO;
        assert(r == (self@ =~= seq![SIGN_ZERO]));
        r
    }

    /// Returns true if the value is below zero (-Infinity included).
    pub fn is_negative(&self) -> (res: bool)
        ensures
            res == (self@.len() > 0 && self@[0] == SIGN_NEGATIVE),
    {
        self.bytes.len() != 0 && self.bytes[0] == SIGN_NEGATIVE
    }

    /// Returns true if the value is above zero (Infinity included, NaN not).
    pub fn is_positive(&self) -> (res: bool)
        ensures
            res == (self@.len() > 0 && self@[0] == SIGN_POSITIVE && self@ != special_bytes(
                Special::NaN,
            )),
    {
        self.bytes.len() != 0 && self.bytes[0] == SIGN_POSITIVE && !self.is_nan()
    }

    /// Returns the number of bytes used to store this decimal.
    pub fn byte_len(&self) -> (res: usize)
        ensures
            res == self@.len(),
    {
        self.bytes.len()
    }

    /// The decimal of an integer, as its decimal text reads.
    pub fn from_integer(negative: bool, magnitude: u128) -> (res: Self)
        ensures
            res@ == encode_text(integer_text(negative, magnitude as int))->Ok_0,
    {
        let text = text_of_integer(negative, magnitude);
        proof {
            lemma_integer_text_reads(negative, magnitude as int);
        }
        Decimal::from_str(text.as_str()).expect("Integer is always valid")
    }
}

/// The absolute value.
pub open spec fn abs(v: int) -> int {
    if v < 0 {
        -v
    } else {
        v
    }
}

/// The magnitude of a 128-bit integer.
fn magnitude_of(v: i128) -> (m: u128)
    ensures
        m == abs(v as int),
{
    if v < 0 {
        (-(v + 1)) as u128 + 1
    } else {
        v as u128
    }
}

impl From<i8> for Decimal {
    /// The decimal of the integer, as its decimal text reads.
    fn from(val: i8) -> (res: Self)
        ensures
            res@ == encode_text(integer_text(val < 0, abs(val as int)))->Ok_0,
    {
        Decimal::from_integer(val < 0, magnitude_of(val as i128))
    }
}

impl vstd::std_specs::convert::FromSpecImpl<i8> for Decimal {
    /// The contract of `from` is stated on the method itself, over the bytes.
    open spec fn obeys_from_spec() -> bool {
        false
    }

    open spec fn from_spec(v: i8) -> Self {
        vstd::pervasive::arbitrary()
    }
}

impl From<i16> for Decimal {
    /// The decimal of the integer, as its decimal text reads.
    fn from(val: i16) -> (res: Self)
        ensures
            res@ == encode_text(integer_text(val < 0, abs(val as int)))->Ok_0,
    {
        Decimal::from_integer(val < 0, magnitude_of(val as i128))
    }
}

impl vstd::std_specs::convert::FromSpecImpl<i16> for Decimal {
    /// The contract of `from` is stated on the method itself, over the bytes.
    open spec fn obeys_from_spec() -> bool {
        false
    }

    open spec fn from_spec(v: i16) -> Self {
        vstd::pervasive::arbitrary()
    }
}

impl From<i32> for Decimal {
    /// The decimal of the integer, as its decimal text reads.
    fn from(val: i32) -> (res: Self)
        ensures
            res@ == encode_text(integer_text(val < 0, abs(val as int)))->Ok_0,
    {
        Decimal::from_integer(val < 0, magnitude_of(val as i128))
    }
}

impl vstd::std_specs::convert::FromSpecImpl<i32> for Decimal {
    /// The contract of `from` is stated on the method itself, over the bytes.
    open spec fn obeys_from_spec() -> bool {
        false
    }

    open spec fn from_spec(v: i32) -> Self {
        vstd::pervasive::arbitrary()
    }
}

impl From<i64> for Decimal {
    /// The decimal of the integer, as its decimal text reads.
    fn from(val: i64) -> (res: Self)
        ensures
            res@ == encode_text(integer_text(val < 0, abs(val as int)))->Ok_0,
    {
        Decimal::from_integer(val < 0, magnitude_of(val as i128))
    }
}

impl vstd::std_specs::convert::FromSpecImpl<i64> for Decimal {
    /// The contract of `from` is stated on the method itself, over the bytes.
    open spec fn obeys_from_spec() -> bool {
        false
    }

    open spec fn from_spec(v: i64) -> Self {
        vstd::pervasive::arbitrary()
    }
}

impl From<i128> for Decimal {
    /// The decimal of the integer, as its decimal text reads.
    fn from(val: i128) -> (res: Self)
        ensures
            res@ == encode_text(integer_text(val < 0, abs(val as int)))->Ok_0,
    {
        Decimal::from_integer(val < 0, magnitude_of(val as i128))
    }
}

impl vstd::std_specs::convert::FromSpecImpl<i128> for Decimal {
    /// The contract of `from` is stated on the method itself, over the bytes.
    open spec fn obeys_from_spec() -> bool {
        false
    }

    open spec fn from_spec(v: i128) -> Self {
        vstd::pervasive::arbitrary()
    }
}

impl From<u8> for Decimal {
    /// The decimal of the integer, as its decimal text reads.
    fn from(val: u8) -> (res: Self)
        ensures
            res@ == encode_text(integer_text(false, val as int))->Ok_0,
    {
        Decimal::from_integer(false, val as u128)
    }
}

impl vstd::std_specs::convert::FromSpecImpl<u8> for Decimal {
    /// The contract of `from` is stated on the method itself, over the bytes.
    open spec fn obeys_from_spec() -> bool {
        false
    }

    open spec fn from_spec(v: u8) -> Self {
        vstd::pervasive::arbitrary()
    }
}

impl From<u16> for Decimal {
    /// The decimal of the integer, as its decimal text reads.
    fn from(val: u16) -> (res: Self)
        ensures
            res@ == encode_text(integer_text(false, val as int))->Ok_0,
    {
        Decimal::from_integer(false, val as u128)
    }
}

impl vstd::std_specs::convert::FromSpecImpl<u16> for Decimal {
    /// The contract of `from` is stated on the method itself, over the bytes.
    open spec fn obeys_from_spec() -> bool {
        false
    }

    open spec fn from_spec(v: u16) -> Self {
        vstd::pervasive::arbitrary()
    }
}

impl From<u32> for Decimal {
    /// The decimal of the integer, as its decimal text reads.
    fn from(val: u32) -> (res: Self)
        ensures
            res@ == encode_text(integer_text(false, val as int))->Ok_0,
    {
        Decimal::from_integer(false, val as u128)
    }
}

impl vstd::std_specs::convert::FromSpecImpl<u32> for Decimal {
    /// The contract of `from` is stated on the method itself, over the bytes.
    open spec fn obeys_from_spec() -> bool {
        false
    }

    open spec fn from_spec(v: u32) -> Self {
        vstd::pervasive::arbitrary()
    }
}

impl From<u64> for Decimal {
    /// The decimal of the integer, as its decimal text reads.
    fn from(val: u64) -> (res: Self)
        ensures
            res@ == encode_text(integer_text(false, val as int))->Ok_0,
    {
        Decimal::from_integer(false, val as u128)
    }
}

impl vstd::std_specs::convert::FromSpecImpl<u64> for Decimal {
    /// The contract of `from` is stated on the method itself, over the bytes.
    open spec fn obeys_from_spec() -> bool {
        false
    }

    open spec fn from_spec(v: u64) -> Self {
        vstd::pervasive::arbitrary()
    }
}

impl From<u128> for Decimal {
    /// The decimal of the integer, as its decimal text reads.
    fn from(val: u128) -> (res: Self)
        ensures
            res@ == encode_text(integer_text(false, val as int))->Ok_0,
    {
        Decimal::from_integer(false, val as u128)
    }
}

impl vstd::std_specs::convert::FromSpecImpl<u128> for Decimal {
    /// The contract of `from` is stated on the method itself, over the bytes.
    open spec fn obeys_from_spec() -> bool {
        false
    }

    open spec fn from_spec(v: u128) -> Self {
        vstd::pervasive::arbitrary()
    }
}

impl Default for Decimal {
    /// Zero.
    fn default() -> (res: Self)
        ensures
            res@ == seq![SIGN_ZERO],
    {
        let mut bytes: Vec<u8> = Vec::new();
        bytes.push(SIGN_ZERO);
        assert(bytes@ =~= seq![SIGN_ZERO]);
        Decimal { bytes }
    }
}

impl Clone for Decimal {
    /// A decimal with the same bytes.
    fn clone(&self) -> (res: Self)
        ensures
            res@ == self@,
    {
        proof {
            use_type_invariant(self);
        }
        Decimal { bytes: self.bytes.clone() }
    }
}

impl core::str::FromStr for Decimal {
    type Err = DecimalError;

    /// Reads the text as `Decimal::from_str` does.
    fn from_str(s: &str) -> (res: Result<Self, Self::Err>)
        ensures
            decimal_agrees(res, encode_text(s@)),
    {
        Decimal::from_str(s)
    }
}

} // verus!
