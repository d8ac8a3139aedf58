//! Byte encoding for decimal values.
//!
//! The encoding is lexicographically sortable:
//!
//! ```text
//! [sign byte] [exponent bytes] [mantissa bytes]
//! ```
//!
//! - **Sign byte**: 0x00 for negative, 0x80 for zero, 0xFF for positive
//! - **Exponent**: two bytes, big-endian, biased by 16384; an exponent above
//!   49148 is the escape field 0xFFFD followed by the exponent in four bytes,
//!   big-endian. Every exponent byte is inverted for a negative value.
//! - **Mantissa**: BCD-encoded digits, 2 per byte. A negative value stores the
//!   nines' complement of every digit and ends with a 0xFF byte.
//! - **Special values**: -Infinity is `00 00 00`, Infinity `FF FF FE`, NaN
//!   `FF FF FF`.
//!
//! A nonzero value is `0.d1 d2 ... dn * 10^exponent`, with `d1 != 0` and `dn != 0`,
//! and an exponent from -16383 to 131072.
use vstd::prelude::*;

use crate::format::{format_decimal, format_parts};
use crate::parse::{error_matches, parse_decimal, read_decimal};
pub use crate::truncate::encode_decimal_with_constraints;
use crate::special::{
    read_special, special_bytes, special_from_bytes, special_name, special_of_bytes,
    special_of_text, special_to_bytes, special_to_string, Special,
};

verus! {

/// Sign byte of a negative value.
pub const SIGN_NEGATIVE: u8 = 0x00;

/// The whole encoding of zero.
pub const SIGN_ZERO: u8 = 0x80;

/// Sign byte of a positive value.
pub const SIGN_POSITIVE: u8 = 0xFF;

/// Exponent bias to make all exponents positive for encoding.
pub const EXPONENT_BIAS: i32 = 16384;

/// Largest exponent of a value: 131072 digits before the decimal point.
pub const MAX_EXPONENT: i32 = 131072;

/// Smallest exponent of a value.
pub const MIN_EXPONENT: i32 = -16383;

/// Largest exponent that the two-byte exponent field holds.
pub const LAST_INLINE_EXPONENT: i32 = 49148;

/// The exponent field that announces four more exponent bytes.
pub const ESCAPE_FIELD: u16 = 0xFFFD;

/// The byte that ends the mantissa of a negative value.
pub const NEGATIVE_TERMINATOR: u8 = 0xFF;

/// Errors that can occur during decimal encoding/decoding.
#[derive(Debug, Clone, PartialEq)]
pub enum DecimalError {
    /// The input string format is invalid.
    InvalidFormat(String),
    /// The number exceeds the supported precision range.
    PrecisionOverflow,
    /// The encoded bytes are invalid.
    InvalidEncoding,
}

/// A value: a finite number `(negative, digits, exponent)` or a special value.
pub enum Number {
    Finite(bool, Seq<u8>, int),
    Special(Special),
}

// ---------------------------------------------------------------------------
// The mathematical model of an encoding
// ---------------------------------------------------------------------------

/// Every element is a decimal digit.
pub open spec fn is_digit_seq(d: Seq<u8>) -> bool {
    forall|i: int| 0 <= i < d.len() ==> #[trigger] d[i] < 10
}

/// The significant digits of a nonzero value: no leading and no trailing zero.
pub open spec fn is_significand(d: Seq<u8>) -> bool {
    &&& d.len() > 0
    &&& is_digit_seq(d)
    &&& d[0] != 0
    &&& d.last() != 0
}

/// The exponents of values that can be encoded.
pub open spec fn exponent_in_range(e: int) -> bool {
    MIN_EXPONENT <= e <= MAX_EXPONENT
}

/// A value in normal form: `(negative, digits, exponent)`, where zero is the
/// empty digit sequence with a positive sign and exponent 0.
pub open spec fn is_normal(v: (bool, Seq<u8>, int)) -> bool {
    if v.1.len() == 0 {
        !v.0 && v.2 == 0
    } else {
        is_significand(v.1) && exponent_in_range(v.2)
    }
}

/// A 16-bit number as two bytes, big-endian.
pub open spec fn two_bytes(f: int) -> Seq<u8> {
    seq![(f / 256) as u8, (f % 256) as u8]
}

/// The exponent bytes of a positive value: the biased exponent in two bytes,
/// or the escape field and the exponent in four bytes.
pub open spec fn plain_exponent_bytes(e: int) -> Seq<u8> {
    if e <= LAST_INLINE_EXPONENT {
        two_bytes(e + EXPONENT_BIAS)
    } else {
        two_bytes(ESCAPE_FIELD as int) + two_bytes(e / 65536) + two_bytes(e % 65536)
    }
}

/// The exponent bytes, inverted for a negative value.
pub open spec fn exponent_bytes(e: int, negative: bool) -> Seq<u8> {
    uninvert(plain_exponent_bytes(e), negative)
}

/// The `i`-th byte of the packed digits: two digits per byte, high nibble first,
/// the last low nibble 0 when the number of digits is odd.
pub open spec fn packed_byte(d: Seq<u8>, i: int) -> u8 {
    let high = d[2 * i];
    let low: u8 = if 2 * i + 1 < d.len() { d[2 * i + 1] } else { 0 };
    (high * 16 + low) as u8
}

/// The digits packed two per byte.
pub open spec fn pack_digits(d: Seq<u8>) -> Seq<u8> {
    Seq::new(((d.len() + 1) / 2) as nat, |i: int| packed_byte(d, i))
}

/// Every byte inverted.
pub open spec fn invert(b: Seq<u8>) -> Seq<u8> {
    b.map_values(|x: u8| (255 - x) as u8)
}

/// The nines' complement of every digit of packed bytes.
pub open spec fn complement(b: Seq<u8>) -> Seq<u8> {
    b.map_values(|x: u8| (153 - x) as u8)
}

/// Undoes `complement`; a byte above 0x99 becomes 0xFF, which holds no digit.
pub open spec fn uncomplement(b: Seq<u8>) -> Seq<u8> {
    b.map_values(|x: u8| if x <= 153 { (153 - x) as u8 } else { 255u8 })
}

/// The mantissa bytes: packed digits, or for a negative value their nines'
/// complement followed by the terminator.
pub open spec fn mantissa_bytes(d: Seq<u8>, negative: bool) -> Seq<u8> {
    if negative {
        complement(pack_digits(d)).push(NEGATIVE_TERMINATOR)
    } else {
        pack_digits(d)
    }
}

/// The sign byte of a nonzero value.
pub open spec fn sign_byte(negative: bool) -> u8 {
    if negative {
        SIGN_NEGATIVE
    } else {
        SIGN_POSITIVE
    }
}

/// The encoding of `(negative, digits, exponent)`.
pub open spec fn encode_parts(negative: bool, d: Seq<u8>, exponent: int) -> Seq<u8> {
    if d.len() == 0 {
        seq![SIGN_ZERO]
    } else {
        seq![sign_byte(negative)] + exponent_bytes(exponent, negative) + mantissa_bytes(
            d,
            negative,
        )
    }
}

/// The encoding of a value in normal form.
pub open spec fn encode_value(v: (bool, Seq<u8>, int)) -> Seq<u8> {
    encode_parts(v.0, v.1, v.2)
}

/// A finite value in normal form, or a special value.
pub open spec fn is_valid(n: Number) -> bool {
    match n {
        Number::Finite(negative, d, e) => is_normal((negative, d, e)),
        Number::Special(_) => true,
    }
}

/// The encoding of a value.
pub open spec fn encode_number(n: Number) -> Seq<u8> {
    match n {
        Number::Finite(negative, d, e) => encode_parts(negative, d, e),
        Number::Special(s) => special_bytes(s),
    }
}

// ---------------------------------------------------------------------------
// Decoding
// ---------------------------------------------------------------------------

/// The bytes as read back: inverted for a negative value.
pub open spec fn uninvert(b: Seq<u8>, negative: bool) -> Seq<u8> {
    if negative {
        invert(b)
    } else {
        b
    }
}

/// The exponent and the number of exponent bytes at the start of `b` (the
/// bytes after the sign byte), where there are enough bytes.
pub open spec fn exponent_header(b: Seq<u8>, negative: bool) -> Option<(int, int)> {
    if b.len() < 2 {
        None
    } else {
        let h = uninvert(b.take(2), negative);
        let f = h[0] * 256 + h[1];
        if f == ESCAPE_FIELD {
            if b.len() < 6 {
                None
            } else {
                let x = uninvert(b.subrange(2, 6), negative);
                Some((((x[0] * 256 + x[1]) * 256 + x[2]) * 256 + x[3], 6))
            }
        } else {
            Some((f - EXPONENT_BIAS, 2))
        }
    }
}

/// The packed digits that mantissa bytes hold: for a negative value the
/// complemented bytes before the terminator, which must be there.
pub open spec fn packed_of(m: Seq<u8>, negative: bool) -> Option<Seq<u8>> {
    if !negative {
        Some(m)
    } else if m.len() > 0 && m.last() == NEGATIVE_TERMINATOR {
        Some(uncomplement(m.drop_last()))
    } else {
        None
    }
}

/// Both nibbles of every byte are decimal digits.
pub open spec fn nibbles_are_digits(b: Seq<u8>) -> bool {
    forall|i: int| 0 <= i < b.len() ==> #[trigger] b[i] / 16 <= 9 && b[i] % 16 <= 9
}

/// The nibbles of the bytes, high nibble first.
pub open spec fn unpack_nibbles(b: Seq<u8>) -> Seq<u8> {
    Seq::new(
        2 * b.len(),
        |i: int|
            if i % 2 == 0 {
                b[i / 2] / 16
            } else {
                b[i / 2] % 16
            },
    )
}

/// Drops trailing zeros, keeping at least one digit.
pub open spec fn strip_trailing_zeros(d: Seq<u8>) -> Seq<u8>
    decreases d.len(),
{
    if d.len() > 1 && d.last() == 0 {
        strip_trailing_zeros(d.drop_last())
    } else {
        d
    }
}

/// Stripping leaves no trailing zero, but for a single digit.
pub proof fn lemma_strip_trailing_zeros(d: Seq<u8>)
    ensures
        strip_trailing_zeros(d).len() <= 1 || strip_trailing_zeros(d).last() != 0,
    decreases d.len(),
{
    if d.len() > 1 && d.last() == 0 {
        lemma_strip_trailing_zeros(d.drop_last());
    }
}

/// The digits that mantissa bytes hold, where they hold digits.
pub open spec fn mantissa_digits(m: Seq<u8>, negative: bool) -> Option<Seq<u8>> {
    match packed_of(m, negative) {
        Some(p) => if nibbles_are_digits(p) {
            Some(strip_trailing_zeros(unpack_nibbles(p)))
        } else {
            None
        },
        None => None,
    }
}

/// The parts that a byte string is read as, field by field, or `None` where
/// its fields do not read. Zero reads from any bytes that start with the zero
/// sign byte; `decode_value` then asks for the canonical bytes.
pub open spec fn decode_parts(bytes: Seq<u8>) -> Option<(bool, Seq<u8>, int)> {
    if bytes.len() == 0 {
        None
    } else if bytes[0] == SIGN_ZERO {
        Some((false, Seq::<u8>::empty(), 0))
    } else if bytes[0] != SIGN_NEGATIVE && bytes[0] != SIGN_POSITIVE {
        None
    } else {
        let negative = bytes[0] == SIGN_NEGATIVE;
        match exponent_header(bytes.skip(1), negative) {
            None => None,
            Some((e, w)) => if !exponent_in_range(e) {
                None
            } else {
                match mantissa_digits(bytes.skip(1 + w), negative) {
                    Some(d) => Some((negative, d, e)),
                    None => None,
                }
            },
        }
    }
}

/// The bytes are the encoding of a finite value in normal form: the one
/// that they read as.
pub open spec fn is_finite_encoding(bytes: Seq<u8>) -> bool {
    &&& decode_parts(bytes) is Some
    &&& is_normal(decode_parts(bytes)->Some_0)
    &&& encode_value(decode_parts(bytes)->Some_0) == bytes
}

/// The value that a byte string encodes, or `None` where it is no encoding.
pub open spec fn decode_value(bytes: Seq<u8>) -> Option<Number> {
    match special_of_bytes(bytes) {
        Some(s) => Some(Number::Special(s)),
        None => if is_finite_encoding(bytes) {
            let v = decode_parts(bytes)->Some_0;
            Some(Number::Finite(v.0, v.1, v.2))
        } else {
            None
        },
    }
}

// ---------------------------------------------------------------------------
// Decoding gives back what was encoded
// ---------------------------------------------------------------------------

proof fn lemma_packed_nibbles(h: u8, l: u8)
    requires
        h < 10,
        l < 10,
    ensures
        ((h * 16 + l) as u8) / 16 == h,
        ((h * 16 + l) as u8) % 16 == l,
        ((h * 16 + l) as u8) <= 153,
{
    assert(((h * 16 + l) as u8) == h * 16 + l);
    assert((h * 16 + l) / 16 == h && (h * 16 + l) % 16 == l) by (nonlinear_arith)
        requires
            h < 10,
            l < 10,
    ;
}

/// Unpacking the packed digits gives the digits back, with one zero of padding
/// after an odd number of them.
pub proof fn lemma_unpack_pack(d: Seq<u8>)
    requires
        is_digit_seq(d),
    ensures
        nibbles_are_digits(pack_digits(d)),
        forall|i: int| 0 <= i < pack_digits(d).len() ==> #[trigger] pack_digits(d)[i] <= 153,
        unpack_nibbles(pack_digits(d)) == (if d.len() % 2 == 0 {
            d
        } else {
            d.push(0)
        }),
{
    let p = pack_digits(d);
    let e = if d.len() % 2 == 0 {
        d
    } else {
        d.push(0)
    };
    assert forall|i: int| 0 <= i < p.len() implies #[trigger] p[i] / 16 <= 9 && p[i] % 16 <= 9
        && p[i] / 16 == e[2 * i] && p[i] % 16 == e[2 * i + 1] && p[i] <= 153 by {
        let h = d[2 * i];
        let l: u8 = if 2 * i + 1 < d.len() {
            d[2 * i + 1]
        } else {
            0
        };
        lemma_packed_nibbles(h, l);
    }
    let u = unpack_nibbles(p);
    assert(u.len() == e.len());
    assert forall|i: int| 0 <= i < u.len() implies u[i] == e[i] by {
        let j = i / 2;
        assert(p[j] / 16 == e[2 * j] && p[j] % 16 == e[2 * j + 1]);
    }
    assert(u =~= e);
}

/// Inverting twice gives the bytes back.
pub proof fn lemma_invert_invert(b: Seq<u8>)
    ensures
        invert(invert(b)) == b,
{
    assert(invert(invert(b)) =~= b);
}

/// Undoing the complement of packed digits gives them back.
pub proof fn lemma_uncomplement_complement(p: Seq<u8>)
    requires
        forall|i: int| 0 <= i < p.len() ==> #[trigger] p[i] <= 153,
    ensures
        uncomplement(complement(p)) == p,
{
    assert(uncomplement(complement(p)) =~= p);
}

/// Two bytes read back as the 16-bit number they were made of.
proof fn lemma_two_bytes(f: int)
    requires
        0 <= f < 65536,
    ensures
        two_bytes(f)[0] * 256 + two_bytes(f)[1] == f,
        two_bytes(f).len() == 2,
{
    assert(f == 256 * (f / 256) + f % 256);
}

/// The exponent bytes read back as the exponent, with their number.
pub proof fn lemma_exponent_header(e: int, negative: bool, m: Seq<u8>)
    requires
        exponent_in_range(e),
    ensures
        exponent_header(exponent_bytes(e, negative) + m, negative) == Some(
            (e, plain_exponent_bytes(e).len() as int),
        ),
        plain_exponent_bytes(e).len() == (if e <= LAST_INLINE_EXPONENT {
            2int
        } else {
            6
        }),
{
    let p = plain_exponent_bytes(e);
    let b = exponent_bytes(e, negative) + m;
    lemma_invert_invert(p);
    assert(uninvert(uninvert(p, negative), negative) == p);
    if e <= LAST_INLINE_EXPONENT {
        lemma_two_bytes(e + EXPONENT_BIAS);
        assert(uninvert(b.take(2), negative) =~= p);
    } else {
        lemma_two_bytes(ESCAPE_FIELD as int);
        lemma_two_bytes(e / 65536);
        lemma_two_bytes(e % 65536);
        assert(p.len() == 6);
        assert(uninvert(b.take(2), negative) =~= p.take(2));
        assert(uninvert(b.subrange(2, 6), negative) =~= p.subrange(2, 6));
        assert(e == 65536 * (e / 65536) + e % 65536);
    }
}

/// The mantissa bytes read back as the digits.
proof fn lemma_mantissa_digits(d: Seq<u8>, negative: bool)
    requires
        is_significand(d),
    ensures
        mantissa_digits(mantissa_bytes(d, negative), negative) == Some(d),
{
    lemma_unpack_pack(d);
    let p = pack_digits(d);
    if negative {
        lemma_uncomplement_complement(p);
        assert(complement(p).push(NEGATIVE_TERMINATOR).drop_last() =~= complement(p));
    }
    assert(packed_of(mantissa_bytes(d, negative), negative) == Some(p));
    assert(strip_trailing_zeros(d) == d);
    if d.len() % 2 == 1 {
        assert(d.push(0).drop_last() =~= d);
        assert(d.push(0).last() == 0);
        assert(strip_trailing_zeros(d.push(0)) == strip_trailing_zeros(d));
    }
}

/// Decoding an encoding gives the encoded value back.
pub proof fn lemma_decode_encode(v: (bool, Seq<u8>, int))
    requires
        is_normal(v),
    ensures
        decode_parts(encode_value(v)) == Some(v),
        is_finite_encoding(encode_value(v)),
{
    let (negative, d, e) = v;
    let bytes = encode_value(v);
    if d.len() > 0 {
        let x = exponent_bytes(e, negative);
        let m = mantissa_bytes(d, negative);
        assert(bytes.skip(1) =~= x + m);
        lemma_exponent_header(e, negative, m);
        let w = plain_exponent_bytes(e).len() as int;
        assert(x.len() == w);
        assert(bytes.skip(1 + w) =~= m);
        lemma_mantissa_digits(d, negative);
    }
}

// ---------------------------------------------------------------------------
// Bit-level facts used by the byte code
// ---------------------------------------------------------------------------

proof fn lemma_u16_bits(x: u16)
    ensures
        x >> 8u16 == x / 256,
        x & 0xffu16 == x % 256,
{
    assert(x >> 8u16 == x / 256) by (bit_vector);
    assert(x & 0xffu16 == x % 256) by (bit_vector);
}

proof fn lemma_u8_bits(b: u8)
    ensures
        !b == 255 - b,
        (b >> 4u8) & 0x0fu8 == b / 16,
        b & 0x0fu8 == b % 16,
{
    assert(!b == 255 - b) by (bit_vector);
    assert((b >> 4u8) & 0x0fu8 == b / 16) by (bit_vector);
    assert(b & 0x0fu8 == b % 16) by (bit_vector);
}

proof fn lemma_pack_bits(high: u8, low: u8)
    requires
        high < 16,
        low < 16,
    ensures
        (high << 4u8) | low == high * 16 + low,
{
    assert(high < 16 && low < 16 ==> (high << 4u8) | low == high * 16 + low) by (bit_vector);
}

// ---------------------------------------------------------------------------
// Exponent and mantissa bytes
// ---------------------------------------------------------------------------

/// Appends a 16-bit number as two bytes, big-endian, inverted for a negative value.
fn push_two(result: &mut Vec<u8>, f: u16, is_negative: bool)
    ensures
        final(result)@ == old(result)@ + uninvert(two_bytes(f as int), is_negative),
{
    proof {
        lemma_u16_bits(f);
    }
    let high = (f >> 8) as u8;
    let low = (f & 0xFF) as u8;
    proof {
        lemma_u8_bits(high);
        lemma_u8_bits(low);
    }
    if is_negative {
        result.push(!high);
        result.push(!low);
    } else {
        result.push(high);
        result.push(low);
    }
    assert(final(result)@ =~= old(result)@ + uninvert(two_bytes(f as int), is_negative));
}

/// Appends the exponent bytes.
pub fn encode_exponent(result: &mut Vec<u8>, exponent: i32, is_negative: bool)
    requires
        exponent_in_range(exponent as int),
    ensures
        final(result)@ == old(result)@ + exponent_bytes(exponent as int, is_negative),
{
    let ghost start = old(result)@;
    let ghost e = exponent as int;
    if exponent <= LAST_INLINE_EXPONENT {
        push_two(result, (exponent + EXPONENT_BIAS) as u16, is_negative);
    } else {
        push_two(result, ESCAPE_FIELD, is_negative);
        let x = exponent as u32;
        assert(x >> 16u32 == x / 65536 && x & 0xffffu32 == x % 65536) by (bit_vector);
        push_two(result, (x >> 16) as u16, is_negative);
        push_two(result, (x & 0xFFFF) as u16, is_negative);
        let ghost a = two_bytes(ESCAPE_FIELD as int);
        let ghost b = two_bytes(e / 65536);
        let ghost c = two_bytes(e % 65536);
        assert(uninvert(a + b + c, is_negative) =~= uninvert(a, is_negative) + uninvert(
            b,
            is_negative,
        ) + uninvert(c, is_negative));
    }
    assert(final(result)@ =~= start + exponent_bytes(e, is_negative));
}

/// Reads the exponent from the bytes after the sign byte; also returns how
/// many bytes it took. An escaped exponent above `MAX_EXPONENT` is refused.
pub fn decode_exponent(bytes: &[u8], is_negative: bool) -> (res: Result<(i32, usize), DecimalError>)
    ensures
        match exponent_header(bytes@, is_negative) {
            Some((e, w)) => if e <= MAX_EXPONENT {
                res matches Ok((x, n)) && x == e && n == w
            } else {
                res matches Err(DecimalError::InvalidEncoding)
            },
            None => res matches Err(DecimalError::InvalidEncoding),
        },
{
    if bytes.len() < 2 {
        return Err(DecimalError::InvalidEncoding);
    }
    let b0 = if is_negative {
        !bytes[0]
    } else {
        bytes[0]
    };
    let b1 = if is_negative {
        !bytes[1]
    } else {
        bytes[1]
    };
    proof {
        lemma_u8_bits(bytes[0]);
        lemma_u8_bits(bytes[1]);
        assert(uninvert(bytes@.take(2), is_negative) =~= seq![b0, b1]);
    }
    let field: u32 = (b0 as u32) * 256 + (b1 as u32);
    if field != ESCAPE_FIELD as u32 {
        return Ok(((field as i32) - EXPONENT_BIAS, 2));
    }
    if bytes.len() < 6 {
        return Err(DecimalError::InvalidEncoding);
    }
    let mut x: u64 = 0;
    let mut k: usize = 2;
    let ghost u = uninvert(bytes@.subrange(2, 6), is_negative);
    while k < 6
        invariant
            2 <= k <= 6,
            bytes@.len() >= 6,
            u == uninvert(bytes@.subrange(2, 6), is_negative),
            k == 2 ==> x == 0,
            k == 3 ==> x == u[0],
            k == 4 ==> x == u[0] * 256 + u[1],
            k == 5 ==> x == (u[0] * 256 + u[1]) * 256 + u[2],
            k == 6 ==> x == ((u[0] * 256 + u[1]) * 256 + u[2]) * 256 + u[3],
        decreases 6 - k,
    {
        let raw = bytes[k];
        let b = if is_negative {
            !raw
        } else {
            raw
        };
        proof {
            lemma_u8_bits(raw);
            assert(b == u[k - 2]);
        }
        x = x * 256 + b as u64;
        k += 1;
    }
    if x > MAX_EXPONENT as u64 {
        return Err(DecimalError::InvalidEncoding);
    }
    Ok((x as i32, 6))
}

/// Appends the mantissa bytes: the digits packed two per byte, for a negative
/// value complemented and followed by the terminator.
pub fn encode_mantissa(result: &mut Vec<u8>, digits: &[u8], is_negative: bool)
    requires
        is_digit_seq(digits@),
    ensures
        final(result)@ == old(result)@ + mantissa_bytes(digits@, is_negative),
{
    let ghost start = old(result)@;
    let ghost body = if is_negative {
        complement(pack_digits(digits@))
    } else {
        pack_digits(digits@)
    };
    let mut i: usize = 0;
    while i < digits.len()
        invariant
            is_digit_seq(digits@),
            i <= digits@.len(),
            i % 2 == 0 || i == digits@.len(),
            body == (if is_negative {
                complement(pack_digits(digits@))
            } else {
                pack_digits(digits@)
            }),
            result@ == start + body.take((i as int + 1) / 2),
        decreases digits@.len() - i,
    {
        let ghost j = i as int / 2;
        let high = digits[i];
        i += 1;
        let low = if i < digits.len() {
            let l = digits[i];
            i += 1;
            l
        } else {
            0
        };
        proof {
            lemma_pack_bits(high, low);
            lemma_packed_nibbles(high, low);
        }
        let byte = (high << 4) | low;
        let out = if is_negative {
            0x99 - byte
        } else {
            byte
        };
        proof {
            assert(byte == packed_byte(digits@, j));
            assert(body.take(j + 1) =~= body.take(j).push(out));
        }
        result.push(out);
    }
    assert(body.take((i as int + 1) / 2) =~= body);
    if is_negative {
        result.push(NEGATIVE_TERMINATOR);
    }
    assert(final(result)@ =~= start + mantissa_bytes(digits@, is_negative));
}

/// Unpacks the mantissa bytes into digits, dropping trailing zero padding.
pub fn decode_mantissa(bytes: &[u8], is_negative: bool) -> (res: Result<Vec<u8>, DecimalError>)
    ensures
        mantissa_digits(bytes@, is_negative) matches Some(d) ==> (res matches Ok(r) && r@ == d),
        mantissa_digits(bytes@, is_negative) is None ==> res matches Err(
            DecimalError::InvalidEncoding,
        ),
        res matches Ok(d) ==> is_digit_seq(d@),
{
    let n = if is_negative {
        if bytes.len() == 0 || bytes[bytes.len() - 1] != NEGATIVE_TERMINATOR {
            return Err(DecimalError::InvalidEncoding);
        }
        bytes.len() - 1
    } else {
        bytes.len()
    };
    let ghost m = packed_of(bytes@, is_negative)->Some_0;
    assert(m.len() == n);
    let mut digits: Vec<u8> = Vec::new();
    let mut k: usize = 0;
    while k < n
        invariant
            k <= n <= bytes@.len(),
            m.len() == n,
            m == packed_of(bytes@, is_negative)->Some_0,
            packed_of(bytes@, is_negative) is Some,
            is_negative ==> n == bytes@.len() - 1,
            !is_negative ==> n == bytes@.len(),
            nibbles_are_digits(m.take(k as int)),
            digits@ == unpack_nibbles(m.take(k as int)),
        decreases n - k,
    {
        let raw = bytes[k];
        let byte = if is_negative {
            if raw <= 0x99 {
                0x99 - raw
            } else {
                0xFF
            }
        } else {
            raw
        };
        proof {
            lemma_u8_bits(byte);
            assert(byte == m[k as int]);
        }
        let high = (byte >> 4) & 0x0F;
        let low = byte & 0x0F;
        if high > 9 || low > 9 {
            proof {
                assert(!(m[k as int] / 16 <= 9 && m[k as int] % 16 <= 9));
            }
            return Err(DecimalError::InvalidEncoding);
        }
        digits.push(high);
        digits.push(low);
        proof {
            assert(m.take(k as int + 1) =~= m.take(k as int).push(m[k as int]));
            assert(unpack_nibbles(m.take(k as int + 1)) =~= unpack_nibbles(m.take(k as int)).push(
                high,
            ).push(low));
        }
        k += 1;
    }
    assert(m.take(k as int) =~= m);
    proof {
        lemma_unpack_digits(m);
    }
    let ghost full = digits@;
    while digits.len() > 1 && digits[digits.len() - 1] == 0
        invariant
            strip_trailing_zeros(digits@) == strip_trailing_zeros(full),
            is_digit_seq(digits@),
        decreases digits@.len(),
    {
        digits.pop();
    }
    Ok(digits)
}

proof fn lemma_unpack_digits(m: Seq<u8>)
    requires
        nibbles_are_digits(m),
    ensures
        is_digit_seq(unpack_nibbles(m)),
{
    let u = unpack_nibbles(m);
    assert forall|i: int| 0 <= i < u.len() implies #[trigger] u[i] < 10 by {
        assert(m[i / 2] / 16 <= 9 && m[i / 2] % 16 <= 9);
    }
}

/// The encoding of a finite value in normal form.
pub fn encode_finite(is_negative: bool, digits: &[u8], exponent: i32) -> (r: Vec<u8>)
    requires
        is_normal((is_negative, digits@, exponent as int)),
    ensures
        r@ == encode_parts(is_negative, digits@, exponent as int),
{
    let mut result: Vec<u8> = Vec::new();
    // Handle zero
    if digits.len() == 0 {
        result.push(SIGN_ZERO);
        assert(result@ =~= seq![SIGN_ZERO]);
        return result;
    }
    // Sign byte
    result.push(
        if is_negative {
            SIGN_NEGATIVE
        } else {
            SIGN_POSITIVE
        },
    );
    // Encode exponent
    encode_exponent(&mut result, exponent, is_negative);
    // Encode mantissa (BCD, 2 digits per byte)
    encode_mantissa(&mut result, digits, is_negative);
    assert(result@ =~= encode_parts(is_negative, digits@, exponent as int));
    result
}

/// Whether two byte strings are equal.
pub fn same_bytes(a: &[u8], b: &[u8]) -> (r: bool)
    ensures
        r == (a@ == b@),
{
    if a.len() != b.len() {
        return false;
    }
    let mut i: usize = 0;
    while i < a.len()
        invariant
            i <= a@.len(),
            a@.len() == b@.len(),
            a@.take(i as int) == b@.take(i as int),
        decreases a@.len() - i,
    {
        if a[i] != b[i] {
            return false;
        }
        assert(a@.take(i + 1) =~= a@.take(i as int).push(a@[i as int]));
        assert(b@.take(i + 1) =~= b@.take(i as int).push(b@[i as int]));
        i += 1;
    }
    assert(a@.take(i as int) =~= a@);
    assert(b@.take(i as int) =~= b@);
    true
}

/// Decodes the bytes of a finite value: succeeds exactly where they are the
/// encoding of the value they read as.
pub fn decode_finite(bytes: &[u8]) -> (res: Result<(bool, Vec<u8>, i32), DecimalError>)
    ensures
        is_finite_encoding(bytes@) ==> (res matches Ok(r) && decode_parts(bytes@) == Some(
            (r.0, r.1@, r.2 as int),
        )),
        !is_finite_encoding(bytes@) ==> res matches Err(DecimalError::InvalidEncoding),
        res matches Ok(r) ==> is_normal((r.0, r.1@, r.2 as int)),
{
    if bytes.len() == 0 {
        return Err(DecimalError::InvalidEncoding);
    }
    let sign_byte = bytes[0];
    if sign_byte == SIGN_ZERO {
        if bytes.len() != 1 {
            proof {
                assert(encode_value((false, Seq::<u8>::empty(), 0)).len() == 1);
            }
            return Err(DecimalError::InvalidEncoding);
        }
        assert(bytes@ =~= seq![SIGN_ZERO]);
        return Ok((false, Vec::new(), 0));
    }
    if sign_byte != SIGN_NEGATIVE && sign_byte != SIGN_POSITIVE {
        return Err(DecimalError::InvalidEncoding);
    }
    let is_negative = sign_byte == SIGN_NEGATIVE;
    let rest = vstd::slice::slice_subrange(bytes, 1, bytes.len());
    assert(rest@ =~= bytes@.skip(1));
    let (exponent, width) = decode_exponent(rest, is_negative)?;
    if exponent < MIN_EXPONENT {
        return Err(DecimalError::InvalidEncoding);
    }
    let mantissa = vstd::slice::slice_subrange(bytes, 1 + width, bytes.len());
    assert(mantissa@ =~= bytes@.skip(1 + width));
    let digits = decode_mantissa(mantissa, is_negative)?;
    if digits.len() == 0 || digits[0] == 0 {
        return Err(DecimalError::InvalidEncoding);
    }
    let ghost v = (is_negative, digits@, exponent as int);
    assert(decode_parts(bytes@) == Some(v));
    proof {
        if let Some(p) = packed_of(mantissa@, is_negative) {
            lemma_strip_trailing_zeros(unpack_nibbles(p));
        }
    }
    assert(is_normal(v));
    let again = encode_finite(is_negative, digits.as_slice(), exponent);
    if !same_bytes(again.as_slice(), bytes) {
        return Err(DecimalError::InvalidEncoding);
    }
    Ok((is_negative, digits, exponent))
}

/// Every valid value is read back from its encoding.
pub proof fn lemma_decode_number(n: Number)
    requires
        is_valid(n),
    ensures
        decode_value(encode_number(n)) == Some(n),
{
    match n {
        Number::Finite(negative, d, e) => {
            let v = (negative, d, e);
            lemma_decode_encode(v);
            let b = encode_value(v);
            if d.len() > 0 {
                lemma_exponent_header(e, negative, mantissa_bytes(d, negative));
                assert(b.len() >= 4);
            }
            assert(b.len() != 3);
        },
        Number::Special(s) => {},
    }
}

/// What a text reads as is valid.
pub proof fn lemma_read_number_valid(s: Seq<char>)
    ensures
        read_number(s) matches Ok(n) ==> is_valid(n),
{
    crate::parse::lemma_read_is_normal(s);
}

// ---------------------------------------------------------------------------
// Strings to bytes and back
// ---------------------------------------------------------------------------

/// The text that a byte string decodes to, or `None` where it is no encoding.
pub open spec fn decode_text(bytes: Seq<u8>) -> Option<Seq<char>> {
    match decode_value(bytes) {
        Some(Number::Finite(negative, d, e)) => Some(format_parts(negative, d, e)),
        Some(Number::Special(s)) => Some(special_name(s)),
        None => None,
    }
}

/// The value that a text reads as: a special value by name, or else a finite
/// value; or the error on which reading it stops.
pub open spec fn read_number(s: Seq<char>) -> Result<Number, Option<Seq<char>>> {
    match special_of_text(s) {
        Some(sp) => Ok(Number::Special(sp)),
        None => match read_decimal(s) {
            Ok(v) => Ok(Number::Finite(v.0, v.1, v.2)),
            Err(m) => Err(m),
        },
    }
}

/// The encoding of a text, or the error on which reading it stops.
pub open spec fn encode_text(s: Seq<char>) -> Result<Seq<u8>, Option<Seq<char>>> {
    match read_number(s) {
        Ok(n) => Ok(encode_number(n)),
        Err(m) => Err(m),
    }
}

/// The exec result agrees with the encoding of a text.
pub open spec fn encode_agrees(
    res: Result<Vec<u8>, DecimalError>,
    o: Result<Seq<u8>, Option<Seq<char>>>,
) -> bool {
    match o {
        Ok(b) => res matches Ok(r) && r@ == b,
        Err(m) => res matches Err(e) && error_matches(e, m),
    }
}

/// Encodes a decimal string to sortable bytes.
pub fn encode_decimal(value: &str) -> (res: Result<Vec<u8>, DecimalError>)
    ensures
        encode_agrees(res, encode_text(value@)),
{
    if let Some(special) = read_special(value) {
        return Ok(special_to_bytes(special));
    }
    let (is_negative, digits, exponent) = parse_decimal(value)?;
    Ok(encode_finite(is_negative, digits.as_slice(), exponent))
}

/// Decodes bytes back to a decimal string.
pub fn decode_to_string(bytes: &[u8]) -> (res: Result<String, DecimalError>)
    ensures
        decode_text(bytes@) matches Some(t) ==> (res matches Ok(s) && s@ == t),
        decode_text(bytes@) is None ==> res matches Err(DecimalError::InvalidEncoding),
{
    if let Some(special) = special_from_bytes(bytes) {
        return Ok(special_to_string(special));
    }
    let (is_negative, digits, exponent) = decode_finite(bytes)?;
    format_decimal(is_negative, digits.as_slice(), exponent)
}

} // verus!
