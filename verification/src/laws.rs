//! Laws of the encoding, the text round trip and the constraints.
use vstd::prelude::*;

use crate::encoding::{
    decode_text, decode_value, encode_number, encode_text, encode_value, exponent_bytes,
    is_normal, is_valid, lemma_decode_encode, lemma_decode_number, lemma_read_number_valid,
    mantissa_bytes, pack_digits, read_number, Number, LAST_INLINE_EXPONENT, SIGN_NEGATIVE,
    SIGN_POSITIVE, SIGN_ZERO,
};
use crate::order::{lemma_encoding_order, lemma_number_order, lex_lt, number_lt, value_lt};
use crate::parse::{lemma_read_is_normal, lemma_read_written, read_decimal, written_parts};
use crate::integer::{integer_text, lemma_digit_char, lemma_integer_text_reads, natural_text};
use crate::text::{all_digit_chars, digit_char, digit_values, digits_value, i32_from_text, is_digit_char, lemma_digits_value_nonneg};
use crate::roundtrip::{canonical_exponent, is_canonical, lemma_canonical_text, lemma_read_format, plain_text};
use crate::special::{lemma_read_is_not_special, lemma_special_name_reads};
use crate::truncate::{
    add_one, constrain_parts, cut_parts, integer_digits_allowed, lemma_cut_parts, round_parts, constrained_number, keep_below, lead_zeros, lemma_add_one_digits,
    lemma_normalize, lemma_unconstrained, normalize, round_digits,
};
use crate::value::{
    digits_num, lemma_digits_num_bounds, lemma_digits_num_front, lemma_significant_value, lemma_value_order_is_numeric, pow10, scale_exponent,
    scaled, text_num,
};

verus! {

/// Byte order is numeric order: for two finite values in normal form, the
/// encoding of `a` sorts before the encoding of `b` exactly when `a < b`.
pub proof fn law_byte_order_is_value_order(a: (bool, Seq<u8>, int), b: (bool, Seq<u8>, int))
    requires
        is_normal(a),
        is_normal(b),
    ensures
        lex_lt(encode_value(a), encode_value(b)) == value_lt(a, b),
{
    lemma_encoding_order(a, b);
}

/// Byte order is the order of values, special values included:
/// `-Infinity < negative values < zero < positive values < Infinity < NaN`.
pub proof fn law_byte_order_is_number_order(a: Number, b: Number)
    requires
        is_valid(a),
        is_valid(b),
    ensures
        lex_lt(encode_number(a), encode_number(b)) == number_lt(a, b),
{
    lemma_number_order(a, b);
}

/// Byte order is the order of the numbers: for finite values in normal form
/// and any `k` that makes `a * 10^k` and `b * 10^k` integers, the encoding of
/// `a` sorts before the encoding of `b` exactly when `a * 10^k < b * 10^k`.
pub proof fn law_byte_order_is_numeric_order(
    a: (bool, Seq<u8>, int),
    b: (bool, Seq<u8>, int),
    k: int,
)
    requires
        is_normal(a),
        is_normal(b),
        scale_exponent(a, k) >= 0,
        scale_exponent(b, k) >= 0,
    ensures
        lex_lt(encode_value(a), encode_value(b)) == (scaled(a, k) < scaled(b, k)),
{
    lemma_encoding_order(a, b);
    lemma_value_order_is_numeric(a, b, k);
}

/// Reading keeps the number: what a text reads as stands for the number it is
/// written as, `±(integer digits, fraction digits) * 10^(exponent - |fraction|)`,
/// compared after scaling both by `10^k`.
pub proof fn law_read_keeps_value(s: Seq<char>, k: int)
    requires
        read_decimal(s) is Ok,
        scale_exponent(read_decimal(s)->Ok_0, k) >= 0,
        k + written_parts(s).3 - written_parts(s).2.len() >= 0,
    ensures
        ({
            let w = written_parts(s);
            let n = text_num(w.1 + w.2) * pow10((k + w.3 - w.2.len()) as nat);
            scaled(read_decimal(s)->Ok_0, k) == (if w.0 {
                -n
            } else {
                n
            })
        }),
{
    lemma_read_written(s);
    let w = written_parts(s);
    lemma_significant_value(w.0, w.1, w.2, w.3, k);
}

/// Byte order is value order for texts: where two texts read, their
/// encodings sort as the values they read as.
pub proof fn law_text_order(s: Seq<char>, t: Seq<char>)
    requires
        read_number(s) is Ok,
        read_number(t) is Ok,
    ensures
        lex_lt(encode_text(s)->Ok_0, encode_text(t)->Ok_0) == number_lt(
            read_number(s)->Ok_0,
            read_number(t)->Ok_0,
        ),
{
    lemma_read_number_valid(s);
    lemma_read_number_valid(t);
    lemma_number_order(read_number(s)->Ok_0, read_number(t)->Ok_0);
}

/// Equal values have equal encodings, and different values different ones.
pub proof fn law_encoding_is_injective(a: Number, b: Number)
    requires
        is_valid(a),
        is_valid(b),
    ensures
        (encode_number(a) == encode_number(b)) == (a == b),
{
    lemma_decode_number(a);
    lemma_decode_number(b);
}

/// Decoding an encoding gives the encoded value back.
pub proof fn law_decode_encode(n: Number)
    requires
        is_valid(n),
    ensures
        decode_value(encode_number(n)) == Some(n),
{
    lemma_decode_number(n);
}

/// The decoder accepts exactly the encodings: bytes that decode are the
/// encoding of the valid value they decode to.
pub proof fn law_decode_accepts_only_encodings(b: Seq<u8>)
    requires
        decode_value(b) is Some,
    ensures
        is_valid(decode_value(b)->Some_0),
        encode_number(decode_value(b)->Some_0) == b,
{
}

/// Reading the text that an encoding decodes to gives the same encoding again.
pub proof fn law_text_round_trip(s: Seq<char>)
    requires
        encode_text(s) is Ok,
    ensures
        decode_text(encode_text(s)->Ok_0) is Some,
        encode_text(decode_text(encode_text(s)->Ok_0).unwrap()) == encode_text(s),
{
    lemma_read_number_valid(s);
    let n = read_number(s)->Ok_0;
    lemma_decode_number(n);
    match n {
        Number::Finite(negative, d, e) => {
            let v = (negative, d, e);
            lemma_read_format(v);
            lemma_read_is_not_special(crate::format::format_parts(negative, d, e));
        },
        Number::Special(sp) => {
            lemma_special_name_reads(sp);
        },
    }
}

/// A canonical text comes back letter for letter: a text made of an
/// optional `-`, integer digits with no leading zero (or the single digit
/// `0`), and optionally a point and fraction digits with no trailing zero,
/// not `-0`, whose exponent is in range, encodes, and its encoding decodes to
/// the same text.
pub proof fn law_canonical_text_round_trip(negative: bool, ip: Seq<char>, fp: Seq<char>)
    requires
        is_canonical(negative, ip, fp),
        (ip[0] == '0' && fp.len() == 0) || crate::encoding::exponent_in_range(
            canonical_exponent(ip, fp),
        ),
    ensures
        encode_text(plain_text(negative, ip, fp)) is Ok,
        decode_text(encode_text(plain_text(negative, ip, fp))->Ok_0) == Some(
            plain_text(negative, ip, fp),
        ),
{
    let s = plain_text(negative, ip, fp);
    lemma_canonical_text(negative, ip, fp);
    lemma_read_is_not_special(s);
    let v = read_decimal(s)->Ok_0;
    lemma_decode_number(Number::Finite(v.0, v.1, v.2));
}

/// Formatting a value and reading the text gives the value back.
pub proof fn law_format_reads_back(v: (bool, Seq<u8>, int))
    requires
        is_normal(v),
    ensures
        read_decimal(crate::format::format_parts(v.0, v.1, v.2)) == Ok::<
            (bool, Seq<u8>, int),
            Option<Seq<char>>,
        >(v),
{
    lemma_read_format(v);
}

/// Two finite values share their bytes exactly where they are the same
/// number: where `a * 10^k` and `b * 10^k` are integers, the encodings are
/// equal exactly when those integers are.
pub proof fn law_equal_values_share_bytes(a: (bool, Seq<u8>, int), b: (bool, Seq<u8>, int), k: int)
    requires
        is_normal(a),
        is_normal(b),
        scale_exponent(a, k) >= 0,
        scale_exponent(b, k) >= 0,
    ensures
        (encode_value(a) == encode_value(b)) == (scaled(a, k) == scaled(b, k)),
{
    lemma_encoding_order(a, b);
    lemma_encoding_order(b, a);
    lemma_value_order_is_numeric(a, b, k);
    lemma_value_order_is_numeric(b, a, k);
    crate::value::lemma_lex_total(encode_value(a), encode_value(b));
    crate::order::lemma_lex_irreflexive(encode_value(a));
}

/// Two texts that read as finite values encode alike exactly where they
/// stand for the same number, compared after scaling both by `10^k`: so
/// "1", "1.0", "+01", "10e-1" and "0.1e1" share one encoding.
pub proof fn law_texts_of_one_number_share_bytes(s: Seq<char>, t: Seq<char>, k: int)
    requires
        read_decimal(s) is Ok,
        read_decimal(t) is Ok,
        scale_exponent(read_decimal(s)->Ok_0, k) >= 0,
        scale_exponent(read_decimal(t)->Ok_0, k) >= 0,
    ensures
        (encode_text(s) == encode_text(t)) == (scaled(read_decimal(s)->Ok_0, k) == scaled(
            read_decimal(t)->Ok_0,
            k,
        )),
{
    lemma_read_is_not_special(s);
    lemma_read_is_not_special(t);
    lemma_read_is_normal(s);
    lemma_read_is_normal(t);
    let a = read_decimal(s)->Ok_0;
    let b = read_decimal(t)->Ok_0;
    law_equal_values_share_bytes(a, b, k);
    if encode_text(s) == encode_text(t) {
        assert(encode_value(a) == encode_value(b));
    }
}

/// The exponent bytes of two different exponents diverge before either ends,
/// and sort as the exponents do, or in reverse for a negative value.
pub proof fn law_exponent_bytes_order(ea: int, eb: int, negative: bool)
    requires
        crate::encoding::exponent_in_range(ea),
        crate::encoding::exponent_in_range(eb),
        ea != eb,
    ensures
        crate::order::diverge(exponent_bytes(ea, negative), exponent_bytes(eb, negative)),
        lex_lt(exponent_bytes(ea, negative), exponent_bytes(eb, negative)) == (if negative {
            eb < ea
        } else {
            ea < eb
        }),
{
    crate::order::lemma_exponent_bytes_order(ea, eb, negative);
}

/// The exponent bytes read back as the exponent, whatever follows them: two
/// bytes up to exponent 49148, six above it.
pub proof fn law_exponent_read_back(e: int, negative: bool, rest: Seq<u8>)
    requires
        crate::encoding::exponent_in_range(e),
    ensures
        crate::encoding::exponent_header(exponent_bytes(e, negative) + rest, negative) == Some(
            (
                e,
                if e <= LAST_INLINE_EXPONENT {
                    2int
                } else {
                    6
                },
            ),
        ),
{
    crate::encoding::lemma_exponent_header(e, negative, rest);
}

/// Every text that reads as zero has the one-byte encoding of zero.
pub proof fn law_zero_has_one_encoding(s: Seq<char>)
    requires
        read_decimal(s) is Ok,
        read_decimal(s)->Ok_0.1.len() == 0,
    ensures
        encode_text(s) == Ok::<Seq<u8>, Option<Seq<char>>>(seq![SIGN_ZERO]),
{
    lemma_read_is_not_special(s);
}

/// The sign byte tells the sign of a finite value.
pub proof fn law_sign_byte(v: (bool, Seq<u8>, int))
    requires
        is_normal(v),
    ensures
        (encode_value(v)[0] == SIGN_ZERO) == (v.1.len() == 0),
        (encode_value(v)[0] == SIGN_NEGATIVE) == (v.1.len() > 0 && v.0),
        (encode_value(v)[0] == SIGN_POSITIVE) == (v.1.len() > 0 && !v.0),
        (encode_value(v) == seq![SIGN_ZERO]) == (v.1.len() == 0),
{
    if v.1.len() > 0 {
        assert(encode_value(v).len() > 1);
    }
}

/// Storage: one byte for zero; otherwise one sign byte, two exponent bytes
/// (six above exponent 49148), one byte for every two digits, and one
/// terminator byte for a negative value.
pub proof fn law_encoding_size(v: (bool, Seq<u8>, int))
    requires
        is_normal(v),
    ensures
        v.1.len() == 0 ==> encode_value(v).len() == 1,
        v.1.len() > 0 ==> encode_value(v).len() == 1 + (if v.2 <= LAST_INLINE_EXPONENT {
            2int
        } else {
            6
        }) + (v.1.len() + 1) / 2 + (if v.0 {
            1int
        } else {
            0
        }),
{
    if v.1.len() > 0 {
        assert(exponent_bytes(v.2, v.0).len() == (if v.2 <= LAST_INLINE_EXPONENT {
            2int
        } else {
            6
        }));
        assert(mantissa_bytes(v.1, v.0).len() == pack_digits(v.1).len() + (if v.0 {
            1int
        } else {
            0
        }));
    }
}

/// With no constraint, fitting a text changes nothing: it encodes as
/// `from_str` encodes it.
pub proof fn law_unconstrained(s: Seq<char>)
    ensures
        constrained_number(s, None, None) == encode_text(s),
{
    lemma_unconstrained(s);
}

/// Adding one to digits read as an integer adds one to their value.
pub proof fn law_add_one_adds_one(s: Seq<u8>)
    requires
        crate::encoding::is_digit_seq(s),
    ensures
        digits_num(add_one(s)) == digits_num(s) + 1,
    decreases s.len(),
{
    if s.len() > 0 {
        let t = s.drop_last();
        law_add_one_adds_one(t);
        let u = add_one(s);
        assert(digits_num(s) == digits_num(t) * 10 + s.last());
        if s.last() == 9 {
            assert(u.drop_last() =~= add_one(t));
            assert(u.last() == 0);
        } else {
            assert(s.last() < 9);
            assert(u.drop_last() =~= t);
            assert(u.last() == s.last() + 1);
        }
        assert(digits_num(u) == digits_num(u.drop_last()) * 10 + u.last());
    } else {
        let one = seq![1u8];
        assert(one.drop_last() =~= Seq::<u8>::empty());
        assert(digits_num(one) == digits_num(one.drop_last()) * 10 + one.last());
        assert(digits_num(s) == 0);
    }
}

/// Rounding to the first `k` digits rounds half away from zero: the kept
/// digits, read as an integer, go up by one exactly where the dropped digits
/// are at least half a unit of the last kept digit, and the result keeps the
/// place of that digit.
pub proof fn law_rounding_is_half_away_from_zero(d: Seq<u8>, e: int, k: int)
    requires
        crate::encoding::is_digit_seq(d),
        0 <= k < d.len(),
    ensures
        ({
            let x = round_digits(d, e, k);
            let dropped = digits_num(d.skip(k));
            let unit = pow10((d.len() - k) as nat);
            &&& x.1 - x.0.len() == e - k
            &&& digits_num(x.0) == digits_num(d.take(k)) + (if 2 * dropped >= unit {
                1int
            } else {
                0
            })
        }),
{
    let t = d.skip(k);
    let n = t.len();
    assert(crate::encoding::is_digit_seq(t));
    assert(crate::encoding::is_digit_seq(d.take(k)));
    lemma_digits_num_front(t);
    lemma_digits_num_bounds(t.drop_first());
    let p = pow10((n - 1) as nat);
    let r = digits_num(t.drop_first());
    let h = t[0] as int;
    assert(t[0] == d[k]);
    assert(pow10(n as nat) == 10 * p);
    assert(0 <= h <= 9);
    assert(0 <= r < p);
    assert((2 * (h * p + r) >= 10 * p) == (h >= 5)) by (nonlinear_arith)
        requires
            0 <= h <= 9,
            0 <= r < p,
    ;
    if d[k] >= 5 {
        law_add_one_adds_one(d.take(k));
        lemma_add_one_digits(d.take(k));
    }
}

/// How rounding to the first `k` digits moves the count of fraction digits:
/// what remains ends at or above the digit `k`.
proof fn lemma_round_fraction(negative: bool, d: Seq<u8>, e: int, k: int)
    requires
        crate::encoding::is_digit_seq(d),
    ensures
        ({
            let x = round_digits(d, e, k);
            let r = normalize(negative, x.0, x.1);
            &&& crate::encoding::is_digit_seq(x.0)
            &&& r.1.len() > 0 ==> r.1.len() - r.2 <= (if k >= d.len() {
                d.len() - e
            } else {
                k - e
            })
            &&& r.1.len() > 0 ==> r.2 <= x.1
        }),
{
    let x = round_digits(d, e, k);
    if k < d.len() && k >= 0 {
        assert(crate::encoding::is_digit_seq(d.take(k)));
        if d[k] >= 5 {
            lemma_add_one_digits(d.take(k));
        }
    }
    lemma_normalize(negative, x.0, x.1);
    crate::truncate::lemma_lead_zeros_bound(x.0);
}

/// With a scale, a nonzero result has at most `scale` digits after the
/// decimal point (for a negative scale: its last digit stands at `10^-scale`
/// or above).
pub proof fn law_scale_bounds_fraction(
    v: (bool, Seq<u8>, int),
    precision: Option<u32>,
    scale: i32,
)
    requires
        is_normal(v),
    ensures
        ({
            let c = constrain_parts(v, precision, Some(scale));
            c.1.len() > 0 ==> c.1.len() - c.2 <= scale
        }),
{
    let (negative, d, e) = v;
    let x = round_digits(d, e, e + scale);
    lemma_round_fraction(negative, d, e, e + scale);
    let r = normalize(negative, x.0, x.1);
    lemma_normalize(negative, x.0, x.1);
    if let Some(p) = precision {
        let y = keep_below(r.1, r.2, integer_digits_allowed(p, scale));
        assert(crate::encoding::is_digit_seq(y.0));
        lemma_normalize(r.0, y.0, y.1);
        crate::truncate::lemma_lead_zeros_bound(y.0);
    }
}

/// With a precision and a scale, a nonzero result has at most
/// `precision - scale` digits before the decimal point (none where the
/// precision is not above the scale), and so at most `precision` digits in
/// all, or `scale` where that is more.
pub proof fn law_precision_bounds_digits(v: (bool, Seq<u8>, int), precision: u32, scale: i32)
    requires
        is_normal(v),
    ensures
        ({
            let c = constrain_parts(v, Some(precision), Some(scale));
            &&& c.1.len() > 0 ==> c.2 <= integer_digits_allowed(precision, scale)
            &&& c.1.len() <= integer_digits_allowed(precision, scale) + scale
        }),
{
    let (negative, d, e) = v;
    let x = round_digits(d, e, e + scale);
    lemma_round_fraction(negative, d, e, e + scale);
    let r = normalize(negative, x.0, x.1);
    lemma_normalize(negative, x.0, x.1);
    let y = keep_below(r.1, r.2, integer_digits_allowed(precision, scale));
    assert(crate::encoding::is_digit_seq(y.0));
    lemma_normalize(r.0, y.0, y.1);
    crate::truncate::lemma_lead_zeros_bound(y.0);
    law_scale_bounds_fraction(v, Some(precision), scale);
}

/// Where adding one makes digits longer, the result is `1` followed by zeros.
proof fn lemma_add_one_grows(s: Seq<u8>)
    requires
        crate::encoding::is_digit_seq(s),
        add_one(s).len() == s.len() + 1,
    ensures
        add_one(s)[0] == 1,
        forall|i: int| 1 <= i < add_one(s).len() ==> #[trigger] add_one(s)[i] == 0,
    decreases s.len(),
{
    if s.len() > 0 {
        let t = s.drop_last();
        lemma_add_one_digits(t);
        assert(s.last() == 9);
        lemma_add_one_grows(t);
        let u = add_one(s);
        assert forall|i: int| 1 <= i < u.len() implies #[trigger] u[i] == 0 by {
            if i < u.len() - 1 {
                assert(u[i] == add_one(t)[i]);
            }
        }
    }
}

/// Rounding to the first `k` digits, for `k` at least one, leaves at most `k`
/// digits.
proof fn lemma_round_len(negative: bool, d: Seq<u8>, e: int, k: int)
    requires
        crate::encoding::is_digit_seq(d),
        k >= 1,
    ensures
        round_parts(negative, d, e, k).1.len() <= k,
{
    let x = round_digits(d, e, k);
    lemma_round_fraction(negative, d, e, k);
    lemma_normalize(negative, x.0, x.1);
    crate::truncate::lemma_lead_zeros_bound(x.0);
    if k < d.len() && d[k] >= 5 {
        let u = add_one(d.take(k));
        lemma_add_one_digits(d.take(k));
        if u.len() == k + 1 {
            lemma_add_one_grows(d.take(k));
            assert(lead_zeros(u) == 0);
            assert(u.skip(0) =~= u);
            crate::truncate::lemma_trim_zeros(u);
            let l = crate::truncate::trim_zeros(u).len();
            assert(l >= 1) by {
                if l == 0 {
                    assert(u[0] == 0);
                }
            }
            assert(l <= 1) by {
                if l > 1 {
                    assert(crate::truncate::trim_zeros(u).last() == u[l - 1]);
                }
            }
        }
    }
}

/// With a precision and no scale, a result has at most `precision` digits,
/// for a precision of at least one.
pub proof fn law_precision_alone_bounds_digits(v: (bool, Seq<u8>, int), precision: u32)
    requires
        is_normal(v),
        precision >= 1,
    ensures
        constrain_parts(v, Some(precision), None).1.len() <= precision,
{
    let (negative, d, e) = v;
    lemma_cut_parts(negative, d, e, precision as int);
    let r = cut_parts(negative, d, e, precision as int);
    lemma_round_len(r.0, r.1, r.2, precision as int);
}

/// Fitting to constraints keeps the sign: a nonzero result has the sign of
/// the value it was fitted from.
pub proof fn law_constraints_keep_sign(
    v: (bool, Seq<u8>, int),
    precision: Option<u32>,
    scale: Option<i32>,
)
    requires
        is_normal(v),
    ensures
        constrain_parts(v, precision, scale).1.len() > 0 ==> constrain_parts(
            v,
            precision,
            scale,
        ).0 == v.0,
{
    let (negative, d, e) = v;
    match scale {
        Some(s) => {
            let r = round_parts(negative, d, e, e + s);
            if let Some(p) = precision {
                let y = keep_below(r.1, r.2, integer_digits_allowed(p, s));
                if r.1.len() == 0 {
                    assert(y.0.len() == 0);
                    assert(y.0.skip(lead_zeros(y.0)).len() == 0);
                }
            }
        },
        None => {
            if let Some(p) = precision {
                let r = cut_parts(negative, d, e, p as int);
                let x = round_digits(r.1, r.2, p as int);
                if r.1.len() == 0 {
                    assert(x.0.len() == 0) by {
                        if p as int >= r.1.len() {
                        } else {
                        }
                    }
                    assert(x.0.skip(lead_zeros(x.0)).len() == 0);
                }
            }
        },
    }
}

/// Digit text stands for its number however that number is summed.
proof fn lemma_digits_value_is_text_num(t: Seq<char>)
    requires
        all_digit_chars(t),
    ensures
        digits_value(t) == text_num(t),
    decreases t.len(),
{
    if t.len() > 0 {
        assert(is_digit_char(t[t.len() - 1]));
        assert(all_digit_chars(t.drop_last())) by {
            assert forall|i: int| 0 <= i < t.len() - 1 implies is_digit_char(
                #[trigger] t.drop_last()[i],
            ) by {
                assert(t.drop_last()[i] == t[i]);
            }
        }
        lemma_digits_value_is_text_num(t.drop_last());
        let d = digit_values(t);
        assert(d.drop_last() =~= digit_values(t.drop_last()));
        assert(digits_num(d) == digits_num(d.drop_last()) * 10 + d.last());
    }
}

/// The exponent after `e` is read as `i32::from_str` reads it: digit text
/// stands for its number, a `+` before it keeps that number, a `-` negates
/// it, and a number beyond the 32-bit range is refused.
pub proof fn law_exponent_text_value(d: Seq<char>)
    requires
        all_digit_chars(d),
        d.len() > 0,
    ensures
        text_num(d) <= 0x7fff_ffff ==> (i32_from_text(d) matches Some(x) && x == text_num(d)),
        text_num(d) <= 0x7fff_ffff ==> (i32_from_text(seq!['+'] + d) matches Some(x) && x
            == text_num(d)),
        text_num(d) <= 0x8000_0000 ==> (i32_from_text(seq!['-'] + d) matches Some(x) && x
            == -text_num(d)),
        text_num(d) > 0x7fff_ffff ==> i32_from_text(d) is None && i32_from_text(seq!['+'] + d)
            is None,
        text_num(d) > 0x8000_0000 ==> i32_from_text(seq!['-'] + d) is None,
{
    lemma_digits_value_is_text_num(d);
    lemma_digits_value_nonneg(d);
    assert(is_digit_char(d[0]));
    assert((seq!['+'] + d).drop_first() =~= d);
    assert((seq!['-'] + d).drop_first() =~= d);
    assert((seq!['+'] + d)[0] == '+');
    assert((seq!['-'] + d)[0] == '-');
}

/// The decimal text of a natural number stands for that number.
pub proof fn law_natural_text_value(n: nat)
    ensures
        all_digit_chars(natural_text(n)),
        text_num(natural_text(n)) == n,
    decreases n,
{
    let t = natural_text(n);
    if n < 10 {
        lemma_digit_char(n as u8);
        let d = digit_values(t);
        assert(d.drop_last() =~= Seq::<u8>::empty());
        assert(digits_num(d) == digits_num(d.drop_last()) * 10 + d.last());
    } else {
        law_natural_text_value(n / 10);
        lemma_digit_char((n % 10) as u8);
        let u = natural_text(n / 10);
        assert(t == u.push(digit_char((n % 10) as u8)));
        assert forall|i: int| 0 <= i < t.len() implies is_digit_char(#[trigger] t[i]) by {
            if i < u.len() {
                assert(t[i] == u[i]);
            }
        }
        let d = digit_values(t);
        assert(d.drop_last() =~= digit_values(u));
        assert(digits_num(d) == digits_num(d.drop_last()) * 10 + d.last());
    }
}

/// The decimal of an integer is that integer: the text of an integer of at
/// most 128 bits encodes as the value it reads as, and that value is the
/// integer.
pub proof fn law_integer_text_value(negative: bool, magnitude: int)
    requires
        0 <= magnitude <= u128::MAX,
    ensures
        ({
            let s = integer_text(negative, magnitude);
            let v = read_decimal(s)->Ok_0;
            &&& read_decimal(s) is Ok
            &&& encode_text(s) == Ok::<Seq<u8>, Option<Seq<char>>>(encode_value(v))
            &&& scaled(v, 0) == (if negative {
                -magnitude
            } else {
                magnitude
            })
        }),
{
    let s = integer_text(negative, magnitude);
    lemma_integer_text_reads(negative, magnitude);
    lemma_read_is_not_special(s);
    let b = natural_text(magnitude as nat);
    law_natural_text_value(magnitude as nat);
    law_read_keeps_value(s, 0);
    assert(b + Seq::<char>::empty() =~= b);
    assert(pow10(0) == 1);
}

} // verus!
