//! Equality and order of decimals: those of their bytes, which are those of
//! the values.
use vstd::prelude::*;

use core::cmp::Ordering;

use vstd::std_specs::cmp::{PartialEqSpec, PartialOrdSpec};

use crate::encoding::{decode_value, encode_number, is_valid, same_bytes, Number};
use crate::order::{lemma_lex_irreflexive, lemma_number_order, lex_less, lex_lt, number_lt};
use crate::value::{lemma_lex_total, lemma_value_order_is_numeric, scale_exponent, scaled};
use crate::{is_encoding, Decimal};

verus! {

/// The order of two byte strings, as `Ord` orders `[u8]`.
pub open spec fn byte_order(a: Seq<u8>, b: Seq<u8>) -> Ordering {
    if lex_lt(a, b) {
        Ordering::Less
    } else if a == b {
        Ordering::Equal
    } else {
        Ordering::Greater
    }
}

/// Compares two byte strings lexicographically.
fn compare_bytes(a: &[u8], b: &[u8]) -> (r: Ordering)
    ensures
        r == byte_order(a@, b@),
{
    if lex_less(a, b) {
        Ordering::Less
    } else if same_bytes(a, b) {
        Ordering::Equal
    } else {
        Ordering::Greater
    }
}

impl PartialEq for Decimal {
    /// Two decimals are equal exactly where their bytes are.
    fn eq(&self, other: &Self) -> (r: bool) {
        let o = compare_bytes(self.bytes.as_slice(), other.bytes.as_slice());
        proof {
            crate::order::lemma_lex_irreflexive(self@);
        }
        match o {
            Ordering::Equal => true,
            _ => false,
        }
    }
}

impl vstd::std_specs::cmp::PartialEqSpecImpl for Decimal {
    open spec fn obeys_eq_spec() -> bool {
        true
    }

    open spec fn eq_spec(&self, other: &Self) -> bool {
        self@ == other@
    }
}

impl PartialOrd for Decimal {
    /// Decimals are ordered as their bytes are.
    fn partial_cmp(&self, other: &Self) -> (r: Option<Ordering>) {
        Some(compare_bytes(self.bytes.as_slice(), other.bytes.as_slice()))
    }
}

impl vstd::std_specs::cmp::PartialOrdSpecImpl for Decimal {
    open spec fn obeys_partial_cmp_spec() -> bool {
        true
    }

    open spec fn partial_cmp_spec(&self, other: &Self) -> Option<Ordering> {
        Some(byte_order(self@, other@))
    }
}

/// The parts of a finite value (zero for a special value).
pub open spec fn finite_parts(n: Number) -> (bool, Seq<u8>, int) {
    match n {
        Number::Finite(negative, d, e) => (negative, d, e),
        Number::Special(_) => (false, Seq::<u8>::empty(), 0),
    }
}

/// Bytes that decode are the encoding of the valid value they decode to.
proof fn lemma_encoding_of_decoded(b: Seq<u8>)
    requires
        is_encoding(b),
    ensures
        is_valid(decode_value(b)->Some_0),
        encode_number(decode_value(b)->Some_0) == b,
{
}

/// `partial_cmp` and `==` on decimals are the order and the equality of their
/// values: `a < b` exactly where the value of `a` is below that of `b` (with
/// `-Infinity < finite values < Infinity < NaN`), and `a == b` exactly where
/// the values are the same.
pub proof fn law_comparison_is_value_order(a: Decimal, b: Decimal)
    requires
        is_encoding(a@),
        is_encoding(b@),
    ensures
        (a.partial_cmp_spec(&b) == Some(Ordering::Less)) == number_lt(
            decode_value(a@)->Some_0,
            decode_value(b@)->Some_0,
        ),
        (a.partial_cmp_spec(&b) == Some(Ordering::Greater)) == number_lt(
            decode_value(b@)->Some_0,
            decode_value(a@)->Some_0,
        ),
        (a.partial_cmp_spec(&b) == Some(Ordering::Equal)) == (decode_value(a@) == decode_value(
            b@,
        )),
        a.eq_spec(&b) == (decode_value(a@) == decode_value(b@)),
{
    let x = decode_value(a@)->Some_0;
    let y = decode_value(b@)->Some_0;
    lemma_encoding_of_decoded(a@);
    lemma_encoding_of_decoded(b@);
    lemma_number_order(x, y);
    lemma_number_order(y, x);
    lemma_lex_irreflexive(a@);
    lemma_lex_total(a@, b@);
    crate::order::lemma_lex_asymmetric(a@, b@);
}

/// On finite decimals, `partial_cmp` and `==` are the order and the equality
/// of the numbers: for any `k` that makes `a * 10^k` and `b * 10^k` integers,
/// `a < b` exactly where `a * 10^k < b * 10^k`, and `a == b` exactly where
/// those integers are equal.
pub proof fn law_comparison_is_numeric_order(a: Decimal, b: Decimal, k: int)
    requires
        is_encoding(a@),
        is_encoding(b@),
        decode_value(a@) matches Some(Number::Finite(_, _, _)),
        decode_value(b@) matches Some(Number::Finite(_, _, _)),
        scale_exponent(finite_parts(decode_value(a@)->Some_0), k) >= 0,
        scale_exponent(finite_parts(decode_value(b@)->Some_0), k) >= 0,
    ensures
        (a.partial_cmp_spec(&b) == Some(Ordering::Less)) == (scaled(
            finite_parts(decode_value(a@)->Some_0),
            k,
        ) < scaled(finite_parts(decode_value(b@)->Some_0), k)),
        a.eq_spec(&b) == (scaled(finite_parts(decode_value(a@)->Some_0), k) == scaled(
            finite_parts(decode_value(b@)->Some_0),
            k,
        )),
{
    let x = finite_parts(decode_value(a@)->Some_0);
    let y = finite_parts(decode_value(b@)->Some_0);
    law_comparison_is_value_order(a, b);
    lemma_encoding_of_decoded(a@);
    lemma_encoding_of_decoded(b@);
    lemma_value_order_is_numeric(x, y, k);
    lemma_value_order_is_numeric(y, x, k);
}

} // verus!
