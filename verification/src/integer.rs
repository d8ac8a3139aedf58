//! Decimals of integers, by way of their decimal text.
use vstd::prelude::*;

use crate::encoding::{encode_text, exponent_in_range};
use crate::value::pow10;
use crate::parse::{
    ends_mantissa, fraction_text, has_two_points, integer_text as integer_digits, is_nonzero,
    is_point, read_decimal, significant_parts, split_sign,
};
use crate::text::{
    all_digit_chars, char_digit, char_of_digit, digit_char, first_index, is_digit_char, is_first,
    lemma_first_index, lemma_first_index_exists, lemma_trim_end, lemma_trim_start,
    string_of, trim,
};

verus! {

/// The decimal digits of a natural number, without leading zeros.
pub open spec fn natural_text(n: nat) -> Seq<char>
    decreases n,
{
    if n < 10 {
        seq![digit_char(n as u8)]
    } else {
        natural_text(n / 10).push(digit_char((n % 10) as u8))
    }
}

/// The decimal text of an integer given by sign and magnitude: `-` before the
/// digits of a negative one.
pub open spec fn integer_text(negative: bool, magnitude: int) -> Seq<char> {
    if negative {
        seq!['-'] + natural_text(magnitude as nat)
    } else {
        natural_text(magnitude as nat)
    }
}

pub proof fn lemma_digit_char(d: u8)
    requires
        d < 10,
    ensures
        is_digit_char(digit_char(d)),
        char_digit(digit_char(d)) == d,
{
}

proof fn lemma_natural_text_digits(n: nat)
    ensures
        natural_text(n).len() >= 1,
        all_digit_chars(natural_text(n)),
        n > 0 ==> natural_text(n)[0] != '0',
    decreases n,
{
    if n < 10 {
        lemma_digit_char(n as u8);
        if n > 0 {
            assert(char_digit(natural_text(n)[0]) != 0);
        }
    } else {
        lemma_natural_text_digits(n / 10);
        lemma_digit_char((n % 10) as u8);
        let t = natural_text(n);
        let p = natural_text(n / 10);
        assert forall|i: int| 0 <= i < t.len() implies is_digit_char(#[trigger] t[i]) by {
            if i < p.len() {
                assert(t[i] == p[i]);
            }
        }
        assert(t[0] == p[0]);
    }
}

proof fn lemma_natural_text_len(n: nat, k: nat)
    requires
        k >= 1,
        n < pow10(k),
    ensures
        natural_text(n).len() <= k,
    decreases n,
{
    if n >= 10 {
        assert(k >= 2) by {
            if k == 1 {
                assert(pow10(1) == 10 * pow10(0));
            }
        }
        assert(pow10(k) == 10 * pow10((k - 1) as nat));
        assert(n / 10 < pow10((k - 1) as nat));
        lemma_natural_text_len(n / 10, (k - 1) as nat);
    }
}

/// The decimal text of every integer of at most 128 bits reads, so it encodes.
pub proof fn lemma_integer_text_reads(negative: bool, magnitude: int)
    requires
        0 <= magnitude <= u128::MAX,
    ensures
        encode_text(integer_text(negative, magnitude)) is Ok,
        read_decimal(integer_text(negative, magnitude)) is Ok,
        crate::parse::written_parts(integer_text(negative, magnitude)) == (
            negative,
            natural_text(magnitude as nat),
            Seq::<char>::empty(),
            0int,
        ),
        ({
            let v = read_decimal(integer_text(negative, magnitude))->Ok_0;
            v.1.len() <= v.2
        }),
{
    let s = integer_text(negative, magnitude);
    let b = natural_text(magnitude as nat);
    lemma_natural_text_digits(magnitude as nat);
    assert(pow10(39) == 1000000000000000000000000000000000000000) by {
        reveal_with_fuel(pow10, 40);
    }
    lemma_natural_text_len(magnitude as nat, 39);
    // No whitespace at either end
    assert(is_digit_char(b[0]) && is_digit_char(b.last()));
    assert(s.last() == b.last());
    lemma_trim_start(s, 0);
    assert(s.skip(0) =~= s);
    lemma_trim_end(s, s.len() as int);
    assert(s.take(s.len() as int) =~= s);
    assert(trim(s) == s);
    if negative {
        assert(s.drop_first() =~= b);
    }
    assert(split_sign(s) == (negative, b));
    // All of it is digits
    assert(is_first(b, ends_mantissa(), b.len() as int)) by {
        assert forall|i: int| 0 <= i < b.len() implies !ends_mantissa()(#[trigger] b[i]) by {
            assert(is_digit_char(b[i]));
        }
    }
    lemma_first_index(b, ends_mantissa(), b.len() as int);
    assert(b.take(b.len() as int) =~= b);
    assert(!has_two_points(b)) by {
        if has_two_points(b) {
            let (x, y) = choose|x: int, y: int|
                0 <= x < y < b.len() && #[trigger] b[x] == '.' && #[trigger] b[y] == '.';
            assert(is_digit_char(b[x]));
        }
    }
    assert(is_first(b, is_point(), b.len() as int)) by {
        assert forall|i: int| 0 <= i < b.len() implies !is_point()(#[trigger] b[i]) by {
            assert(is_digit_char(b[i]));
        }
    }
    lemma_first_index(b, is_point(), b.len() as int);
    assert(integer_digits(b) == b);
    assert(fraction_text(b) == Seq::<char>::empty());
    let c = b + Seq::<char>::empty();
    assert(c =~= b);
    lemma_first_index_exists(b, is_nonzero());
    let f = first_index(b, is_nonzero());
    assert(exponent_in_range(b.len() - f + 0));
    assert(significant_parts(negative, b, Seq::<char>::empty(), 0) is Ok);
    crate::special::lemma_read_is_not_special(s);
    crate::text::lemma_last_index_exists(c, is_nonzero());
}

/// The decimal digits of a natural number.
fn digits_of(x: u128) -> (r: Vec<char>)
    ensures
        r@ == natural_text(x as nat),
    decreases x,
{
    if x < 10 {
        let mut r: Vec<char> = Vec::new();
        r.push(char_of_digit(x as u8));
        assert(r@ =~= natural_text(x as nat));
        r
    } else {
        let mut r = digits_of(x / 10);
        r.push(char_of_digit((x % 10) as u8));
        r
    }
}

/// The decimal text of the integer with the given sign and magnitude.
pub fn text_of_integer(negative: bool, magnitude: u128) -> (s: String)
    ensures
        s@ == integer_text(negative, magnitude as int),
{
    let mut v: Vec<char> = Vec::new();
    if negative {
        v.push('-');
    }
    let d = digits_of(magnitude);
    crate::text::append_chars(&mut v, d.as_slice());
    assert(v@ =~= integer_text(negative, magnitude as int));
    string_of(v.as_slice())
}

} // verus!
