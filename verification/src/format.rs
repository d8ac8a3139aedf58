//! Plain decimal notation of `(negative, digits, exponent)`.
use vstd::prelude::*;

use crate::encoding::{is_digit_seq, DecimalError};
use crate::text::{char_of_digit, digit_text, string_of};

verus! {

/// `n` zero characters.
pub open spec fn zeros(n: int) -> Seq<char> {
    Seq::new(n as nat, |i: int| '0')
}

/// The plain notation of `0.d1 d2 ... dn * 10^exponent`: no exponent marker, a
/// leading `-` for a negative value, the digits, and as many zeros as the
/// exponent asks for, with a decimal point only where a fraction remains.
/// No digits at all is the text `0`.
pub open spec fn format_parts(negative: bool, d: Seq<u8>, exponent: int) -> Seq<char> {
    if d.len() == 0 {
        seq!['0']
    } else {
        let sign = if negative {
            seq!['-']
        } else {
            Seq::<char>::empty()
        };
        let n = d.len() as int;
        if exponent >= n {
            sign + digit_text(d) + zeros(exponent - n)
        } else if exponent <= 0 {
            sign + seq!['0', '.'] + zeros(-exponent) + digit_text(d)
        } else {
            sign + digit_text(d.take(exponent)) + seq!['.'] + digit_text(d.skip(exponent))
        }
    }
}

/// Appends the digit characters of `digits[from..to]`.
fn push_digits(result: &mut Vec<char>, digits: &[u8], from: usize, to: usize)
    requires
        from <= to <= digits@.len(),
        is_digit_seq(digits@),
    ensures
        final(result)@ == old(result)@ + digit_text(digits@.subrange(from as int, to as int)),
{
    let ghost start = old(result)@;
    let mut i = from;
    while i < to
        invariant
            from <= i <= to <= digits@.len(),
            is_digit_seq(digits@),
            result@ == start + digit_text(digits@.subrange(from as int, i as int)),
        decreases to - i,
    {
        let c = char_of_digit(digits[i]);
        result.push(c);
        assert(digit_text(digits@.subrange(from as int, i + 1)) =~= digit_text(
            digits@.subrange(from as int, i as int),
        ).push(c));
        i += 1;
    }
}

/// Appends `n` zero characters.
fn push_zeros(result: &mut Vec<char>, n: u32)
    ensures
        final(result)@ == old(result)@ + zeros(n as int),
{
    let ghost start = old(result)@;
    let mut i: u32 = 0;
    while i < n
        invariant
            i <= n,
            result@ == start + zeros(i as int),
        decreases n - i,
    {
        result.push('0');
        assert(zeros(i + 1) =~= zeros(i as int).push('0'));
        i += 1;
    }
}

/// Formats digits and exponent as a decimal string.
pub fn format_decimal(is_negative: bool, digits: &[u8], exponent: i32) -> (res: Result<
    String,
    DecimalError,
>)
    requires
        is_digit_seq(digits@),
    ensures
        res matches Ok(s) && s@ == format_parts(is_negative, digits@, exponent as int),
{
    let mut result: Vec<char> = Vec::new();
    if digits.len() == 0 {
        result.push('0');
        assert(result@ =~= seq!['0']);
        return Ok(string_of(&result));
    }
    if is_negative {
        result.push('-');
    }
    let ghost sign = result@;
    let n = digits.len();
    let ghost d = digits@;
    if exponent >= 0 && exponent as usize >= n {
        // All digits are before the decimal point
        push_digits(&mut result, digits, 0, n);
        push_zeros(&mut result, (exponent as usize - n) as u32);
        assert(d.subrange(0, n as int) =~= d);
        assert(result@ =~= format_parts(is_negative, d, exponent as int));
    } else if exponent <= 0 {
        // All digits are after the decimal point
        result.push('0');
        result.push('.');
        push_zeros(&mut result, (0 - exponent as i64) as u32);
        push_digits(&mut result, digits, 0, n);
        assert(d.subrange(0, n as int) =~= d);
        assert(result@ =~= format_parts(is_negative, d, exponent as int));
    } else {
        // Some digits before the decimal point, some after
        let decimal_pos = exponent as usize;
        push_digits(&mut result, digits, 0, decimal_pos);
        result.push('.');
        push_digits(&mut result, digits, decimal_pos, n);
        assert(d.subrange(0, decimal_pos as int) =~= d.take(exponent as int));
        assert(d.subrange(decimal_pos as int, n as int) =~= d.skip(exponent as int));
        assert(result@ =~= format_parts(is_negative, d, exponent as int));
    }
    Ok(string_of(&result))
}

} // verus!
