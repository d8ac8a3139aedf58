//! Reading decimal text into `(negative, significant digits, exponent)`.
//!
//! The accepted text, once whitespace is trimmed off both ends, is an optional
//! sign, then digits with at most one decimal point, then optionally `e` or `E`
//! and a 32-bit exponent. Text without any digit reads as zero.
use vstd::prelude::*;

use crate::encoding::{exponent_in_range, is_normal, DecimalError, MAX_EXPONENT, MIN_EXPONENT};
use crate::text::{
    all_digit_chars, append_chars, char_digit, chars_of, digit_of, digit_values, first_index,
    i32_from_chars, i32_from_text, is_digit, is_digit_char, is_first, is_last, last_index,
    lemma_first_index, lemma_first_index_exists, lemma_last_index, string_of, trim, trim_bounds,
};

verus! {

/// A character of the digits part: a digit or the decimal point.
pub open spec fn is_mantissa_char(c: char) -> bool {
    is_digit_char(c) || c == '.'
}

/// Ends the digits part.
pub open spec fn ends_mantissa() -> spec_fn(char) -> bool {
    |c: char| !is_mantissa_char(c)
}

/// The decimal point.
pub open spec fn is_point() -> spec_fn(char) -> bool {
    |c: char| c == '.'
}

/// A digit other than zero (within digit text).
pub open spec fn is_nonzero() -> spec_fn(char) -> bool {
    |c: char| c != '0'
}

/// The sign and the rest of a trimmed text: a leading `-` makes it negative,
/// a leading `+` is dropped.
pub open spec fn split_sign(t: Seq<char>) -> (bool, Seq<char>) {
    if t.len() > 0 && t[0] == '-' {
        (true, t.drop_first())
    } else if t.len() > 0 && t[0] == '+' {
        (false, t.drop_first())
    } else {
        (false, t)
    }
}

/// The text holds two decimal points.
pub open spec fn has_two_points(m: Seq<char>) -> bool {
    exists|i: int, j: int| 0 <= i < j < m.len() && #[trigger] m[i] == '.' && #[trigger] m[j] == '.'
}

/// The digits before the decimal point.
pub open spec fn integer_text(m: Seq<char>) -> Seq<char> {
    m.take(first_index(m, is_point()))
}

/// The digits after the decimal point.
pub open spec fn fraction_text(m: Seq<char>) -> Seq<char> {
    let p = first_index(m, is_point());
    if p < m.len() {
        m.skip(p + 1)
    } else {
        Seq::<char>::empty()
    }
}

/// `e` or `E`.
pub open spec fn is_exponent_marker(c: char) -> bool {
    c == 'e' || c == 'E'
}

/// The message of a refused character.
pub open spec fn invalid_character_message(c: char) -> Seq<char> {
    "Invalid character: "@ + seq![c]
}

/// The message of a refused exponent.
pub open spec fn invalid_exponent_message(t: Seq<char>) -> Seq<char> {
    "Invalid exponent: "@ + t
}

/// The outcome of reading digit text: `Ok(parts)`, or `Err(Some(message))` for
/// a malformed text, or `Err(None)` for an exponent out of range.
pub type ReadOutcome = Result<(bool, Seq<u8>, int), Option<Seq<char>>>;

/// `(negative, significant digits, exponent)` of the value `ip.fp * 10^offset`,
/// with `0.d1 d2 ... dn * 10^exponent` the value and `d1`, `dn` nonzero.
pub open spec fn significant_parts(
    negative: bool,
    ip: Seq<char>,
    fp: Seq<char>,
    offset: int,
) -> ReadOutcome {
    if ip.len() == 0 && fp.len() == 0 {
        Ok((false, Seq::<u8>::empty(), 0))
    } else {
        let ip2 = if ip.len() == 0 {
            seq!['0']
        } else {
            ip
        };
        let c = ip2 + fp;
        let f = first_index(c, is_nonzero());
        let l = last_index(c, is_nonzero());
        if f == c.len() {
            Ok((false, Seq::<u8>::empty(), 0))
        } else {
            let e = ip2.len() - f + offset;
            if !exponent_in_range(e) {
                Err(None)
            } else {
                Ok((negative, digit_values(c.subrange(f, l + 1)), e))
            }
        }
    }
}

/// How a decimal text reads.
pub open spec fn read_decimal(s: Seq<char>) -> ReadOutcome {
    let (negative, b) = split_sign(trim(s));
    let k = first_index(b, ends_mantissa());
    let m = b.take(k);
    if has_two_points(m) {
        Err(Some("Multiple decimal points"@))
    } else if k < b.len() && !is_exponent_marker(b[k]) {
        Err(Some(invalid_character_message(b[k])))
    } else {
        let et = if k < b.len() {
            b.skip(k + 1)
        } else {
            Seq::<char>::empty()
        };
        if et.len() > 0 && i32_from_text(et) is None {
            Err(Some(invalid_exponent_message(et)))
        } else {
            let offset: int = if et.len() > 0 {
                i32_from_text(et).unwrap() as int
            } else {
                0
            };
            significant_parts(negative, integer_text(m), fraction_text(m), offset)
        }
    }
}

/// The error that stands for a refusal.
pub open spec fn error_matches(e: DecimalError, r: Option<Seq<char>>) -> bool {
    match r {
        Some(msg) => e matches DecimalError::InvalidFormat(m) && m@ == msg,
        None => e matches DecimalError::PrecisionOverflow,
    }
}

/// The exec result agrees with a read outcome.
pub open spec fn read_agrees(res: Result<(bool, Vec<u8>, i32), DecimalError>, o: ReadOutcome) -> bool {
    match o {
        Ok(v) => res matches Ok(r) && r.0 == v.0 && r.1@ == v.1 && r.2 == v.2,
        Err(m) => res matches Err(e) && error_matches(e, m),
    }
}

/// What reads successfully is in normal form.
pub proof fn lemma_read_is_normal(s: Seq<char>)
    ensures
        read_decimal(s) matches Ok(v) ==> is_normal(v),
{
    lemma_read_written(s);
    let w = written_parts(s);
    if read_decimal(s) is Ok {
        lemma_significant_is_normal(w.0, w.1, w.2, w.3);
    }
}

/// The parts that a text is written with: sign, integer digits, fraction
/// digits and the exponent after the marker.
pub open spec fn written_parts(s: Seq<char>) -> (bool, Seq<char>, Seq<char>, int) {
    let (negative, b) = split_sign(trim(s));
    let k = first_index(b, ends_mantissa());
    let m = b.take(k);
    (negative, integer_text(m), fraction_text(m), read_offset(b, k))
}

/// A text that reads is written with digits only, and reads as the significant
/// parts of what it is written with.
pub proof fn lemma_read_written(s: Seq<char>)
    ensures
        read_decimal(s) is Ok ==> {
            let w = written_parts(s);
            &&& all_digit_chars(w.1)
            &&& all_digit_chars(w.2)
            &&& read_decimal(s) == significant_parts(w.0, w.1, w.2, w.3)
        },
{
    let (negative, b) = split_sign(trim(s));
    let k = first_index(b, ends_mantissa());
    lemma_first_index_exists(b, ends_mantissa());
    let m = b.take(k);
    if read_decimal(s) is Ok {
        let ip = integer_text(m);
        let fp = fraction_text(m);
        lemma_first_index_exists(m, is_point());
        let p = first_index(m, is_point());
        assert forall|i: int| 0 <= i < m.len() implies is_mantissa_char(#[trigger] m[i]) by {
            assert(m[i] == b[i]);
            assert(!ends_mantissa()(b[i]));
        }
        assert(all_digit_chars(ip)) by {
            assert forall|i: int| 0 <= i < ip.len() implies is_digit_char(#[trigger] ip[i]) by {
                assert(ip[i] == m[i]);
                assert(!is_point()(m[i]));
            }
        }
        assert(all_digit_chars(fp)) by {
            assert forall|i: int| 0 <= i < fp.len() implies is_digit_char(#[trigger] fp[i]) by {
                assert(fp[i] == m[i + p + 1]);
                assert(m[p] == '.');
                if m[i + p + 1] == '.' {
                    assert(has_two_points(m));
                }
            }
        }
    }
}

/// The exponent offset that the text after the digits part gives, when it reads.
pub open spec fn read_offset(b: Seq<char>, k: int) -> int {
    if k < b.len() && b.skip(k + 1).len() > 0 {
        i32_from_text(b.skip(k + 1)).unwrap() as int
    } else {
        0
    }
}

proof fn lemma_significant_is_normal(negative: bool, ip: Seq<char>, fp: Seq<char>, offset: int)
    requires
        all_digit_chars(ip),
        all_digit_chars(fp),
    ensures
        significant_parts(negative, ip, fp, offset) matches Ok(v) ==> is_normal(v),
{
    if ip.len() > 0 || fp.len() > 0 {
        let ip2 = if ip.len() == 0 {
            seq!['0']
        } else {
            ip
        };
        let c = ip2 + fp;
        assert(all_digit_chars(c)) by {
            assert forall|i: int| 0 <= i < c.len() implies is_digit_char(#[trigger] c[i]) by {
                if i < ip2.len() {
                    assert(c[i] == ip2[i]);
                } else {
                    assert(c[i] == fp[i - ip2.len()]);
                }
            }
        }
        lemma_first_index_exists(c, is_nonzero());
        lemma_last_index_exists_for(c);
        let f = first_index(c, is_nonzero());
        let l = last_index(c, is_nonzero());
        if f < c.len() {
            assert(c[f] != '0');
            assert(l >= f) by {
                if l < f {
                    assert(!is_nonzero()(c[f]));
                }
            }
            let d = digit_values(c.subrange(f, l + 1));
            assert(is_digit_char(c[f]) && is_digit_char(c[l]));
            assert(d[0] == char_digit(c[f]) as u8);
            assert(d.last() == char_digit(c[l]) as u8);
            assert forall|i: int| 0 <= i < d.len() implies #[trigger] d[i] < 10 by {
                assert(is_digit_char(c[f + i]));
            }
        }
    }
}

proof fn lemma_last_index_exists_for(c: Seq<char>)
    ensures
        is_last(c, is_nonzero(), last_index(c, is_nonzero())),
{
    crate::text::lemma_last_index_exists(c, is_nonzero());
}

/// A `String` holding the characters of the literal followed by `tail`.
fn message(head: &str, tail: &[char]) -> (s: String)
    ensures
        s@ == head@ + tail@,
{
    let mut v = chars_of(head);
    append_chars(&mut v, tail);
    string_of(&v)
}

/// Parses a decimal string into sign, significant digits, and exponent.
pub fn parse_decimal(value: &str) -> (res: Result<(bool, Vec<u8>, i32), DecimalError>)
    ensures
        read_agrees(res, read_decimal(value@)),
        res matches Ok(r) ==> is_normal((r.0, r.1@, r.2 as int)),
{
    proof {
        lemma_read_is_normal(value@);
    }
    let v = chars_of(value);
    let (lo, hi) = trim_bounds(v.as_slice());
    let ghost t = v@.subrange(lo as int, hi as int);
    let mut i = lo;
    // Handle sign
    let mut is_negative = false;
    if i < hi && v[i] == '-' {
        is_negative = true;
        i += 1;
    } else if i < hi && v[i] == '+' {
        i += 1;
    }
    let body_start = i;
    let ghost b = v@.subrange(body_start as int, hi as int);
    assert(split_sign(t) == (is_negative, b)) by {
        if body_start == lo {
            assert(t =~= b);
        } else {
            assert(t.drop_first() =~= b);
        }
    }
    // Collect the digits part (before 'e' or 'E')
    let mut integer_part: Vec<char> = Vec::new();
    let mut fractional_part: Vec<char> = Vec::new();
    let mut seen_decimal = false;
    let ghost mut point: int = 0;
    while i < hi && (is_digit(v[i]) || v[i] == '.')
        invariant
            lo <= body_start <= i <= hi <= v@.len(),
            b == v@.subrange(body_start as int, hi as int),
            split_sign(trim(value@)) == (is_negative, b),
            forall|j: int| 0 <= j < i - body_start ==> is_mantissa_char(#[trigger] b[j]),
            !seen_decimal ==> forall|j: int| 0 <= j < i - body_start ==> #[trigger] b[j] != '.',
            !seen_decimal ==> integer_part@ == b.take(i - body_start),
            !seen_decimal ==> fractional_part@.len() == 0,
            seen_decimal ==> 0 <= point < i - body_start && b[point] == '.',
            seen_decimal ==> forall|j: int|
                0 <= j < i - body_start && j != point ==> #[trigger] b[j] != '.',
            seen_decimal ==> integer_part@ == b.take(point),
            seen_decimal ==> fractional_part@ == b.subrange(point + 1, i - body_start),
        decreases hi - i,
    {
        let c = v[i];
        let ghost j = i - body_start;
        assert(b[j] == c);
        if c == '.' {
            if seen_decimal {
                proof {
                    lemma_first_index_exists(b, ends_mantissa());
                    let k = first_index(b, ends_mantissa());
                    assert(k > j) by {
                        if k <= j {
                            assert(ends_mantissa()(b[k]));
                        }
                    }
                    let m = b.take(k);
                    assert(m[point] == '.' && m[j] == '.');
                    assert(has_two_points(m));


                }
                return Err(DecimalError::InvalidFormat("Multiple decimal points".to_owned()));
            }
            seen_decimal = true;
            proof {
                point = j;
            }
        } else {
            if seen_decimal {
                fractional_part.push(c);
            } else {
                integer_part.push(c);
            }
        }
        i += 1;
        proof {
            if !seen_decimal {
                assert(integer_part@ =~= b.take(i - body_start));
            } else {
                assert(fractional_part@ =~= b.subrange(point + 1, i - body_start));
            }
        }
    }
    let ghost k = i - body_start;
    let ghost m = b.take(k);
    proof {
        assert(is_first(b, ends_mantissa(), k)) by {
            if k < b.len() {
                assert(b[k] == v@[i as int]);
            }
        }
        lemma_first_index(b, ends_mantissa(), k);
        assert(!has_two_points(m)) by {
            if has_two_points(m) {
                let (x, y) = choose|x: int, y: int|
                    0 <= x < y < m.len() && #[trigger] m[x] == '.' && #[trigger] m[y] == '.';
                assert(m[x] == b[x] && m[y] == b[y]);
            }
        }
        if seen_decimal {
            assert(is_first(m, is_point(), point));
            lemma_first_index(m, is_point(), point);
            assert(integer_part@ =~= integer_text(m));
            assert(fractional_part@ =~= fraction_text(m));
        } else {
            assert(is_first(m, is_point(), k));
            lemma_first_index(m, is_point(), k);
            assert(integer_part@ =~= integer_text(m));
            assert(fractional_part@ =~= fraction_text(m));
        }
    }
    // Parse optional exponent
    let mut exp_offset: i32 = 0;
    if i < hi {
        let c = v[i];
        if !(c == 'e' || c == 'E') {
            let one = [c];
            let msg = message("Invalid character: ", &one);
            assert(one@ =~= seq![c]);
            return Err(DecimalError::InvalidFormat(msg));
        }
        let exp_text = vstd::slice::slice_subrange(v.as_slice(), i + 1, hi);
        assert(exp_text@ =~= b.skip(k + 1));
        if exp_text.len() > 0 {
            match i32_from_chars(exp_text) {
                Some(x) => {
                    exp_offset = x;
                },
                None => {
                    let msg = message("Invalid exponent: ", exp_text);
                    return Err(DecimalError::InvalidFormat(msg));
                },
            }
        }
    }
    assert(exp_offset as int == read_offset(b, k));
    significant(is_negative, integer_part, fractional_part, exp_offset)
}

/// The significant digits and the exponent of `ip.fp * 10^offset`.
fn significant(negative: bool, ip: Vec<char>, fp: Vec<char>, offset: i32) -> (res: Result<
    (bool, Vec<u8>, i32),
    DecimalError,
>)
    requires
        all_digit_chars(ip@),
        all_digit_chars(fp@),
    ensures
        read_agrees(res, significant_parts(negative, ip@, fp@, offset as int)),
{
    let mut integer_part = ip;
    // Handle empty input
    if integer_part.len() == 0 && fp.len() == 0 {
        return Ok((false, Vec::new(), 0));
    }
    // If only fractional part, integer part is "0"
    if integer_part.len() == 0 {
        integer_part.push('0');
    }
    let ghost ip2 = integer_part@;
    assert(ip2 =~= (if ip@.len() == 0 {
        seq!['0']
    } else {
        ip@
    }));
    // Combine all digits
    let mut combined = integer_part.clone();
    append_chars(&mut combined, fp.as_slice());
    let ghost c = combined@;
    assert(c =~= ip2 + fp@);
    assert(all_digit_chars(c)) by {
        assert forall|x: int| 0 <= x < c.len() implies is_digit_char(#[trigger] c[x]) by {
            if x < ip2.len() {
                assert(c[x] == ip2[x]);
            } else {
                assert(c[x] == fp@[x - ip2.len()]);
            }
        }
    }
    // Find the first and last non-zero digit positions
    let mut first: usize = 0;
    while first < combined.len() && combined[first] == '0'
        invariant
            first <= c.len(),
            combined@ == c,
            forall|j: int| 0 <= j < first ==> #[trigger] c[j] == '0',
        decreases c.len() - first,
    {
        first += 1;
    }
    proof {
        assert(is_first(c, is_nonzero(), first as int));
        lemma_first_index(c, is_nonzero(), first as int);
    }
    // If all zeros, return zero
    if first == combined.len() {
        return Ok((false, Vec::new(), 0));
    }
    let mut last: usize = combined.len() - 1;
    while combined[last] == '0'
        invariant
            first <= last < c.len(),
            combined@ == c,
            c[first as int] != '0',
            forall|j: int| last < j < c.len() ==> #[trigger] c[j] == '0',
        decreases last,
    {
        last -= 1;
    }
    proof {
        assert(is_last(c, is_nonzero(), last as int));
        lemma_last_index(c, is_nonzero(), last as int);
    }
    // Calculate the exponent
    let decimal_position = integer_part.len();
    let exponent: i128 = (decimal_position as i128) - (first as i128) + (offset as i128);
    // Validate exponent range
    if exponent > MAX_EXPONENT as i128 || exponent < MIN_EXPONENT as i128 {
        return Err(DecimalError::PrecisionOverflow);
    }
    // Convert significant digits to values
    let mut digits: Vec<u8> = Vec::new();
    let mut j = first;
    while j <= last
        invariant
            first <= j <= last + 1,
            last < c.len(),
            last < combined.len(),
            combined@ == c,
            all_digit_chars(c),
            digits@ == digit_values(c.subrange(first as int, j as int)),
        decreases last + 1 - j,
    {
        assert(is_digit_char(c[j as int]));
        let d = digit_of(combined[j]);
        digits.push(d);
        assert(digit_values(c.subrange(first as int, j + 1)) =~= digit_values(
            c.subrange(first as int, j as int),
        ).push(d));
        j += 1;
    }
    Ok((negative, digits, exponent as i32))
}

} // verus!
