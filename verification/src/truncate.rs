//! Fitting a value to SQL `NUMERIC(precision, scale)` constraints.
//!
//! With a scale, a finite value `0.d1 d2 ... dn * 10^e` is rounded, ties away
//! from zero, to `scale` digits after the decimal point (a negative scale
//! rounds to the left of the point); a precision then keeps the least
//! significant `precision - scale` integer digits (none where the precision
//! is not above the scale). With a precision and no scale, the value keeps its
//! least significant `precision` integer digits and is then rounded to
//! `precision` significant digits. Special values pass unchanged.
use vstd::prelude::*;

use crate::encoding::{
    encode_finite, encode_number, is_digit_seq, is_normal, is_significand, read_number,
    DecimalError, Number, MAX_EXPONENT, MIN_EXPONENT,
};
use crate::format::{format_decimal, format_parts};
use crate::parse::{error_matches, parse_decimal};
use crate::special::{read_special, special_name, special_to_bytes, special_to_string};

verus! {

// ---------------------------------------------------------------------------
// The model
// ---------------------------------------------------------------------------

/// The digits of `s + 1`, where `s` is read as an integer in decimal.
pub open spec fn add_one(s: Seq<u8>) -> Seq<u8>
    decreases s.len(),
{
    if s.len() == 0 {
        seq![1u8]
    } else if s.last() == 9 {
        add_one(s.drop_last()).push(0u8)
    } else {
        s.drop_last().push((s.last() + 1) as u8)
    }
}

/// The number of zeros at the start.
pub open spec fn lead_zeros(d: Seq<u8>) -> int
    decreases d.len(),
{
    if d.len() > 0 && d[0] == 0 {
        1 + lead_zeros(d.drop_first())
    } else {
        0
    }
}

/// Drops every zero at the end.
pub open spec fn trim_zeros(d: Seq<u8>) -> Seq<u8>
    decreases d.len(),
{
    if d.len() > 0 && d.last() == 0 {
        trim_zeros(d.drop_last())
    } else {
        d
    }
}

/// `±0.d * 10^e` in normal form: no leading or trailing zero digit, and zero
/// as the empty digits with a positive sign and exponent 0.
pub open spec fn normalize(negative: bool, d: Seq<u8>, e: int) -> (bool, Seq<u8>, int) {
    let z = lead_zeros(d);
    let t = trim_zeros(d.skip(z));
    if t.len() == 0 {
        (false, Seq::<u8>::empty(), 0)
    } else {
        (negative, t, e - z)
    }
}

/// `0.d * 10^e` rounded to its first `k` digits, ties away from zero: the
/// digits and the exponent, not yet in normal form.
pub open spec fn round_digits(d: Seq<u8>, e: int, k: int) -> (Seq<u8>, int) {
    if k >= d.len() {
        (d, e)
    } else if k < 0 {
        (Seq::<u8>::empty(), e)
    } else if d[k] < 5 {
        (d.take(k), e)
    } else {
        let u = add_one(d.take(k));
        (u, e - k + u.len())
    }
}

/// `0.d * 10^e` without its digits at `10^m` and above: the digits and the
/// exponent, not yet in normal form.
pub open spec fn keep_below(d: Seq<u8>, e: int, m: int) -> (Seq<u8>, int) {
    let j = e - m;
    if j <= 0 {
        (d, e)
    } else if j >= d.len() {
        (Seq::<u8>::empty(), e)
    } else {
        (d.skip(j), m)
    }
}

/// `0.d * 10^e` rounded to its first `k` digits, in normal form.
pub open spec fn round_parts(negative: bool, d: Seq<u8>, e: int, k: int) -> (bool, Seq<u8>, int) {
    let x = round_digits(d, e, k);
    normalize(negative, x.0, x.1)
}

/// `0.d * 10^e` without its digits at `10^m` and above, in normal form.
pub open spec fn cut_parts(negative: bool, d: Seq<u8>, e: int, m: int) -> (bool, Seq<u8>, int) {
    let y = keep_below(d, e, m);
    normalize(negative, y.0, y.1)
}

/// The number of integer digits that a precision leaves beside a scale.
pub open spec fn integer_digits_allowed(precision: u32, scale: i32) -> int {
    if precision - scale > 0 {
        precision - scale
    } else {
        0
    }
}

/// A finite value fitted to the constraints, in normal form; its exponent may
/// have left the range.
pub open spec fn constrain_parts(
    v: (bool, Seq<u8>, int),
    precision: Option<u32>,
    scale: Option<i32>,
) -> (bool, Seq<u8>, int) {
    let (negative, d, e) = v;
    match scale {
        Some(s) => {
            let r = round_parts(negative, d, e, e + s);
            match precision {
                Some(p) => cut_parts(r.0, r.1, r.2, integer_digits_allowed(p, s)),
                None => r,
            }
        },
        None => match precision {
            Some(p) => {
                let r = cut_parts(negative, d, e, p as int);
                round_parts(r.0, r.1, r.2, p as int)
            },
            None => v,
        },
    }
}

/// What a text reads as, fitted to the constraints; a finite value whose
/// exponent leaves the range is refused with `Err(None)`.
pub open spec fn constrained_value(s: Seq<char>, precision: Option<u32>, scale: Option<i32>) -> Result<
    Number,
    Option<Seq<char>>,
> {
    match read_number(s) {
        Ok(Number::Finite(negative, d, e)) => {
            let c = constrain_parts((negative, d, e), precision, scale);
            if is_normal(c) {
                Ok(Number::Finite(c.0, c.1, c.2))
            } else {
                Err(None)
            }
        },
        Ok(n) => Ok(n),
        Err(m) => Err(m),
    }
}

/// The encoding of a text fitted to the constraints.
pub open spec fn constrained_number(s: Seq<char>, precision: Option<u32>, scale: Option<i32>) -> Result<
    Seq<u8>,
    Option<Seq<char>>,
> {
    match constrained_value(s, precision, scale) {
        Ok(n) => Ok(encode_number(n)),
        Err(m) => Err(m),
    }
}

/// The text of a value.
pub open spec fn number_text(n: Number) -> Seq<char> {
    match n {
        Number::Finite(negative, d, e) => format_parts(negative, d, e),
        Number::Special(s) => special_name(s),
    }
}

/// The text of a text fitted to the constraints.
pub open spec fn constrained_text(s: Seq<char>, precision: Option<u32>, scale: Option<i32>) -> Result<
    Seq<char>,
    Option<Seq<char>>,
> {
    match constrained_value(s, precision, scale) {
        Ok(n) => Ok(number_text(n)),
        Err(m) => Err(m),
    }
}

// ---------------------------------------------------------------------------
// Facts
// ---------------------------------------------------------------------------

/// Adding one to digits gives digits.
pub proof fn lemma_add_one_digits(s: Seq<u8>)
    requires
        is_digit_seq(s),
    ensures
        is_digit_seq(add_one(s)),
        add_one(s).len() == s.len() || add_one(s).len() == s.len() + 1,
    decreases s.len(),
{
    if s.len() > 0 {
        if s.last() == 9 {
            lemma_add_one_digits(s.drop_last());
        }
    }
}

proof fn lemma_lead_zeros(d: Seq<u8>)
    ensures
        0 <= lead_zeros(d) <= d.len(),
        lead_zeros(d) < d.len() ==> d[lead_zeros(d)] != 0,
        forall|i: int| 0 <= i < lead_zeros(d) ==> #[trigger] d[i] == 0,
    decreases d.len(),
{
    if d.len() > 0 && d[0] == 0 {
        let t = d.drop_first();
        lemma_lead_zeros(t);
        assert forall|i: int| 0 <= i < lead_zeros(d) implies #[trigger] d[i] == 0 by {
            if i > 0 {
                assert(d[i] == t[i - 1]);
            }
        }
    }
}

/// The leading zeros are at most all the digits.
pub proof fn lemma_lead_zeros_bound(d: Seq<u8>)
    ensures
        0 <= lead_zeros(d) <= d.len(),
{
    lemma_lead_zeros(d);
}

pub proof fn lemma_trim_zeros(d: Seq<u8>)
    ensures
        trim_zeros(d).len() <= d.len(),
        trim_zeros(d) == d.take(trim_zeros(d).len() as int),
        trim_zeros(d).len() > 0 ==> trim_zeros(d).last() != 0,
        forall|i: int| trim_zeros(d).len() <= i < d.len() ==> #[trigger] d[i] == 0,
    decreases d.len(),
{
    if d.len() > 0 && d.last() == 0 {
        let t = d.drop_last();
        lemma_trim_zeros(t);
        assert(trim_zeros(d) =~= d.take(trim_zeros(d).len() as int));
        assert forall|i: int| trim_zeros(d).len() <= i < d.len() implies #[trigger] d[i] == 0 by {
            if i < t.len() {
                assert(d[i] == t[i]);
            }
        }
    } else {
        assert(d.take(d.len() as int) =~= d);
    }
}

/// Normal form is normal form, but for the range of the exponent.
pub proof fn lemma_normalize(negative: bool, d: Seq<u8>, e: int)
    requires
        is_digit_seq(d),
    ensures
        ({
            let r = normalize(negative, d, e);
            &&& r.1.len() == 0 ==> !r.0 && r.2 == 0
            &&& r.1.len() > 0 ==> is_significand(r.1)
            &&& r.1.len() > 0 ==> r.2 == e - lead_zeros(d)
            &&& r.1.len() <= d.len() - lead_zeros(d)
        }),
{
    lemma_lead_zeros(d);
    let z = lead_zeros(d);
    let s = d.skip(z);
    lemma_trim_zeros(s);
    let t = trim_zeros(s);
    if t.len() > 0 {
        assert(t[0] == s[0]);
        assert(s[0] == d[z]);
    }
}

/// A value in normal form is its own normal form.
pub proof fn lemma_normalize_normal(v: (bool, Seq<u8>, int))
    requires
        is_normal(v),
    ensures
        normalize(v.0, v.1, v.2) == v,
{
    let d = v.1;
    if d.len() > 0 {
        assert(lead_zeros(d) == 0);
        assert(d.skip(0) =~= d);
        assert(trim_zeros(d) == d);
    } else {
        assert(d.skip(lead_zeros(d)).len() == 0);
    }
}

/// Rounding gives digits in normal form.
pub proof fn lemma_round_parts(negative: bool, d: Seq<u8>, e: int, k: int)
    requires
        is_digit_seq(d),
    ensures
        is_digit_seq(round_digits(d, e, k).0),
        ({
            let r = round_parts(negative, d, e, k);
            &&& r.1.len() == 0 ==> !r.0 && r.2 == 0
            &&& r.1.len() > 0 ==> is_significand(r.1)
        }),
{
    if k < d.len() && k >= 0 {
        assert(is_digit_seq(d.take(k)));
        if d[k] >= 5 {
            lemma_add_one_digits(d.take(k));
        }
    }
    let x = round_digits(d, e, k);
    lemma_normalize(negative, x.0, x.1);
}

/// Cutting gives digits in normal form.
pub proof fn lemma_cut_parts(negative: bool, d: Seq<u8>, e: int, m: int)
    requires
        is_digit_seq(d),
    ensures
        is_digit_seq(keep_below(d, e, m).0),
        ({
            let r = cut_parts(negative, d, e, m);
            &&& r.1.len() == 0 ==> !r.0 && r.2 == 0
            &&& r.1.len() > 0 ==> is_significand(r.1)
        }),
{
    let y = keep_below(d, e, m);
    assert(is_digit_seq(y.0));
    lemma_normalize(negative, y.0, y.1);
}

/// Fitting gives a value in normal form, where its exponent is in range.
pub proof fn lemma_constrain_parts(v: (bool, Seq<u8>, int), precision: Option<u32>, scale: Option<i32>)
    requires
        is_normal(v),
    ensures
        ({
            let c = constrain_parts(v, precision, scale);
            &&& c.1.len() == 0 ==> is_normal(c)
            &&& c.1.len() > 0 ==> is_significand(c.1)
            &&& is_normal(c) == (c.1.len() == 0 || (MIN_EXPONENT <= c.2 <= MAX_EXPONENT))
        }),
{
    let (negative, d, e) = v;
    match scale {
        Some(s) => {
            lemma_round_parts(negative, d, e, e + s);
            let r = round_parts(negative, d, e, e + s);
            if let Some(p) = precision {
                lemma_cut_parts(r.0, r.1, r.2, integer_digits_allowed(p, s));
            }
        },
        None => {
            if let Some(p) = precision {
                lemma_cut_parts(negative, d, e, p as int);
                let r = cut_parts(negative, d, e, p as int);
                lemma_round_parts(r.0, r.1, r.2, p as int);
            }
        },
    }
}

/// Fitting a text to no constraint leaves what it reads as unchanged.
pub proof fn lemma_unconstrained(s: Seq<char>)
    ensures
        constrained_value(s, None, None) == read_number(s),
        constrained_number(s, None, None) == crate::encoding::encode_text(s),
{
    crate::encoding::lemma_read_number_valid(s);
    if let Ok(Number::Finite(negative, d, e)) = read_number(s) {
        lemma_normalize_normal((negative, d, e));
    }
}

/// What a text fitted to the constraints gives is valid.
pub proof fn lemma_constrained_valid(s: Seq<char>, precision: Option<u32>, scale: Option<i32>)
    ensures
        constrained_value(s, precision, scale) matches Ok(n) ==> crate::encoding::is_valid(n)
            && crate::encoding::decode_value(encode_number(n)) == Some(n),
{
    crate::encoding::lemma_read_number_valid(s);
    if let Ok(n) = constrained_value(s, precision, scale) {
        crate::encoding::lemma_decode_number(n);
    }
}

// ---------------------------------------------------------------------------
// Exec
// ---------------------------------------------------------------------------

/// Adds one to digits read as an integer.
fn add_one_to_integer(s: &[u8]) -> (r: Vec<u8>)
    requires
        is_digit_seq(s@),
    ensures
        r@ == add_one(s@),
{
    let n = s.len();
    let mut v: Vec<u8> = vstd::slice::slice_to_vec(s);
    let mut i: usize = n;
    assert(s@.take(n as int) =~= s@);
    assert(add_one(s@) + Seq::new(0, |j: int| 0u8) =~= add_one(s@));
    while i > 0 && v[i - 1] == 9
        invariant
            i <= n == s@.len(),
            v@.len() == n,
            forall|j: int| 0 <= j < i ==> #[trigger] v@[j] == s@[j],
            forall|j: int| i <= j < n ==> #[trigger] v@[j] == 0,
            forall|j: int| i <= j < n ==> #[trigger] s@[j] == 9,
            add_one(s@) == add_one(s@.take(i as int)) + Seq::new((n - i) as nat, |j: int| 0u8),
        decreases i,
    {
        proof {
            let t = s@.take(i as int);
            assert(t.last() == 9);
            assert(t.drop_last() =~= s@.take(i - 1));
            assert(add_one(t) == add_one(s@.take(i - 1)).push(0u8));
            assert(add_one(s@.take(i - 1)) + Seq::new((n - i + 1) as nat, |j: int| 0u8)
                =~= add_one(s@.take(i - 1)).push(0u8) + Seq::new((n - i) as nat, |j: int| 0u8));
        }
        v.set(i - 1, 0);
        i -= 1;
    }
    if i == 0 {
        let mut r: Vec<u8> = Vec::new();
        r.push(1);
        let mut j: usize = 0;
        while j < n
            invariant
                j <= n == v@.len(),
                r@ == seq![1u8] + Seq::new(j as nat, |x: int| 0u8),
                forall|x: int| 0 <= x < n ==> #[trigger] v@[x] == 0,
            decreases n - j,
        {
            r.push(0);
            assert(seq![1u8] + Seq::new((j + 1) as nat, |x: int| 0u8) =~= (seq![1u8] + Seq::new(
                j as nat,
                |x: int| 0u8,
            )).push(0u8));
            j += 1;
        }
        assert(s@.take(0) =~= Seq::<u8>::empty());
        return r;
    }
    let d = v[i - 1];
    proof {
        let t = s@.take(i as int);
        assert(t.last() == d && d != 9 && d < 10);
        assert(t.drop_last() =~= s@.take(i - 1));
    }
    v.set(i - 1, d + 1);
    assert(v@ =~= add_one(s@.take(i as int)) + Seq::new((n - i) as nat, |j: int| 0u8));
    v
}

/// The digits `d[from..to]`.
fn digits_between(d: &[u8], from: usize, to: usize) -> (r: Vec<u8>)
    requires
        from <= to <= d@.len(),
    ensures
        r@ == d@.subrange(from as int, to as int),
{
    let mut r: Vec<u8> = Vec::new();
    let mut i = from;
    while i < to
        invariant
            from <= i <= to <= d@.len(),
            r@ == d@.subrange(from as int, i as int),
        decreases to - i,
    {
        r.push(d[i]);
        assert(d@.subrange(from as int, i + 1) =~= d@.subrange(from as int, i as int).push(
            d@[i as int],
        ));
        i += 1;
    }
    r
}

/// Normal form of `±0.d * 10^e`, as `normalize` says.
fn normalize_digits(negative: bool, d: &[u8], e: i128) -> (r: (bool, Vec<u8>, i128))
    requires
        is_digit_seq(d@),
        -0x10_0000_0000_0000_0000_0000_0000 < e < 0x10_0000_0000_0000_0000_0000_0000,
    ensures
        (r.0, r.1@, r.2 as int) == normalize(negative, d@, e as int),
        r.2 == 0 || (e - d@.len() <= r.2 <= e),
{
    proof {
        lemma_lead_zeros(d@);
        assert(d@.skip(0) =~= d@);
    }
    let n = d.len();
    let mut z: usize = 0;
    while z < n && d[z] == 0
        invariant
            z <= n == d@.len(),
            forall|i: int| 0 <= i < z ==> #[trigger] d@[i] == 0,
            lead_zeros(d@.skip(z as int)) + z == lead_zeros(d@),
        decreases n - z,
    {
        proof {
            let t = d@.skip(z as int);
            assert(t[0] == 0);
            assert(t.drop_first() =~= d@.skip(z + 1));
        }
        z += 1;
    }
    proof {
        let t = d@.skip(z as int);
        if z < n {
            assert(t[0] != 0);
        }
        assert(lead_zeros(t) == 0);
    }
    let mut end: usize = n;
    let ghost s = d@.skip(z as int);
    while end > z && d[end - 1] == 0
        invariant
            z <= end <= n == d@.len(),
            s == d@.skip(z as int),
            trim_zeros(s) == trim_zeros(d@.subrange(z as int, end as int)),
        decreases end,
    {
        proof {
            let t = d@.subrange(z as int, end as int);
            assert(t.drop_last() =~= d@.subrange(z as int, end - 1));
        }
        end -= 1;
    }
    proof {
        let t = d@.subrange(z as int, end as int);
        if end > z {
            assert(t.last() == d@[end - 1]);
        }
        assert(trim_zeros(t) == t);
    }
    if end == z {
        return (false, Vec::new(), 0);
    }
    let t = digits_between(d, z, end);
    (negative, t, e - z as i128)
}

/// `0.d * 10^e` rounded to its first `k` digits, ties away from zero, then
/// put in normal form.
fn round_to(negative: bool, d: &[u8], e: i128, k: i128) -> (r: (bool, Vec<u8>, i128))
    requires
        is_digit_seq(d@),
        -0x1_0000_0000_0000_0000_0000_0000 < e < 0x1_0000_0000_0000_0000_0000_0000,
    ensures
        (r.0, r.1@, r.2 as int) == round_parts(negative, d@, e as int, k as int),
        r.2 == 0 || (e - 0x1_0000_0000_0000_0000 <= r.2 <= e + 1),
{
    let n = d.len();
    if k >= n as i128 {
        proof {
            lemma_normalize(negative, d@, e as int);
            lemma_lead_zeros(d@);
        }
        return normalize_digits(negative, d, e);
    }
    if k < 0 {
        let empty: Vec<u8> = Vec::new();
        assert(empty@.skip(0) =~= Seq::<u8>::empty());
        return (false, empty, 0);
    }
    let k = k as usize;
    let kept = digits_between(d, 0, k);
    assert(kept@ =~= d@.take(k as int));
    proof {
        lemma_lead_zeros(kept@);
        lemma_normalize(negative, kept@, e as int);
    }
    if d[k] < 5 {
        return normalize_digits(negative, kept.as_slice(), e);
    }
    let u = add_one_to_integer(kept.as_slice());
    proof {
        lemma_add_one_digits(kept@);
        lemma_lead_zeros(u@);
        lemma_normalize(negative, u@, e - k + u@.len());
    }
    let exponent = e - k as i128 + u.len() as i128;
    normalize_digits(negative, u.as_slice(), exponent)
}

/// `0.d * 10^e` without its digits at `10^m` and above, in normal form.
fn cut_below(negative: bool, d: &[u8], e: i128, m: i128) -> (r: (bool, Vec<u8>, i128))
    requires
        is_digit_seq(d@),
        -0x1_0000_0000_0000_0000_0000_0000 < e < 0x1_0000_0000_0000_0000_0000_0000,
        -0x1_0000_0000_0000_0000_0000_0000 < m < 0x1_0000_0000_0000_0000_0000_0000,
    ensures
        (r.0, r.1@, r.2 as int) == cut_parts(negative, d@, e as int, m as int),
        r.2 == 0 || (e - 0x1_0000_0000_0000_0000 <= r.2 <= e) || (m - 0x1_0000_0000_0000_0000
            <= r.2 <= m),
{
    let n = d.len();
    let j = e - m;
    if j <= 0 {
        normalize_digits(negative, d, e)
    } else if j >= n as i128 {
        let empty: Vec<u8> = Vec::new();
        assert(empty@.skip(0) =~= Seq::<u8>::empty());
        (false, empty, 0)
    } else {
        let low = digits_between(d, j as usize, d.len());
        assert(low@ =~= d@.skip(j as int));
        normalize_digits(negative, low.as_slice(), m)
    }
}

/// A finite value fitted to the constraints, as `constrain_parts` says.
pub fn constrain(
    negative: bool,
    digits: Vec<u8>,
    exponent: i32,
    precision: Option<u32>,
    scale: Option<i32>,
) -> (r: (bool, Vec<u8>, i128))
    requires
        is_normal((negative, digits@, exponent as int)),
    ensures
        (r.0, r.1@, r.2 as int) == constrain_parts(
            (negative, digits@, exponent as int),
            precision,
            scale,
        ),
{
    let e = exponent as i128;
    match scale {
        Some(s) => {
            let r = round_to(negative, digits.as_slice(), e, e + s as i128);
            proof {
                lemma_round_parts(negative, digits@, e as int, e + s);
            }
            match precision {
                Some(p) => {
                    let m: i128 = if p as i128 - s as i128 > 0 {
                        p as i128 - s as i128
                    } else {
                        0
                    };
                    cut_below(r.0, r.1.as_slice(), r.2, m)
                },
                None => r,
            }
        },
        None => match precision {
            Some(p) => {
                let r = cut_below(negative, digits.as_slice(), e, p as i128);
                proof {
                    lemma_cut_parts(negative, digits@, e as int, p as int);
                }
                round_to(r.0, r.1.as_slice(), r.2, p as i128)
            },
            None => {
                proof {
                    crate::truncate::lemma_normalize_normal((negative, digits@, exponent as int));
                }
                (negative, digits, e)
            },
        },
    }
}

/// The value of a text fitted to the constraints: a special value, or a
/// finite value in normal form, or the error on which reading stops
/// (`PrecisionOverflow` where the fitted exponent leaves the range).
fn constrained(value: &str, precision: Option<u32>, scale: Option<i32>) -> (res: Result<
    Result<(bool, Vec<u8>, i32), crate::special::Special>,
    DecimalError,
>)
    ensures
        match constrained_value(value@, precision, scale) {
            Ok(Number::Finite(negative, d, e)) => res matches Ok(Ok(r)) && r.0 == negative && r.1@
                == d && r.2 == e && is_normal((negative, d, e)),
            Ok(Number::Special(s)) => res == Ok::<
                Result<(bool, Vec<u8>, i32), crate::special::Special>,
                DecimalError,
            >(Err(s)),
            Err(m) => res matches Err(e) && error_matches(e, m),
        },
{
    if let Some(special) = read_special(value) {
        return Ok(Err(special));
    }
    let (is_negative, digits, exponent) = parse_decimal(value)?;
    proof {
        crate::special::lemma_read_is_not_special(value@);
    }
    let ghost v = (is_negative, digits@, exponent as int);
    let (n, d, e) = constrain(is_negative, digits, exponent, precision, scale);
    proof {
        lemma_constrain_parts(v, precision, scale);
    }
    if d.len() > 0 && (e < MIN_EXPONENT as i128 || e > MAX_EXPONENT as i128) {
        return Err(DecimalError::PrecisionOverflow);
    }
    Ok(Ok((n, d, e as i32)))
}

/// Encodes a decimal string fitted to precision and scale constraints.
pub fn encode_decimal_with_constraints(value: &str, precision: Option<u32>, scale: Option<i32>) -> (res: Result<
    Vec<u8>,
    DecimalError,
>)
    ensures
        crate::encoding::encode_agrees(res, constrained_number(value@, precision, scale)),
{
    match constrained(value, precision, scale)? {
        Ok((negative, digits, exponent)) => Ok(encode_finite(negative, digits.as_slice(), exponent)),
        Err(special) => Ok(special_to_bytes(special)),
    }
}

/// The exec result agrees with the text of a fitted value.
pub open spec fn text_agrees(
    res: Result<String, DecimalError>,
    o: Result<Seq<char>, Option<Seq<char>>>,
) -> bool {
    match o {
        Ok(t) => res matches Ok(r) && r@ == t,
        Err(m) => res matches Err(e) && error_matches(e, m),
    }
}

/// Fits a decimal string to precision and scale constraints, as text.
pub fn truncate_decimal(value: &str, precision: Option<u32>, scale: Option<i32>) -> (res: Result<
    String,
    DecimalError,
>)
    ensures
        text_agrees(res, constrained_text(value@, precision, scale)),
{
    match constrained(value, precision, scale)? {
        Ok((negative, digits, exponent)) => format_decimal(negative, digits.as_slice(), exponent),
        Err(special) => Ok(special_to_string(special)),
    }
}

} // verus!
