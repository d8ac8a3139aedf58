//! The numbers that values in normal form stand for, and the proof that
//! `value_lt` is the order of those numbers.
//!
//! `(negative, d1 ... dn, e)` stands for `±0.d1...dn * 10^e`. Multiplied by a
//! large enough power of ten it is an integer, `scaled`, which lets orders and
//! equalities be stated over integers.
use vstd::arithmetic::mul::{
    lemma_mul_inequality, lemma_mul_is_associative, lemma_mul_is_commutative,
    lemma_mul_strict_inequality, lemma_mul_strictly_positive,
};
use vstd::prelude::*;

use crate::encoding::{is_digit_seq, is_normal, is_significand};
use crate::order::{is_tail_normal, lemma_lex_irreflexive, lex_lt, magnitude_lt, value_lt};
use crate::parse::{is_nonzero, significant_parts};
use crate::text::{
    all_digit_chars, digit_values, first_index, is_digit_char, last_index, lemma_first_index_exists, lemma_last_index_exists,
};

verus! {

/// Ten to the power `k`.
pub open spec fn pow10(k: nat) -> int
    decreases k,
{
    if k == 0 {
        1
    } else {
        10 * pow10((k - 1) as nat)
    }
}

/// The integer whose decimal digits are `d` (most significant first).
pub open spec fn digits_num(d: Seq<u8>) -> int
    decreases d.len(),
{
    if d.len() == 0 {
        0
    } else {
        digits_num(d.drop_last()) * 10 + d.last()
    }
}

/// `k + e - n`: the power of ten that turns the digits into `v * 10^k`.
pub open spec fn scale_exponent(v: (bool, Seq<u8>, int), k: int) -> int {
    k + v.2 - v.1.len()
}

/// `v * 10^k`, an integer where `scale_exponent(v, k) >= 0`.
pub open spec fn scaled(v: (bool, Seq<u8>, int), k: int) -> int {
    let m = digits_num(v.1) * pow10(scale_exponent(v, k) as nat);
    if v.0 {
        -m
    } else {
        m
    }
}

pub proof fn lemma_pow10_positive(k: nat)
    ensures
        pow10(k) >= 1,
    decreases k,
{
    if k > 0 {
        lemma_pow10_positive((k - 1) as nat);
    }
}

pub proof fn lemma_pow10_add(a: nat, b: nat)
    ensures
        pow10(a + b) == pow10(a) * pow10(b),
    decreases a,
{
    if a > 0 {
        lemma_pow10_add((a - 1) as nat, b);
        assert((a + b - 1) as nat == (a - 1) as nat + b);
        lemma_mul_is_associative(10, pow10((a - 1) as nat), pow10(b));
    }
}

pub proof fn lemma_pow10_monotone(a: nat, b: nat)
    requires
        a <= b,
    ensures
        pow10(a) <= pow10(b),
    decreases b,
{
    if a < b {
        lemma_pow10_monotone(a, (b - 1) as nat);
        lemma_pow10_positive((b - 1) as nat);
    }
}

/// The leading digit weighs `10^(n-1)`.
pub proof fn lemma_digits_num_front(d: Seq<u8>)
    requires
        d.len() > 0,
    ensures
        digits_num(d) == d[0] * pow10((d.len() - 1) as nat) + digits_num(d.drop_first()),
    decreases d.len(),
{
    if d.len() == 1 {
        assert(d.drop_last().len() == 0);
        assert(d.drop_first().len() == 0);
        assert(digits_num(d.drop_last()) == 0);
        assert(digits_num(d.drop_first()) == 0);
        assert(digits_num(d) == digits_num(d.drop_last()) * 10 + d.last());
        assert(pow10(0) == 1);
        assert(d.last() == d[0]);
    } else {
        let t = d.drop_last();
        lemma_digits_num_front(t);
        assert(t.drop_first() =~= d.drop_first().drop_last());
        assert(d.drop_first().last() == d.last());
        assert(t[0] == d[0]);
        let p = pow10((t.len() - 1) as nat);
        assert(pow10((d.len() - 1) as nat) == 10 * p);
        assert(digits_num(d) == digits_num(t) * 10 + d.last());
        assert(digits_num(d.drop_first()) == digits_num(d.drop_first().drop_last()) * 10
            + d.drop_first().last());
        assert((t[0] * p + digits_num(t.drop_first())) * 10 == t[0] * (10 * p) + digits_num(
            t.drop_first(),
        ) * 10) by (nonlinear_arith);
    }
}

/// A digit string of length `n` is below `10^n`, and at least `10^(n-1)`
/// where its first digit is not zero.
pub proof fn lemma_digits_num_bounds(d: Seq<u8>)
    requires
        is_digit_seq(d),
    ensures
        0 <= digits_num(d) < pow10(d.len()),
        d.len() > 0 && d[0] != 0 ==> digits_num(d) >= pow10((d.len() - 1) as nat),
    decreases d.len(),
{
    if d.len() > 0 {
        let t = d.drop_last();
        assert(d.last() < 10);
        lemma_digits_num_bounds(t);
        assert(pow10(d.len()) == 10 * pow10(t.len()));
        lemma_digits_num_front(d);
        lemma_digits_num_bounds_front(d);
    }
}

proof fn lemma_digits_num_bounds_front(d: Seq<u8>)
    requires
        is_digit_seq(d),
        d.len() > 0,
    ensures
        d[0] != 0 ==> digits_num(d) >= pow10((d.len() - 1) as nat),
    decreases d.len(),
{
    lemma_digits_num_front(d);
    let t = d.drop_first();
    assert(is_digit_seq(t));
    lemma_digits_num_nonneg(t);
    lemma_pow10_positive((d.len() - 1) as nat);
    if d[0] != 0 {
        lemma_mul_inequality(1, d[0] as int, pow10((d.len() - 1) as nat));
    }
}

proof fn lemma_digits_num_nonneg(d: Seq<u8>)
    requires
        is_digit_seq(d),
    ensures
        digits_num(d) >= 0,
    decreases d.len(),
{
    if d.len() > 0 {
        lemma_digits_num_nonneg(d.drop_last());
    }
}

/// Appending zeros multiplies by a power of ten.
pub proof fn lemma_digits_num_zeros(d: Seq<u8>, t: nat)
    ensures
        digits_num(d + Seq::new(t, |i: int| 0u8)) == digits_num(d) * pow10(t),
    decreases t,
{
    let z = Seq::new(t, |i: int| 0u8);
    if t == 0 {
        assert(d + z =~= d);
    } else {
        let z1 = Seq::new((t - 1) as nat, |i: int| 0u8);
        assert((d + z).drop_last() =~= d + z1);
        lemma_digits_num_zeros(d, (t - 1) as nat);
        lemma_mul_is_associative(digits_num(d), pow10((t - 1) as nat), 10);
        lemma_mul_is_commutative(pow10((t - 1) as nat), 10);
    }
}

/// For digit strings of one length, lexicographic order is numeric order.
proof fn lemma_same_length_order(x: Seq<u8>, y: Seq<u8>)
    requires
        is_digit_seq(x),
        is_digit_seq(y),
        x.len() == y.len(),
        lex_lt(x, y),
    ensures
        digits_num(x) < digits_num(y),
    decreases x.len(),
{
    let n = x.len();
    lemma_digits_num_front(x);
    lemma_digits_num_front(y);
    let p = pow10((n - 1) as nat);
    let xs = x.drop_first();
    let ys = y.drop_first();
    lemma_digits_num_bounds(xs);
    lemma_digits_num_bounds(ys);
    if x[0] < y[0] {
        // x[0] * p + xs < (x[0] + 1) * p <= y[0] * p
        lemma_mul_inequality(x[0] + 1, y[0] as int, p);
        assert((x[0] + 1) * p == x[0] * p + p) by (nonlinear_arith);
    } else {
        assert(x[0] == y[0]);
        lemma_same_length_order(xs, ys);
    }
}

/// Lexicographic order is total.
pub proof fn lemma_lex_total(x: Seq<u8>, y: Seq<u8>)
    ensures
        x == y || lex_lt(x, y) || lex_lt(y, x),
    decreases x.len(),
{
    if x.len() > 0 && y.len() > 0 && x[0] == y[0] {
        lemma_lex_total(x.drop_first(), y.drop_first());
        if x.drop_first() == y.drop_first() {
            assert(x =~= y) by {
                assert forall|i: int| 0 <= i < x.len() implies x[i] == y[i] by {
                    if i > 0 {
                        assert(x[i] == x.drop_first()[i - 1]);
                        assert(y[i] == y.drop_first()[i - 1]);
                    }
                }
            }
        }
    } else if x.len() == 0 && y.len() == 0 {
        assert(x =~= y);
    }
}

/// Zeros appended to length `l`.
pub open spec fn pad(d: Seq<u8>, l: nat) -> Seq<u8> {
    d + Seq::new((l - d.len()) as nat, |i: int| 0u8)
}

/// Padding with zeros keeps the order of digit strings without trailing zeros.
proof fn lemma_pad_order(x: Seq<u8>, y: Seq<u8>, l: nat)
    requires
        is_tail_normal(x),
        is_tail_normal(y),
        x.len() <= l,
        y.len() <= l,
    ensures
        lex_lt(pad(x, l), pad(y, l)) == lex_lt(x, y),
    decreases x.len(),
{
    let px = pad(x, l);
    let py = pad(y, l);
    if x.len() == 0 && y.len() == 0 {
        assert(px =~= py);
        lemma_lex_irreflexive(px);
    } else if x.len() == 0 {
        // y has a nonzero digit: its last one
        lemma_pad_zero_before(y, l);
    } else if y.len() == 0 {
        lemma_pad_zero_before(x, l);
    } else {
        assert(px[0] == x[0] && py[0] == y[0]);
        if x[0] == y[0] {
            let xs = x.drop_first();
            let ys = y.drop_first();
            assert(is_tail_normal(xs) && is_tail_normal(ys)) by {
                assert(xs.len() > 0 ==> xs.last() == x.last());
                assert(ys.len() > 0 ==> ys.last() == y.last());
            }
            lemma_pad_order(xs, ys, (l - 1) as nat);
            assert(px.drop_first() =~= pad(xs, (l - 1) as nat));
            assert(py.drop_first() =~= pad(ys, (l - 1) as nat));
        }
    }
}

/// All zeros comes before a padded string with a nonzero digit.
proof fn lemma_pad_zero_before(y: Seq<u8>, l: nat)
    requires
        is_tail_normal(y),
        y.len() > 0,
        y.len() <= l,
    ensures
        lex_lt(pad(Seq::<u8>::empty(), l), pad(y, l)),
        !lex_lt(pad(y, l), pad(Seq::<u8>::empty(), l)),
    decreases y.len(),
{
    let z = pad(Seq::<u8>::empty(), l);
    let py = pad(y, l);
    assert(z.len() == l && py.len() == l);
    assert(l > 0);
    assert(z[0] == 0);
    if y[0] == 0 {
        let ys = y.drop_first();
        assert(ys.len() > 0) by {
            if ys.len() == 0 {
                assert(y.last() == y[0]);
            }
        }
        assert(is_tail_normal(ys)) by {
            assert(ys.last() == y.last());
        }
        lemma_pad_zero_before(ys, (l - 1) as nat);
        assert(z.drop_first() =~= pad(Seq::<u8>::empty(), (l - 1) as nat));
        assert(py.drop_first() =~= pad(ys, (l - 1) as nat));
    }
}

/// The number of a padded string.
proof fn lemma_pad_num(d: Seq<u8>, l: nat)
    requires
        d.len() <= l,
    ensures
        digits_num(pad(d, l)) == digits_num(d) * pow10((l - d.len()) as nat),
{
    lemma_digits_num_zeros(d, (l - d.len()) as nat);
}

proof fn lemma_pad_digits(d: Seq<u8>, l: nat)
    requires
        is_digit_seq(d),
        d.len() <= l,
    ensures
        is_digit_seq(pad(d, l)),
        pad(d, l).len() == l,
{
    let p = pad(d, l);
    assert forall|i: int| 0 <= i < p.len() implies #[trigger] p[i] < 10 by {
        if i < d.len() {
            assert(p[i] == d[i]);
        }
    }
}

/// `|a| * 10^k` as an integer.
pub open spec fn scaled_magnitude(v: (bool, Seq<u8>, int), k: int) -> int {
    digits_num(v.1) * pow10(scale_exponent(v, k) as nat)
}

/// For nonzero values, `magnitude_lt` is the order of the magnitudes.
proof fn lemma_magnitude_order(a: (bool, Seq<u8>, int), b: (bool, Seq<u8>, int), k: int)
    requires
        is_significand(a.1),
        is_significand(b.1),
        scale_exponent(a, k) >= 0,
        scale_exponent(b, k) >= 0,
    ensures
        magnitude_lt(a, b) ==> scaled_magnitude(a, k) < scaled_magnitude(b, k),
{
    let na = a.1.len();
    let nb = b.1.len();
    let xa = scale_exponent(a, k) as nat;
    let xb = scale_exponent(b, k) as nat;
    lemma_digits_num_bounds(a.1);
    lemma_digits_num_bounds(b.1);
    lemma_pow10_positive(xa);
    lemma_pow10_positive(xb);
    if a.2 < b.2 {
        // |a| 10^k < 10^(na + xa) = 10^(k + ea) <= 10^(k + eb - 1) = 10^(nb - 1 + xb) <= |b| 10^k
        lemma_mul_strict_inequality(digits_num(a.1), pow10(na), pow10(xa));
        lemma_pow10_add(na, xa);
        lemma_pow10_add((nb - 1) as nat, xb);
        lemma_pow10_monotone(na + xa, (nb - 1) as nat + xb);
        lemma_mul_inequality(pow10((nb - 1) as nat), digits_num(b.1), pow10(xb));
    } else if a.2 == b.2 && lex_lt(a.1, b.1) {
        let l: nat = if na >= nb {
            na
        } else {
            nb
        };
        let c = (k + a.2 - l) as nat;
        lemma_pad_order(a.1, b.1, l);
        lemma_pad_digits(a.1, l);
        lemma_pad_digits(b.1, l);
        lemma_same_length_order(pad(a.1, l), pad(b.1, l));
        lemma_pad_num(a.1, l);
        lemma_pad_num(b.1, l);
        lemma_pow10_add((l - na) as nat, c);
        lemma_pow10_add((l - nb) as nat, c);
        assert(xa == (l - na) as nat + c);
        assert(xb == (l - nb) as nat + c);
        lemma_pow10_positive(c);
        lemma_mul_is_associative(digits_num(a.1), pow10((l - na) as nat), pow10(c));
        lemma_mul_is_associative(digits_num(b.1), pow10((l - nb) as nat), pow10(c));
        lemma_mul_strict_inequality(digits_num(pad(a.1, l)), digits_num(pad(b.1, l)), pow10(c));
    }
}

/// The magnitude of a nonzero value is positive.
proof fn lemma_scaled_magnitude_positive(v: (bool, Seq<u8>, int), k: int)
    requires
        is_significand(v.1),
        scale_exponent(v, k) >= 0,
    ensures
        scaled_magnitude(v, k) > 0,
{
    lemma_digits_num_bounds(v.1);
    lemma_pow10_positive((v.1.len() - 1) as nat);
    lemma_pow10_positive(scale_exponent(v, k) as nat);
    lemma_mul_strictly_positive(digits_num(v.1), pow10(scale_exponent(v, k) as nat));
}

/// `value_lt` is numeric order: for values in normal form and any `k` that
/// makes `a * 10^k` and `b * 10^k` integers, `a < b` exactly when
/// `a * 10^k < b * 10^k`.
pub proof fn lemma_value_order_is_numeric(a: (bool, Seq<u8>, int), b: (bool, Seq<u8>, int), k: int)
    requires
        is_normal(a),
        is_normal(b),
        scale_exponent(a, k) >= 0,
        scale_exponent(b, k) >= 0,
    ensures
        value_lt(a, b) == (scaled(a, k) < scaled(b, k)),
{
    if a.1.len() > 0 {
        lemma_scaled_magnitude_positive(a, k);
    } else {
        assert(digits_num(a.1) == 0);
    }
    if b.1.len() > 0 {
        lemma_scaled_magnitude_positive(b, k);
    } else {
        assert(digits_num(b.1) == 0);
    }
    if a.1.len() > 0 && b.1.len() > 0 {
        lemma_magnitude_order(a, b, k);
        lemma_magnitude_order(b, a, k);
        // exactly one of the three holds between the magnitudes
        lemma_lex_total(a.1, b.1);
        if a.2 == b.2 && a.1 == b.1 {
            lemma_lex_irreflexive(a.1);
        }
    }
}


/// Leading zeros add nothing.
proof fn lemma_digits_num_leading_zeros(f: nat, x: Seq<u8>)
    ensures
        digits_num(Seq::new(f, |i: int| 0u8) + x) == digits_num(x),
    decreases f,
{
    let z = Seq::new(f, |i: int| 0u8);
    if f == 0 {
        assert(z + x =~= x);
    } else {
        let y = z + x;
        lemma_digits_num_front(y);
        let z1 = Seq::new((f - 1) as nat, |i: int| 0u8);
        assert(y.drop_first() =~= z1 + x);
        lemma_digits_num_leading_zeros((f - 1) as nat, x);
        assert(y[0] == 0);
        let p = pow10((y.len() - 1) as nat);
        assert(y[0] * p == 0) by (nonlinear_arith)
            requires
                y[0] == 0,
        ;
    }
}

/// The number written by digit text.
pub open spec fn text_num(t: Seq<char>) -> int {
    digits_num(digit_values(t))
}

/// The digits and exponent that `ip.fp * 10^offset` reads as stand for the
/// same number: `v * 10^k == ±(ip fp as an integer) * 10^(k + offset - |fp|)`.
pub proof fn lemma_significant_value(
    negative: bool,
    ip: Seq<char>,
    fp: Seq<char>,
    offset: int,
    k: int,
)
    requires
        all_digit_chars(ip),
        all_digit_chars(fp),
        significant_parts(negative, ip, fp, offset) is Ok,
        scale_exponent(significant_parts(negative, ip, fp, offset)->Ok_0, k) >= 0,
        k + offset - fp.len() >= 0,
    ensures
        ({
            let v = significant_parts(negative, ip, fp, offset)->Ok_0;
            let w = text_num(ip + fp) * pow10((k + offset - fp.len()) as nat);
            scaled(v, k) == (if negative {
                -w
            } else {
                w
            })
        }),
{
    let v = significant_parts(negative, ip, fp, offset)->Ok_0;
    let q = (k + offset - fp.len()) as nat;
    if ip.len() == 0 && fp.len() == 0 {
        assert(digit_values(ip + fp).len() == 0);
        assert(digits_num(v.1) == 0);
        assert(text_num(ip + fp) == 0);
        assert(0 * pow10(q) == 0);
        assert(0 * pow10(scale_exponent(v, k) as nat) == 0);
    } else {
        let ip2 = if ip.len() == 0 {
            seq!['0']
        } else {
            ip
        };
        let c = ip2 + fp;
        let cv = digit_values(c);
        assert(all_digit_chars(c)) by {
            assert forall|i: int| 0 <= i < c.len() implies is_digit_char(#[trigger] c[i]) by {
                if i < ip2.len() {
                    assert(c[i] == ip2[i]);
                } else {
                    assert(c[i] == fp[i - ip2.len()]);
                }
            }
        }
        // the leading '0' added to an empty integer part changes nothing
        assert(text_num(c) == text_num(ip + fp)) by {
            if ip.len() == 0 {
                assert(digit_values(c) =~= Seq::new(1, |i: int| 0u8) + digit_values(ip + fp));
                lemma_digits_num_leading_zeros(1, digit_values(ip + fp));
            } else {
                assert(c =~= ip + fp);
            }
        }
        lemma_first_index_exists(c, is_nonzero());
        lemma_last_index_exists(c, is_nonzero());
        let f = first_index(c, is_nonzero());
        let l = last_index(c, is_nonzero());
        if f == c.len() {
            assert(cv =~= Seq::<u8>::empty() + Seq::new(c.len(), |i: int| 0u8)) by {
                assert forall|i: int| 0 <= i < c.len() implies cv[i] == 0u8 by {
                    assert(!is_nonzero()(c[i]));
                }
            }
            lemma_digits_num_zeros(Seq::<u8>::empty(), c.len());
            assert(digits_num(Seq::<u8>::empty()) == 0);
            assert(Seq::<u8>::empty() + Seq::new(c.len(), |i: int| 0u8) =~= Seq::new(c.len(), |i: int| 0u8));
            assert(0 * pow10(c.len()) == 0);
            assert(digits_num(v.1) == 0);
            assert(text_num(ip + fp) == 0);
            assert(0 * pow10(q) == 0);
            assert(0 * pow10(scale_exponent(v, k) as nat) == 0);
        } else {
            assert(c[f] != '0');
            assert(l >= f) by {
                if l < f {
                    assert(!is_nonzero()(c[f]));
                }
            }
            let d = v.1;
            let n = d.len();
            let t = (c.len() - l - 1) as nat;
            assert(d == digit_values(c.subrange(f, l + 1)));
            assert(cv =~= Seq::new(f as nat, |i: int| 0u8) + (d + Seq::new(t, |i: int| 0u8))) by {
                assert forall|i: int| 0 <= i < c.len() implies cv[i] == (Seq::new(
                    f as nat,
                    |i: int| 0u8,
                ) + (d + Seq::new(t, |i: int| 0u8)))[i] by {
                    if i < f {
                        assert(!is_nonzero()(c[i]));
                    } else if i > l {
                        assert(!is_nonzero()(c[i]));
                    }
                }
            }
            lemma_digits_num_leading_zeros(f as nat, d + Seq::new(t, |i: int| 0u8));
            lemma_digits_num_zeros(d, t);
            // the exponents agree: k + e - n == t + q
            assert(scale_exponent(v, k) == t + q);
            lemma_pow10_add(t, q);
            lemma_mul_is_associative(digits_num(d), pow10(t), pow10(q));
            assert(digits_num(cv) == digits_num(d) * pow10(t));
            assert(text_num(c) == digits_num(cv));
            assert(scaled_magnitude(v, k) == digits_num(d) * pow10(t + q));
        }
    }
}

} // verus!
