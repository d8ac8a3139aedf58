//! Reading the plain notation of a value gives the value back.
use vstd::prelude::*;

use crate::encoding::{is_digit_seq, is_normal, is_significand};
use crate::format::{format_parts, zeros};
use crate::integer::lemma_digit_char;
use crate::text::{char_digit, digit_char};
use crate::parse::{
    ends_mantissa, fraction_text, has_two_points, integer_text, is_mantissa_char, is_nonzero,
    is_point, read_decimal, significant_parts, split_sign,
};
use crate::text::{
    all_digit_chars, digit_text, digit_values, is_digit_char,
    is_first, is_last, is_white_space, lemma_first_index, lemma_last_index, lemma_trim_end,
    lemma_trim_start, trim,
};

verus! {

/// Digit text holds digits, and reads back as the digit values.
pub proof fn lemma_digit_text(d: Seq<u8>)
    requires
        is_digit_seq(d),
    ensures
        all_digit_chars(digit_text(d)),
        digit_values(digit_text(d)) == d,
        digit_text(d).len() == d.len(),
        forall|i: int| 0 <= i < d.len() ==> (#[trigger] digit_text(d)[i] == '0') == (d[i] == 0),
{
    let t = digit_text(d);
    assert forall|i: int| 0 <= i < t.len() implies is_digit_char(#[trigger] t[i]) by {
        lemma_digit_char(d[i]);
    }
    assert forall|i: int| 0 <= i < d.len() implies (#[trigger] digit_text(d)[i] == '0') == (d[i]
        == 0) by {
        lemma_digit_char(d[i]);
    }
    assert forall|i: int| 0 <= i < d.len() implies digit_values(t)[i] == d[i] by {
        lemma_digit_char(d[i]);
    }
    assert(digit_values(t) =~= d);
}

/// A text made of a sign and a body of digits and at most one point, with no
/// whitespace at either end, reads as its digits with no exponent.
proof fn lemma_read_plain(negative: bool, body: Seq<char>)
    requires
        body.len() > 0,
        forall|i: int| 0 <= i < body.len() ==> is_mantissa_char(#[trigger] body[i]),
        !has_two_points(body),
        is_digit_char(body.last()),
        negative || is_digit_char(body[0]),
    ensures
        read_decimal(if negative {
            seq!['-'] + body
        } else {
            body
        }) == significant_parts(negative, integer_text(body), fraction_text(body), 0),
{
    let s = if negative {
        seq!['-'] + body
    } else {
        body
    };
    assert(!is_white_space(s[0]));
    assert(s.last() == body.last());
    lemma_trim_start(s, 0);
    assert(s.skip(0) =~= s);
    lemma_trim_end(s, s.len() as int);
    assert(s.take(s.len() as int) =~= s);
    assert(trim(s) == s);
    if negative {
        assert(s.drop_first() =~= body);
    }
    assert(split_sign(s) == (negative, body));
    assert(is_first(body, ends_mantissa(), body.len() as int));
    lemma_first_index(body, ends_mantissa(), body.len() as int);
    assert(body.take(body.len() as int) =~= body);
}

/// Where the point stands in a body, or the body holds none.
proof fn lemma_point_at(body: Seq<char>, p: int)
    requires
        0 <= p <= body.len(),
        forall|i: int| 0 <= i < body.len() && i != p ==> #[trigger] body[i] != '.',
        p < body.len() ==> body[p] == '.',
    ensures
        !has_two_points(body),
        integer_text(body) == body.take(p),
        fraction_text(body) == (if p < body.len() {
            body.skip(p + 1)
        } else {
            Seq::<char>::empty()
        }),
{
    assert(is_first(body, is_point(), p));
    lemma_first_index(body, is_point(), p);
    if has_two_points(body) {
        let (x, y) = choose|x: int, y: int|
            0 <= x < y < body.len() && #[trigger] body[x] == '.' && #[trigger] body[y] == '.';
        assert(x == p && y == p);
    }
}

/// The significant digits of a digit text `c` whose nonzero digits run from
/// position `f` to position `l`.
proof fn lemma_significant_run(
    negative: bool,
    ip: Seq<char>,
    fp: Seq<char>,
    d: Seq<u8>,
    f: int,
    e: int,
)
    requires
        ip.len() > 0,
        is_significand(d),
        crate::encoding::exponent_in_range(e),
        0 <= f,
        f + d.len() <= ip.len() + fp.len(),
        (ip + fp).subrange(f, f + d.len()) == digit_text(d),
        forall|i: int| 0 <= i < f ==> #[trigger] (ip + fp)[i] == '0',
        forall|i: int| f + d.len() <= i < ip.len() + fp.len() ==> #[trigger] (ip + fp)[i] == '0',
        e == ip.len() - f,
    ensures
        significant_parts(negative, ip, fp, 0) == Ok::<(bool, Seq<u8>, int), Option<Seq<char>>>(
            (negative, d, e),
        ),
{
    let c = ip + fp;
    lemma_digit_text(d);
    let n = d.len() as int;
    assert(c[f] == digit_text(d)[0]);
    assert(c[f + n - 1] == digit_text(d)[n - 1]);
    assert(is_first(c, is_nonzero(), f));
    lemma_first_index(c, is_nonzero(), f);
    assert(is_last(c, is_nonzero(), f + n - 1));
    lemma_last_index(c, is_nonzero(), f + n - 1);
    assert(c.subrange(f, f + n) == digit_text(d));
}

proof fn lemma_read_format_zero()
    ensures
        read_decimal(format_parts(false, Seq::<u8>::empty(), 0)) == Ok::<
            (bool, Seq<u8>, int),
            Option<Seq<char>>,
        >((false, Seq::<u8>::empty(), 0)),
{
    let body = seq!['0'];
    assert(format_parts(false, Seq::<u8>::empty(), 0) == body);
    lemma_read_plain(false, body);
    lemma_point_at(body, 1);
    assert(body.take(1) =~= body);
    assert(is_first(body, is_nonzero(), 1));
    lemma_first_index(body, is_nonzero(), 1);
    assert(body + Seq::<char>::empty() =~= body);
}

proof fn lemma_read_format_integer(negative: bool, d: Seq<u8>, e: int)
    requires
        is_significand(d),
        crate::encoding::exponent_in_range(e),
        e >= d.len(),
    ensures
        read_decimal(format_parts(negative, d, e)) == Ok::<(bool, Seq<u8>, int), Option<Seq<char>>>(
            (negative, d, e),
        ),
{
    let n = d.len() as int;
    let dt = digit_text(d);
    lemma_digit_text(d);
    let sign = if negative {
        seq!['-']
    } else {
        Seq::<char>::empty()
    };
    let body = dt + zeros(e - n);
    assert(format_parts(negative, d, e) == sign + body);
    assert forall|i: int| 0 <= i < body.len() implies is_digit_char(#[trigger] body[i]) by {
        if i < n {
            assert(body[i] == dt[i]);
        }
    }
    assert(body[0] == dt[0]);
    lemma_read_plain(negative, body);
    lemma_point_at(body, body.len() as int);
    assert(body.take(body.len() as int) =~= body);
    assert(body + Seq::<char>::empty() =~= body);
    assert(body.subrange(0, n) =~= dt);
    lemma_significant_run(negative, body, Seq::<char>::empty(), d, 0, e);
    if !negative {
        assert(sign + body =~= body);
    } else {
        assert(sign + body =~= seq!['-'] + body);
    }
}

proof fn lemma_read_format_fraction(negative: bool, d: Seq<u8>, e: int)
    requires
        is_significand(d),
        crate::encoding::exponent_in_range(e),
        e <= 0,
    ensures
        read_decimal(format_parts(negative, d, e)) == Ok::<(bool, Seq<u8>, int), Option<Seq<char>>>(
            (negative, d, e),
        ),
{
    let n = d.len() as int;
    let dt = digit_text(d);
    lemma_digit_text(d);
    let sign = if negative {
        seq!['-']
    } else {
        Seq::<char>::empty()
    };
    let body = seq!['0', '.'] + zeros(-e) + dt;
    assert(format_parts(negative, d, e) == sign + body);
    assert forall|i: int| 0 <= i < body.len() && i != 1 implies is_digit_char(#[trigger] body[i]) by {
        if i >= 2 - e {
            assert(body[i] == dt[i - (2 - e)]);
        }
    }
    assert(body.last() == dt[n - 1]);
    lemma_read_plain(negative, body);
    lemma_point_at(body, 1);
    let ip = body.take(1);
    let fp = body.skip(2);
    assert(ip =~= seq!['0']);
    assert(ip + fp =~= seq!['0'] + zeros(-e) + dt);
    assert((ip + fp).subrange(1 - e, 1 - e + n) =~= dt);
    lemma_significant_run(negative, ip, fp, d, 1 - e, e);
    if !negative {
        assert(sign + body =~= body);
    } else {
        assert(sign + body =~= seq!['-'] + body);
    }
}

#[verifier::rlimit(40)]
proof fn lemma_read_format_mixed(negative: bool, d: Seq<u8>, e: int)
    requires
        is_significand(d),
        crate::encoding::exponent_in_range(e),
        0 < e < d.len(),
    ensures
        read_decimal(format_parts(negative, d, e)) == Ok::<(bool, Seq<u8>, int), Option<Seq<char>>>(
            (negative, d, e),
        ),
{
    let n = d.len() as int;
    let dt = digit_text(d);
    lemma_digit_text(d);
    let sign = if negative {
        seq!['-']
    } else {
        Seq::<char>::empty()
    };
    let body = digit_text(d.take(e)) + seq!['.'] + digit_text(d.skip(e));
    assert(digit_text(d.take(e)) =~= dt.take(e));
    assert(digit_text(d.skip(e)) =~= dt.skip(e));
    assert(format_parts(negative, d, e) == sign + body);
    assert forall|i: int| 0 <= i < body.len() && i != e implies is_digit_char(#[trigger] body[i]) by {
        if i < e {
            assert(body[i] == dt[i]);
        } else {
            assert(body[i] == dt[i - 1]);
        }
    }
    assert(body[0] == dt[0]);
    assert(body.last() == dt[n - 1]);
    lemma_read_plain(negative, body);
    lemma_point_at(body, e);
    let ip = body.take(e);
    let fp = body.skip(e + 1);
    assert(ip + fp =~= dt);
    assert((ip + fp).subrange(0, n) =~= dt);
    lemma_significant_run(negative, ip, fp, d, 0, e);
    if !negative {
        assert(sign + body =~= body);
    } else {
        assert(sign + body =~= seq!['-'] + body);
    }
}

/// Reading the plain notation of a value in normal form gives the value back.
pub proof fn lemma_read_format(v: (bool, Seq<u8>, int))
    requires
        is_normal(v),
    ensures
        read_decimal(format_parts(v.0, v.1, v.2)) == Ok::<
            (bool, Seq<u8>, int),
            Option<Seq<char>>,
        >(v),
{
    let (negative, d, e) = v;
    if d.len() == 0 {
        assert(d =~= Seq::<u8>::empty());
        lemma_read_format_zero();
    } else if e >= d.len() {
        lemma_read_format_integer(negative, d, e);
    } else if e <= 0 {
        lemma_read_format_fraction(negative, d, e);
    } else {
        lemma_read_format_mixed(negative, d, e);
    }
}

/// A digit character is the character of its value.
proof fn lemma_char_of_value(c: char)
    requires
        is_digit_char(c),
    ensures
        digit_char(char_digit(c) as u8) == c,
{
    let x = char_digit(c) as u8;
    lemma_digit_char(x);
    assert(char_digit(digit_char(x)) == char_digit(c));
    assert((digit_char(x) as int) == (c as int));
}

/// Digit text is the text of its digit values.
pub proof fn lemma_text_of_values(t: Seq<char>)
    requires
        all_digit_chars(t),
    ensures
        digit_text(digit_values(t)) == t,
        is_digit_seq(digit_values(t)),
        forall|i: int| 0 <= i < t.len() ==> (#[trigger] digit_values(t)[i] == 0) == (t[i] == '0'),
{
    assert forall|i: int| 0 <= i < t.len() implies digit_text(digit_values(t))[i] == t[i] by {
        lemma_char_of_value(t[i]);
    }
    assert(digit_text(digit_values(t)) =~= t);
    assert forall|i: int| 0 <= i < t.len() implies #[trigger] digit_values(t)[i] < 10 by {
        assert(is_digit_char(t[i]));
    }
    assert forall|i: int| 0 <= i < t.len() implies (#[trigger] digit_values(t)[i] == 0) == (t[i]
        == '0') by {
        assert(is_digit_char(t[i]));
    }
}

/// The plain text of a sign, integer digits and fraction digits: a `-` for a
/// negative value, the integer digits, and a point before the fraction
/// digits where there are any.
pub open spec fn plain_text(negative: bool, ip: Seq<char>, fp: Seq<char>) -> Seq<char> {
    (if negative {
        seq!['-']
    } else {
        Seq::<char>::empty()
    }) + ip + (if fp.len() > 0 {
        seq!['.'] + fp
    } else {
        Seq::<char>::empty()
    })
}

/// The parts of a canonical text: integer digits with no leading zero (or the
/// single digit `0`), fraction digits with no trailing zero, and no `-` on
/// zero.
pub open spec fn is_canonical(negative: bool, ip: Seq<char>, fp: Seq<char>) -> bool {
    &&& all_digit_chars(ip)
    &&& all_digit_chars(fp)
    &&& ip.len() > 0
    &&& (ip[0] != '0' || ip.len() == 1)
    &&& (fp.len() == 0 || fp.last() != '0')
    &&& (negative ==> !(ip[0] == '0' && fp.len() == 0))
}

/// The exponent of a nonzero canonical text: the number of integer digits,
/// or minus the number of zeros that open the fraction of `0.`.
pub open spec fn canonical_exponent(ip: Seq<char>, fp: Seq<char>) -> int {
    if ip[0] != '0' {
        ip.len() as int
    } else {
        -crate::text::first_index(fp, is_nonzero())
    }
}

/// The plain notation of the value of a canonical text with integer digits
/// and no fraction.
proof fn lemma_canonical_integer(negative: bool, ip: Seq<char>) -> (v: (bool, Seq<u8>, int))
    requires
        is_canonical(negative, ip, Seq::<char>::empty()),
        ip[0] != '0',
        crate::encoding::exponent_in_range(ip.len() as int),
    ensures
        is_normal(v),
        format_parts(v.0, v.1, v.2) == plain_text(negative, ip, Seq::<char>::empty()),
{
    let s = plain_text(negative, ip, Seq::<char>::empty());
    let sign = if negative {
        seq!['-']
    } else {
        Seq::<char>::empty()
    };
    let e = ip.len() as int;
    let w = digit_values(ip);
    lemma_text_of_values(ip);
    crate::truncate::lemma_trim_zeros(w);
    let d = crate::truncate::trim_zeros(w);
    let n = d.len() as int;
    assert(n >= 1) by {
        if n == 0 {
            assert(w[0] == 0);
        }
    }
    assert(d[0] == w[0]);
    assert(is_significand(d));
    assert(digit_text(d) =~= ip.take(n)) by {
        assert forall|i: int| 0 <= i < n implies digit_text(d)[i] == ip[i] by {
            assert(digit_text(w)[i] == ip[i]);
        }
    }
    assert(zeros(e - n) =~= ip.skip(n)) by {
        assert forall|i: int| 0 <= i < e - n implies zeros(e - n)[i] == ip.skip(n)[i] by {
            assert(w[n + i] == 0);
        }
    }
    assert(ip.take(n) + ip.skip(n) =~= ip);
    assert(s =~= sign + ip);
    assert(format_parts(negative, d, e) =~= s);
    (negative, d, e)
}

/// The plain notation of the value of a canonical text with integer digits
/// and a fraction.
proof fn lemma_canonical_mixed(negative: bool, ip: Seq<char>, fp: Seq<char>) -> (v: (
    bool,
    Seq<u8>,
    int,
))
    requires
        is_canonical(negative, ip, fp),
        ip[0] != '0',
        fp.len() > 0,
        crate::encoding::exponent_in_range(ip.len() as int),
    ensures
        is_normal(v),
        format_parts(v.0, v.1, v.2) == plain_text(negative, ip, fp),
{
    let s = plain_text(negative, ip, fp);
    let sign = if negative {
        seq!['-']
    } else {
        Seq::<char>::empty()
    };
    let e = ip.len() as int;
    let c = ip + fp;
    assert(all_digit_chars(c)) by {
        assert forall|i: int| 0 <= i < c.len() implies is_digit_char(#[trigger] c[i]) by {
            if i < ip.len() {
                assert(c[i] == ip[i]);
            } else {
                assert(c[i] == fp[i - ip.len()]);
            }
        }
    }
    let d = digit_values(c);
    lemma_text_of_values(c);
    assert(c[0] == ip[0]);
    assert(c.last() == fp.last());
    assert(is_significand(d));
    assert(digit_text(d.take(e)) =~= digit_text(d).take(e));
    assert(digit_text(d.skip(e)) =~= digit_text(d).skip(e));
    assert(c.take(e) =~= ip);
    assert(c.skip(e) =~= fp);
    assert(s =~= sign + ip + seq!['.'] + fp);
    assert(format_parts(negative, d, e) =~= s);
    (negative, d, e)
}

/// The plain notation of the value of a canonical text `0.` and a fraction.
proof fn lemma_canonical_fraction(negative: bool, fp: Seq<char>) -> (v: (bool, Seq<u8>, int))
    requires
        is_canonical(negative, seq!['0'], fp),
        fp.len() > 0,
        crate::encoding::exponent_in_range(canonical_exponent(seq!['0'], fp)),
    ensures
        is_normal(v),
        format_parts(v.0, v.1, v.2) == plain_text(negative, seq!['0'], fp),
{
    let s = plain_text(negative, seq!['0'], fp);
    let sign = if negative {
        seq!['-']
    } else {
        Seq::<char>::empty()
    };
    crate::text::lemma_first_index_exists(fp, is_nonzero());
    let z = crate::text::first_index(fp, is_nonzero());
    assert(z < fp.len()) by {
        if z >= fp.len() {
            assert(!is_nonzero()(fp[fp.len() - 1]));
        }
    }
    let r = fp.skip(z);
    assert(all_digit_chars(r)) by {
        assert forall|i: int| 0 <= i < r.len() implies is_digit_char(#[trigger] r[i]) by {
            assert(r[i] == fp[z + i]);
        }
    }
    let d = digit_values(r);
    lemma_text_of_values(r);
    assert(r[0] == fp[z]);
    assert(fp[z] != '0');
    assert(r.last() == fp.last());
    assert(is_significand(d));
    let e = -z;
    assert(zeros(z) =~= fp.take(z)) by {
        assert forall|i: int| 0 <= i < z implies zeros(z)[i] == fp.take(z)[i] by {
            assert(!is_nonzero()(fp[i]));
        }
    }
    assert(fp.take(z) + r =~= fp);
    assert(s =~= sign + seq!['0', '.'] + fp);
    assert(format_parts(negative, d, e) =~= s);
    (negative, d, e)
}

/// A canonical text is the plain notation of the value it reads as, where
/// its exponent is in range: formatting gives it back letter for letter.
pub proof fn lemma_canonical_text(negative: bool, ip: Seq<char>, fp: Seq<char>)
    requires
        is_canonical(negative, ip, fp),
        (ip[0] == '0' && fp.len() == 0) || crate::encoding::exponent_in_range(
            canonical_exponent(ip, fp),
        ),
    ensures
        read_decimal(plain_text(negative, ip, fp)) is Ok,
        ({
            let v = read_decimal(plain_text(negative, ip, fp))->Ok_0;
            &&& is_normal(v)
            &&& format_parts(v.0, v.1, v.2) == plain_text(negative, ip, fp)
        }),
{
    let s = plain_text(negative, ip, fp);
    if ip[0] == '0' && fp.len() == 0 {
        assert(ip =~= seq!['0']);
        assert(s =~= seq!['0']);
        let v = (false, Seq::<u8>::empty(), 0int);
        assert(format_parts(v.0, v.1, v.2) == s);
        lemma_read_format(v);
    } else if ip[0] != '0' {
        let v = if fp.len() == 0 {
            assert(fp =~= Seq::<char>::empty());
            lemma_canonical_integer(negative, ip)
        } else {
            lemma_canonical_mixed(negative, ip, fp)
        };
        lemma_read_format(v);
    } else {
        assert(ip =~= seq!['0']);
        let v = lemma_canonical_fraction(negative, fp);
        lemma_read_format(v);
    }
}

} // verus!
