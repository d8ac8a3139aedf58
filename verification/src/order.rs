//! Lexicographic order of byte strings, and how the encoding follows the order
//! of values.
use vstd::prelude::*;

use crate::special::{special_bytes, Special};
use crate::encoding::{
    complement, encode_number, is_valid, Number, encode_value, exponent_bytes, exponent_in_range, invert, is_digit_seq, is_normal,
    lemma_unpack_pack, mantissa_bytes, pack_digits, packed_byte, plain_exponent_bytes, sign_byte,
    two_bytes, ESCAPE_FIELD, EXPONENT_BIAS, LAST_INLINE_EXPONENT, NEGATIVE_TERMINATOR,
    SIGN_NEGATIVE, SIGN_POSITIVE, SIGN_ZERO,
};

verus! {

/// Lexicographic order, as `Ord` orders `[u8]` and `Vec<u8>`: the first
/// differing byte decides, and a proper prefix comes first.
pub open spec fn lex_lt(a: Seq<u8>, b: Seq<u8>) -> bool
    decreases a.len(),
{
    if a.len() == 0 {
        b.len() > 0
    } else if b.len() == 0 {
        false
    } else if a[0] != b[0] {
        a[0] < b[0]
    } else {
        lex_lt(a.drop_first(), b.drop_first())
    }
}

/// The rank of a value's sign: negative, zero, positive.
pub open spec fn sign_rank(v: (bool, Seq<u8>, int)) -> int {
    if v.1.len() == 0 {
        1
    } else if v.0 {
        0
    } else {
        2
    }
}

/// `|a| < |b|` for nonzero values in normal form: `0.d * 10^e` grows with the
/// exponent, and for one exponent with the digits read as a fraction.
pub open spec fn magnitude_lt(a: (bool, Seq<u8>, int), b: (bool, Seq<u8>, int)) -> bool {
    a.2 < b.2 || (a.2 == b.2 && lex_lt(a.1, b.1))
}

/// `a < b` for values in normal form.
pub open spec fn value_lt(a: (bool, Seq<u8>, int), b: (bool, Seq<u8>, int)) -> bool {
    if sign_rank(a) != sign_rank(b) {
        sign_rank(a) < sign_rank(b)
    } else if sign_rank(a) == 1 {
        false
    } else if sign_rank(a) == 2 {
        magnitude_lt(a, b)
    } else {
        magnitude_lt(b, a)
    }
}

// ---------------------------------------------------------------------------
// Facts about lex_lt
// ---------------------------------------------------------------------------

pub proof fn lemma_lex_irreflexive(a: Seq<u8>)
    ensures
        !lex_lt(a, a),
    decreases a.len(),
{
    if a.len() > 0 {
        lemma_lex_irreflexive(a.drop_first());
    }
}

/// No two strings sort before each other.
pub proof fn lemma_lex_asymmetric(a: Seq<u8>, b: Seq<u8>)
    ensures
        !(lex_lt(a, b) && lex_lt(b, a)),
    decreases a.len(),
{
    if a.len() > 0 && b.len() > 0 && a[0] == b[0] {
        lemma_lex_asymmetric(a.drop_first(), b.drop_first());
    }
}

/// A common prefix does not change the order.
pub proof fn lemma_lex_common_prefix(p: Seq<u8>, a: Seq<u8>, b: Seq<u8>)
    ensures
        lex_lt(p + a, p + b) == lex_lt(a, b),
    decreases p.len(),
{
    if p.len() > 0 {
        assert((p + a).drop_first() =~= p.drop_first() + a);
        assert((p + b).drop_first() =~= p.drop_first() + b);
        lemma_lex_common_prefix(p.drop_first(), a, b);
    } else {
        assert(p + a =~= a);
        assert(p + b =~= b);
    }
}

/// Different first bytes decide.
pub proof fn lemma_lex_first(x: u8, y: u8, a: Seq<u8>, b: Seq<u8>)
    ensures
        lex_lt(seq![x] + a, seq![y] + b) == (x < y || (x == y && lex_lt(a, b))),
{
    assert((seq![x] + a).drop_first() =~= a);
    assert((seq![y] + b).drop_first() =~= b);
}

/// Different prefixes of one length decide.
pub proof fn lemma_lex_same_length_prefix(p: Seq<u8>, q: Seq<u8>, a: Seq<u8>, b: Seq<u8>)
    requires
        p.len() == q.len(),
        p != q,
    ensures
        lex_lt(p + a, q + b) == lex_lt(p, q),
    decreases p.len(),
{
    assert(p.len() > 0) by {
        if p.len() == 0 {
            assert(p =~= q);
        }
    }
    assert((p + a).drop_first() =~= p.drop_first() + a);
    assert((q + b).drop_first() =~= q.drop_first() + b);
    assert((p + a)[0] == p[0] && (q + b)[0] == q[0]);
    if p[0] == q[0] {
        assert(p.drop_first() != q.drop_first()) by {
            if p.drop_first() =~= q.drop_first() {
                assert forall|i: int| 0 <= i < p.len() implies p[i] == q[i] by {
                    if i > 0 {
                        assert(p[i] == p.drop_first()[i - 1]);
                        assert(q[i] == q.drop_first()[i - 1]);
                    }
                }
                assert(p =~= q);
            }
        }
        lemma_lex_same_length_prefix(p.drop_first(), q.drop_first(), a, b);
    }
}

/// Inverting every byte reverses the order of two strings where neither is
/// a prefix of the other.
pub proof fn lemma_lex_invert(a: Seq<u8>, b: Seq<u8>)
    requires
        !a.is_prefix_of(b),
        !b.is_prefix_of(a),
    ensures
        lex_lt(invert(a), invert(b)) == lex_lt(b, a),
    decreases a.len(),
{
    assert(a.len() > 0) by {
        if a.len() == 0 {
            assert(a.is_prefix_of(b));
        }
    }
    assert(b.len() > 0) by {
        if b.len() == 0 {
            assert(b.is_prefix_of(a));
        }
    }
    assert(invert(a).drop_first() =~= invert(a.drop_first()));
    assert(invert(b).drop_first() =~= invert(b.drop_first()));
    if a[0] == b[0] {
        assert(!a.drop_first().is_prefix_of(b.drop_first())) by {
            if a.drop_first().is_prefix_of(b.drop_first()) {
                assert forall|i: int| 0 <= i < a.len() implies a[i] == b[i] by {
                    if i > 0 {
                        assert(a[i] == a.drop_first()[i - 1]);
                        assert(b[i] == b.drop_first()[i - 1]);
                    }
                }
            }
        }
        assert(!b.drop_first().is_prefix_of(a.drop_first())) by {
            if b.drop_first().is_prefix_of(a.drop_first()) {
                assert forall|i: int| 0 <= i < b.len() implies b[i] == a[i] by {
                    if i > 0 {
                        assert(a[i] == a.drop_first()[i - 1]);
                        assert(b[i] == b.drop_first()[i - 1]);
                    }
                }
            }
        }
        lemma_lex_invert(a.drop_first(), b.drop_first());
    }
}

// ---------------------------------------------------------------------------
// Packed digits keep the order of the digits
// ---------------------------------------------------------------------------

/// Digits without a trailing zero.
pub open spec fn is_tail_normal(d: Seq<u8>) -> bool {
    is_digit_seq(d) && (d.len() == 0 || d.last() != 0)
}

proof fn lemma_pack_split(d: Seq<u8>)
    requires
        d.len() > 0,
    ensures
        d.len() >= 2 ==> pack_digits(d) == seq![packed_byte(d, 0)] + pack_digits(d.skip(2)),
        d.len() == 1 ==> pack_digits(d) == seq![packed_byte(d, 0)],
{
    if d.len() >= 2 {
        let t = d.skip(2);
        assert forall|i: int| 0 <= i < pack_digits(t).len() implies pack_digits(t)[i]
            == packed_byte(d, i + 1) by {
            assert(t[2 * i] == d[2 * (i + 1)]);
            if 2 * i + 1 < t.len() {
                assert(t[2 * i + 1] == d[2 * (i + 1) + 1]);
            }
        }
        assert(pack_digits(d) =~= seq![packed_byte(d, 0)] + pack_digits(t));
    } else {
        assert(pack_digits(d) =~= seq![packed_byte(d, 0)]);
    }
}

proof fn lemma_packed_byte_order(h1: u8, l1: u8, h2: u8, l2: u8)
    requires
        h1 < 10,
        l1 < 10,
        h2 < 10,
        l2 < 10,
    ensures
        ((h1 * 16 + l1) as u8 == (h2 * 16 + l2) as u8) == (h1 == h2 && l1 == l2),
        (((h1 * 16 + l1) as u8) < ((h2 * 16 + l2) as u8)) == (h1 < h2 || (h1 == h2 && l1 < l2)),
{
}

/// Packing keeps the lexicographic order of digit strings without trailing zeros.
pub proof fn lemma_pack_order(x: Seq<u8>, y: Seq<u8>)
    requires
        is_tail_normal(x),
        is_tail_normal(y),
    ensures
        lex_lt(pack_digits(x), pack_digits(y)) == lex_lt(x, y),
    decreases x.len() + y.len(),
{
    if x.len() == 0 {
        assert(pack_digits(x).len() == 0);
    } else if y.len() == 0 {
        assert(pack_digits(y).len() == 0);
    } else {
        lemma_pack_split(x);
        lemma_pack_split(y);
        let x1: u8 = if x.len() >= 2 {
            x[1]
        } else {
            0
        };
        let y1: u8 = if y.len() >= 2 {
            y[1]
        } else {
            0
        };
        let px = if x.len() >= 2 {
            pack_digits(x.skip(2))
        } else {
            Seq::<u8>::empty()
        };
        let py = if y.len() >= 2 {
            pack_digits(y.skip(2))
        } else {
            Seq::<u8>::empty()
        };
        assert(pack_digits(x) =~= seq![packed_byte(x, 0)] + px);
        assert(pack_digits(y) =~= seq![packed_byte(y, 0)] + py);
        assert(x[0] < 10 && y[0] < 10 && x1 < 10 && y1 < 10);
        lemma_packed_byte_order(x[0], x1, y[0], y1);
        lemma_lex_first(packed_byte(x, 0), packed_byte(y, 0), px, py);
        // lex_lt(x, y) unfolded over the first two digits
        let xs = x.drop_first();
        let ys = y.drop_first();
        if x[0] == y[0] {
            assert(lex_lt(x, y) == lex_lt(xs, ys));
            if x.len() >= 2 && y.len() >= 2 {
                assert(xs.drop_first() =~= x.skip(2));
                assert(ys.drop_first() =~= y.skip(2));
                assert(xs[0] == x1 && ys[0] == y1);
                assert(lex_lt(xs, ys) == (if x1 != y1 {
                    x1 < y1
                } else {
                    lex_lt(xs.drop_first(), ys.drop_first())
                }));
                if x1 == y1 {
                    assert(is_tail_normal(x.skip(2)));
                    assert(is_tail_normal(y.skip(2)));
                    lemma_pack_order(x.skip(2), y.skip(2));
                }
            } else if x.len() >= 2 {
                // y is one digit: y1 is padding
                assert(ys.len() == 0);
                if x1 == 0 {
                    assert(x.len() >= 3);
                    assert(px.len() > 0);
                }
            } else if y.len() >= 2 {
                assert(xs.len() == 0);
                assert(lex_lt(xs, ys));
                if y1 == 0 {
                    assert(y.len() >= 3);
                    assert(py.len() > 0);
                }
            } else {
                assert(xs.len() == 0 && ys.len() == 0);
            }
        }
    }
}

// ---------------------------------------------------------------------------
// Strings that part before either ends
// ---------------------------------------------------------------------------

/// Neither string is a prefix of the other: they differ at a position that
/// both have.
pub open spec fn diverge(p: Seq<u8>, q: Seq<u8>) -> bool {
    !p.is_prefix_of(q) && !q.is_prefix_of(p)
}

/// Two different strings of one length diverge.
proof fn lemma_same_length_diverge(p: Seq<u8>, q: Seq<u8>)
    requires
        p.len() == q.len(),
        p != q,
    ensures
        diverge(p, q),
{
    if p.is_prefix_of(q) {
        assert(p =~= q);
    }
    if q.is_prefix_of(p) {
        assert(p =~= q);
    }
}

/// Where two strings diverge, what follows them does not change their order.
pub proof fn lemma_lex_diverge(p: Seq<u8>, q: Seq<u8>, a: Seq<u8>, b: Seq<u8>)
    requires
        diverge(p, q),
    ensures
        lex_lt(p + a, q + b) == lex_lt(p, q),
        diverge(p + a, q + b),
    decreases p.len(),
{
    assert(p.len() > 0) by {
        if p.len() == 0 {
            assert(p.is_prefix_of(q));
        }
    }
    assert(q.len() > 0) by {
        if q.len() == 0 {
            assert(q.is_prefix_of(p));
        }
    }
    assert((p + a).drop_first() =~= p.drop_first() + a);
    assert((q + b).drop_first() =~= q.drop_first() + b);
    assert((p + a)[0] == p[0] && (q + b)[0] == q[0]);
    if p[0] == q[0] {
        assert(!p.drop_first().is_prefix_of(q.drop_first())) by {
            if p.drop_first().is_prefix_of(q.drop_first()) {
                assert forall|i: int| 0 <= i < p.len() implies p[i] == q[i] by {
                    if i > 0 {
                        assert(p[i] == p.drop_first()[i - 1]);
                        assert(q[i] == q.drop_first()[i - 1]);
                    }
                }
            }
        }
        assert(!q.drop_first().is_prefix_of(p.drop_first())) by {
            if q.drop_first().is_prefix_of(p.drop_first()) {
                assert forall|i: int| 0 <= i < q.len() implies q[i] == p[i] by {
                    if i > 0 {
                        assert(p[i] == p.drop_first()[i - 1]);
                        assert(q[i] == q.drop_first()[i - 1]);
                    }
                }
            }
        }
        lemma_lex_diverge(p.drop_first(), q.drop_first(), a, b);
        let pa = p + a;
        let qb = q + b;
        if pa.is_prefix_of(qb) {
            assert forall|i: int| 0 <= i < pa.drop_first().len() implies pa.drop_first()[i]
                == qb.drop_first()[i] by {
                assert(pa[i + 1] == qb[i + 1]);
            }
            assert(pa.drop_first().is_prefix_of(qb.drop_first()));
        }
        if qb.is_prefix_of(pa) {
            assert forall|i: int| 0 <= i < qb.drop_first().len() implies qb.drop_first()[i]
                == pa.drop_first()[i] by {
                assert(pa[i + 1] == qb[i + 1]);
            }
            assert(qb.drop_first().is_prefix_of(pa.drop_first()));
        }
    } else {
        let pa = p + a;
        let qb = q + b;
        assert(!pa.is_prefix_of(qb)) by {
            if pa.is_prefix_of(qb) {
                assert(pa[0] == qb[0]);
            }
        }
        assert(!qb.is_prefix_of(pa)) by {
            if qb.is_prefix_of(pa) {
                assert(pa[0] == qb[0]);
            }
        }
    }
}

/// Inverting every byte keeps two strings diverging.
proof fn lemma_invert_diverge(p: Seq<u8>, q: Seq<u8>)
    requires
        diverge(p, q),
    ensures
        diverge(invert(p), invert(q)),
{
    if invert(p).is_prefix_of(invert(q)) {
        assert forall|i: int| 0 <= i < p.len() implies p[i] == q[i] by {
            assert(invert(p)[i] == invert(q)[i]);
        }
        assert(p.is_prefix_of(q));
    }
    if invert(q).is_prefix_of(invert(p)) {
        assert forall|i: int| 0 <= i < q.len() implies q[i] == p[i] by {
            assert(invert(p)[i] == invert(q)[i]);
        }
        assert(q.is_prefix_of(p));
    }
}

// ---------------------------------------------------------------------------
// Complemented digits with a terminator reverse the order
// ---------------------------------------------------------------------------

/// Every byte is at most 0x99, as packed digits are.
pub open spec fn bytes_at_most_99(x: Seq<u8>) -> bool {
    forall|i: int| 0 <= i < x.len() ==> #[trigger] x[i] <= 153
}

/// The complemented bytes followed by the terminator sort in the reverse order
/// of the bytes.
pub proof fn lemma_lex_complement(x: Seq<u8>, y: Seq<u8>)
    requires
        bytes_at_most_99(x),
        bytes_at_most_99(y),
    ensures
        lex_lt(
            complement(x).push(NEGATIVE_TERMINATOR),
            complement(y).push(NEGATIVE_TERMINATOR),
        ) == lex_lt(y, x),
    decreases x.len(),
{
    let cx = complement(x).push(NEGATIVE_TERMINATOR);
    let cy = complement(y).push(NEGATIVE_TERMINATOR);
    if x.len() == 0 && y.len() == 0 {
        assert(cx =~= cy);
        lemma_lex_irreflexive(cx);
    } else if x.len() == 0 {
        assert(cx[0] == 255 && cy[0] == 153 - y[0]);
    } else if y.len() == 0 {
        assert(cy[0] == 255 && cx[0] == 153 - x[0]);
    } else {
        assert(cx[0] == 153 - x[0] && cy[0] == 153 - y[0]);
        if x[0] == y[0] {
            assert(cx.drop_first() =~= complement(x.drop_first()).push(NEGATIVE_TERMINATOR));
            assert(cy.drop_first() =~= complement(y.drop_first()).push(NEGATIVE_TERMINATOR));
            lemma_lex_complement(x.drop_first(), y.drop_first());
        }
    }
}

// ---------------------------------------------------------------------------
// The encoding follows the order of values
// ---------------------------------------------------------------------------

proof fn lemma_two_bytes_order(fa: int, fb: int)
    requires
        0 <= fa < 65536,
        0 <= fb < 65536,
        fa != fb,
    ensures
        two_bytes(fa) != two_bytes(fb),
        two_bytes(fa).len() == 2,
        lex_lt(two_bytes(fa), two_bytes(fb)) == (fa < fb),
{
    let a = two_bytes(fa);
    let b = two_bytes(fb);
    assert(a[0] == fa / 256 && a[1] == fa % 256);
    assert(b[0] == fb / 256 && b[1] == fb % 256);
    assert(a.drop_first().drop_first().len() == 0);
    assert(b.drop_first().drop_first().len() == 0);
    assert(a.drop_first()[0] == a[1] && b.drop_first()[0] == b[1]);
    let a1 = a.drop_first();
    let b1 = b.drop_first();
    assert(lex_lt(a, b) == (if a[0] != b[0] {
        a[0] < b[0]
    } else {
        lex_lt(a1, b1)
    }));
    assert(lex_lt(a1, b1) == (if a1[0] != b1[0] {
        a1[0] < b1[0]
    } else {
        lex_lt(a1.drop_first(), b1.drop_first())
    }));
    assert(fa == 256 * (fa / 256) + fa % 256);
    assert(fb == 256 * (fb / 256) + fb % 256);
    if a[0] == b[0] {
        assert(a[1] != b[1]);
    }
}

/// The exponent bytes of a positive value diverge for different exponents and
/// sort as the exponents do.
proof fn lemma_plain_exponent_order(ea: int, eb: int)
    requires
        exponent_in_range(ea),
        exponent_in_range(eb),
        ea != eb,
    ensures
        diverge(plain_exponent_bytes(ea), plain_exponent_bytes(eb)),
        lex_lt(plain_exponent_bytes(ea), plain_exponent_bytes(eb)) == (ea < eb),
    decreases 0int,
{
    let pa = plain_exponent_bytes(ea);
    let pb = plain_exponent_bytes(eb);
    let esc = two_bytes(ESCAPE_FIELD as int);
    if ea <= LAST_INLINE_EXPONENT && eb <= LAST_INLINE_EXPONENT {
        lemma_two_bytes_order(ea + EXPONENT_BIAS, eb + EXPONENT_BIAS);
        lemma_same_length_diverge(pa, pb);
    } else if ea <= LAST_INLINE_EXPONENT {
        let rest = two_bytes(eb / 65536) + two_bytes(eb % 65536);
        assert(pb =~= esc + rest);
        assert(pa =~= pa + Seq::<u8>::empty());
        lemma_two_bytes_order(ea + EXPONENT_BIAS, ESCAPE_FIELD as int);
        lemma_same_length_diverge(pa, esc);
        lemma_lex_diverge(pa, esc, Seq::<u8>::empty(), rest);
    } else if eb <= LAST_INLINE_EXPONENT {
        let rest = two_bytes(ea / 65536) + two_bytes(ea % 65536);
        assert(pa =~= esc + rest);
        assert(pb =~= pb + Seq::<u8>::empty());
        lemma_two_bytes_order(ESCAPE_FIELD as int, eb + EXPONENT_BIAS);
        lemma_same_length_diverge(esc, pb);
        lemma_lex_diverge(esc, pb, rest, Seq::<u8>::empty());
    } else {
        let ha = two_bytes(ea / 65536);
        let hb = two_bytes(eb / 65536);
        let la = two_bytes(ea % 65536);
        let lb = two_bytes(eb % 65536);
        assert(pa =~= esc + (ha + la));
        assert(pb =~= esc + (hb + lb));
        lemma_lex_common_prefix(esc, ha + la, hb + lb);
        assert(ea == 65536 * (ea / 65536) + ea % 65536);
        assert(eb == 65536 * (eb / 65536) + eb % 65536);
        if ea / 65536 != eb / 65536 {
            lemma_two_bytes_order(ea / 65536, eb / 65536);
            lemma_lex_same_length_prefix(ha, hb, la, lb);
            assert(pa[2] == ha[0] && pa[3] == ha[1] && pb[2] == hb[0] && pb[3] == hb[1]);
            assert(ha[0] != hb[0] || ha[1] != hb[1]) by {
                if ha[0] == hb[0] && ha[1] == hb[1] {
                    assert(ha =~= hb);
                }
            }
        } else {
            lemma_two_bytes_order(ea % 65536, eb % 65536);
            lemma_lex_common_prefix(ha, la, lb);
            assert(pa[4] == la[0] && pa[5] == la[1] && pb[4] == lb[0] && pb[5] == lb[1]);
            assert(la[0] != lb[0] || la[1] != lb[1]) by {
                if la[0] == lb[0] && la[1] == lb[1] {
                    assert(la =~= lb);
                }
            }
        }
        assert(pa.len() == 6 && pb.len() == 6);
        lemma_same_length_diverge(pa, pb);
    }
}

/// The exponent bytes diverge for different exponents and sort as the
/// exponents do, or in reverse for a negative value.
pub proof fn lemma_exponent_bytes_order(ea: int, eb: int, negative: bool)
    requires
        exponent_in_range(ea),
        exponent_in_range(eb),
        ea != eb,
    ensures
        diverge(exponent_bytes(ea, negative), exponent_bytes(eb, negative)),
        lex_lt(exponent_bytes(ea, negative), exponent_bytes(eb, negative)) == (if negative {
            eb < ea
        } else {
            ea < eb
        }),
{
    lemma_plain_exponent_order(ea, eb);
    if negative {
        let pa = plain_exponent_bytes(ea);
        let pb = plain_exponent_bytes(eb);
        lemma_invert_diverge(pa, pb);
        lemma_lex_invert(pa, pb);
        lemma_plain_exponent_order(eb, ea);
    }
}

/// The byte order of two encodings is the order of the values.
pub proof fn lemma_encoding_order(a: (bool, Seq<u8>, int), b: (bool, Seq<u8>, int))
    requires
        is_normal(a),
        is_normal(b),
    ensures
        lex_lt(encode_value(a), encode_value(b)) == value_lt(a, b),
{
    let ea = encode_value(a);
    let eb = encode_value(b);
    if sign_rank(a) != sign_rank(b) {
        assert(ea[0] == (if sign_rank(a) == 0 {
            SIGN_NEGATIVE
        } else if sign_rank(a) == 1 {
            SIGN_ZERO
        } else {
            SIGN_POSITIVE
        }));
        assert(eb[0] == (if sign_rank(b) == 0 {
            SIGN_NEGATIVE
        } else if sign_rank(b) == 1 {
            SIGN_ZERO
        } else {
            SIGN_POSITIVE
        }));
        assert(ea.len() > 0 && eb.len() > 0);
    } else if sign_rank(a) == 1 {
        assert(ea =~= eb);
        lemma_lex_irreflexive(ea);
    } else {
        let negative = a.0;
        assert(b.0 == negative);
        let s = seq![sign_byte(negative)];
        let xa = exponent_bytes(a.2, negative);
        let xb = exponent_bytes(b.2, negative);
        let ma = mantissa_bytes(a.1, negative);
        let mb = mantissa_bytes(b.1, negative);
        assert(ea =~= s + (xa + ma));
        assert(eb =~= s + (xb + mb));
        lemma_lex_common_prefix(s, xa + ma, xb + mb);
        if a.2 != b.2 {
            lemma_exponent_bytes_order(a.2, b.2, negative);
            lemma_lex_diverge(xa, xb, ma, mb);
        } else {
            assert(xa == xb);
            lemma_lex_common_prefix(xa, ma, mb);
            lemma_pack_order(a.1, b.1);
            lemma_pack_order(b.1, a.1);
            if negative {
                lemma_unpack_pack(a.1);
                lemma_unpack_pack(b.1);
                lemma_lex_complement(pack_digits(a.1), pack_digits(b.1));
            }
        }
    }
}

/// The rank of a value in the order: -Infinity, the finite values,
/// Infinity, NaN.
pub open spec fn number_rank(n: Number) -> int {
    match n {
        Number::Special(Special::NegativeInfinity) => 0,
        Number::Finite(_, _, _) => 1,
        Number::Special(Special::Infinity) => 2,
        Number::Special(Special::NaN) => 3,
    }
}

/// `a < b`: `-Infinity < negative values < zero < positive values < Infinity
/// < NaN`.
pub open spec fn number_lt(a: Number, b: Number) -> bool {
    if number_rank(a) != number_rank(b) {
        number_rank(a) < number_rank(b)
    } else {
        match (a, b) {
            (Number::Finite(x0, x1, x2), Number::Finite(y0, y1, y2)) => value_lt(
                (x0, x1, x2),
                (y0, y1, y2),
            ),
            _ => false,
        }
    }
}

/// The first three bytes decide between two strings of at least three bytes
/// that differ there.
proof fn lemma_lex_three(a: Seq<u8>, b: Seq<u8>)
    requires
        a.len() >= 3,
        b.len() >= 3,
        a[0] != b[0] || a[1] != b[1] || a[2] != b[2],
    ensures
        lex_lt(a, b) == (a[0] < b[0] || (a[0] == b[0] && (a[1] < b[1] || (a[1] == b[1] && a[2]
            < b[2])))),
{
    let a1 = a.drop_first();
    let b1 = b.drop_first();
    let a2 = a1.drop_first();
    let b2 = b1.drop_first();
    assert(a1[0] == a[1] && b1[0] == b[1] && a2[0] == a[2] && b2[0] == b[2]);
    assert(a1.len() > 0 && b1.len() > 0 && a2.len() > 0 && b2.len() > 0);
    assert(lex_lt(a, b) == (if a[0] != b[0] {
        a[0] < b[0]
    } else {
        lex_lt(a1, b1)
    }));
    assert(lex_lt(a1, b1) == (if a1[0] != b1[0] {
        a1[0] < b1[0]
    } else {
        lex_lt(a2, b2)
    }));
    if a[0] == b[0] && a[1] == b[1] {
        assert(lex_lt(a2, b2) == (a2[0] < b2[0]));
    }
}

/// The first three bytes of the encoding of a nonzero finite value: the sign
/// byte, then exponent bytes that are neither `00 00`, `00 01` nor above
/// `FF FD`.
proof fn lemma_encoding_head(v: (bool, Seq<u8>, int))
    requires
        is_normal(v),
        v.1.len() > 0,
    ensures
        encode_value(v).len() >= 3,
        encode_value(v)[0] == sign_byte(v.0),
        v.0 ==> encode_value(v)[1] > 0 || encode_value(v)[2] >= 2,
        !v.0 ==> encode_value(v)[1] < 255 || encode_value(v)[2] <= 253,
{
    let (negative, d, e) = v;
    let p = plain_exponent_bytes(e);
    let f = if e <= LAST_INLINE_EXPONENT {
        e + EXPONENT_BIAS
    } else {
        ESCAPE_FIELD as int
    };
    assert(p[0] == f / 256 && p[1] == f % 256);
    assert(1 <= f <= 65533);
    assert(f == 256 * (f / 256) + f % 256);
    let x = exponent_bytes(e, negative);
    let enc = encode_value(v);
    assert(enc =~= seq![sign_byte(negative)] + x + mantissa_bytes(d, negative));
    assert(enc[1] == x[0] && enc[2] == x[1]);
}

/// The byte order of two encodings is the order of the values, special
/// values included.
pub proof fn lemma_number_order(a: Number, b: Number)
    requires
        is_valid(a),
        is_valid(b),
    ensures
        lex_lt(encode_number(a), encode_number(b)) == number_lt(a, b),
{
    let ea = encode_number(a);
    let eb = encode_number(b);
    match (a, b) {
        (Number::Finite(x0, x1, x2), Number::Finite(y0, y1, y2)) => {
            lemma_encoding_order((x0, x1, x2), (y0, y1, y2));
        },
        (Number::Special(s), Number::Special(t)) => {
            if s == t {
                lemma_lex_irreflexive(ea);
            } else {
                lemma_lex_three(ea, eb);
            }
        },
        (Number::Finite(x0, x1, x2), Number::Special(t)) => {
            if x1.len() == 0 {
                assert(ea[0] == SIGN_ZERO);
            } else {
                lemma_encoding_head((x0, x1, x2));
                lemma_lex_three(ea, eb);
            }
        },
        (Number::Special(s), Number::Finite(y0, y1, y2)) => {
            if y1.len() == 0 {
                assert(eb[0] == SIGN_ZERO);
            } else {
                lemma_encoding_head((y0, y1, y2));
                lemma_lex_three(ea, eb);
            }
        },
    }
}

/// Whether `a` sorts before `b`.
pub fn lex_less(a: &[u8], b: &[u8]) -> (r: bool)
    ensures
        r == lex_lt(a@, b@),
{
    let mut i: usize = 0;
    while i < a.len() && i < b.len()
        invariant
            i <= a@.len(),
            i <= b@.len(),
            a@.take(i as int) == b@.take(i as int),
        decreases a@.len() - i,
    {
        if a[i] != b[i] {
            proof {
                lemma_lex_common_prefix(a@.take(i as int), a@.skip(i as int), b@.skip(i as int));
                assert(a@.take(i as int) + a@.skip(i as int) =~= a@);
                assert(b@.take(i as int) + b@.skip(i as int) =~= b@);
                assert(a@.skip(i as int)[0] == a@[i as int]);
                assert(b@.skip(i as int)[0] == b@[i as int]);
            }
            return a[i] < b[i];
        }
        assert(a@.take(i + 1) =~= a@.take(i as int).push(a@[i as int]));
        assert(b@.take(i + 1) =~= b@.take(i as int).push(b@[i as int]));
        i += 1;
    }
    proof {
        lemma_lex_common_prefix(a@.take(i as int), a@.skip(i as int), b@.skip(i as int));
        assert(a@.take(i as int) + a@.skip(i as int) =~= a@);
        assert(b@.take(i as int) + b@.skip(i as int) =~= b@);
    }
    a.len() < b.len()
}

} // verus!
