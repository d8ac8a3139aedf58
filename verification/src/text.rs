//! Characters and strings: whitespace trimming, scanning, digit text, and the
//! conversions between `&str`, `Vec<char>` and `String`.
use vstd::prelude::*;

verus! {

// ---------------------------------------------------------------------------
// Characters
// ---------------------------------------------------------------------------

/// The Unicode `White_Space` property, which `str::trim` strips.
pub open spec fn is_white_space(c: char) -> bool {
    ||| '\t' <= c <= '\r'
    ||| c == ' '
    ||| c == '\u{85}'
    ||| c == '\u{a0}'
    ||| c == '\u{1680}'
    ||| '\u{2000}' <= c <= '\u{200a}'
    ||| c == '\u{2028}'
    ||| c == '\u{2029}'
    ||| c == '\u{202f}'
    ||| c == '\u{205f}'
    ||| c == '\u{3000}'
}

/// An ASCII decimal digit.
pub open spec fn is_digit_char(c: char) -> bool {
    '0' <= c <= '9'
}

/// The value of an ASCII decimal digit.
pub open spec fn char_digit(c: char) -> int {
    c as int - '0' as int
}

/// The ASCII character of a digit value.
pub open spec fn digit_char(d: u8) -> char {
    (d + 48) as char
}

/// Every character is an ASCII decimal digit.
pub open spec fn all_digit_chars(s: Seq<char>) -> bool {
    forall|i: int| 0 <= i < s.len() ==> #[trigger] is_digit_char(s[i])
}

/// The digit values of a digit text.
pub open spec fn digit_values(s: Seq<char>) -> Seq<u8> {
    s.map_values(|c: char| char_digit(c) as u8)
}

/// The digit text of digit values.
pub open spec fn digit_text(d: Seq<u8>) -> Seq<char> {
    d.map_values(|x: u8| digit_char(x))
}

/// Tests for an ASCII decimal digit.
pub fn is_digit(c: char) -> (b: bool)
    ensures
        b == is_digit_char(c),
{
    c >= '0' && c <= '9'
}

/// The value of an ASCII decimal digit.
pub fn digit_of(c: char) -> (d: u8)
    requires
        is_digit_char(c),
    ensures
        d == char_digit(c),
        d < 10,
{
    ((c as u32) - ('0' as u32)) as u8
}

/// The ASCII character of a digit value.
pub fn char_of_digit(d: u8) -> (c: char)
    requires
        d < 10,
    ensures
        c == digit_char(d),
        is_digit_char(c),
        char_digit(c) == d,
{
    (d + 48) as char
}

/// Tests for the Unicode `White_Space` property.
pub fn is_white_space_char(c: char) -> (b: bool)
    ensures
        b == is_white_space(c),
{
    (c >= '\t' && c <= '\r') || c == ' ' || c == '\u{85}' || c == '\u{a0}' || c == '\u{1680}' || (c
        >= '\u{2000}' && c <= '\u{200a}') || c == '\u{2028}' || c == '\u{2029}' || c == '\u{202f}'
        || c == '\u{205f}' || c == '\u{3000}'
}

// ---------------------------------------------------------------------------
// Trimming, as `str::trim` does it
// ---------------------------------------------------------------------------

/// Drops leading whitespace.
pub open spec fn trim_start(s: Seq<char>) -> Seq<char>
    decreases s.len(),
{
    if s.len() > 0 && is_white_space(s[0]) {
        trim_start(s.drop_first())
    } else {
        s
    }
}

/// Drops trailing whitespace.
pub open spec fn trim_end(s: Seq<char>) -> Seq<char>
    decreases s.len(),
{
    if s.len() > 0 && is_white_space(s.last()) {
        trim_end(s.drop_last())
    } else {
        s
    }
}

/// Drops leading and trailing whitespace.
pub open spec fn trim(s: Seq<char>) -> Seq<char> {
    trim_end(trim_start(s))
}

pub proof fn lemma_trim_start(s: Seq<char>, a: int)
    requires
        0 <= a <= s.len(),
        forall|i: int| 0 <= i < a ==> is_white_space(#[trigger] s[i]),
        a == s.len() || !is_white_space(s[a]),
    ensures
        trim_start(s) == s.skip(a),
    decreases a,
{
    if a == 0 {
        assert(s.skip(0) =~= s);
    } else {
        let t = s.drop_first();
        assert forall|i: int| 0 <= i < a - 1 implies is_white_space(#[trigger] t[i]) by {
            assert(t[i] == s[i + 1]);
        }
        lemma_trim_start(t, a - 1);
        assert(t.skip(a - 1) =~= s.skip(a));
    }
}

pub proof fn lemma_trim_end(s: Seq<char>, b: int)
    requires
        0 <= b <= s.len(),
        forall|i: int| b <= i < s.len() ==> is_white_space(#[trigger] s[i]),
        b == 0 || !is_white_space(s[b - 1]),
    ensures
        trim_end(s) == s.take(b),
    decreases s.len() - b,
{
    if b == s.len() {
        assert(s.take(b) =~= s);
    } else {
        let t = s.drop_last();
        assert forall|i: int| b <= i < t.len() implies is_white_space(#[trigger] t[i]) by {
            assert(t[i] == s[i]);
        }
        lemma_trim_end(t, b);
        assert(t.take(b) =~= s.take(b));
    }
}

/// The bounds of the text that remains after trimming whitespace off both ends.
pub fn trim_bounds(v: &[char]) -> (r: (usize, usize))
    ensures
        r.0 <= r.1 <= v@.len(),
        v@.subrange(r.0 as int, r.1 as int) == trim(v@),
{
    let mut lo: usize = 0;
    while lo < v.len() && is_white_space_char(v[lo])
        invariant
            lo <= v@.len(),
            forall|i: int| 0 <= i < lo ==> is_white_space(#[trigger] v@[i]),
        decreases v@.len() - lo,
    {
        lo += 1;
    }
    let mut hi: usize = v.len();
    while hi > lo && is_white_space_char(v[hi - 1])
        invariant
            lo <= hi <= v@.len(),
            forall|i: int| hi <= i < v@.len() ==> is_white_space(#[trigger] v@[i]),
        decreases hi,
    {
        hi -= 1;
    }
    proof {
        lemma_trim_start(v@, lo as int);
        let t = v@.skip(lo as int);
        assert forall|i: int| hi - lo <= i < t.len() implies is_white_space(#[trigger] t[i]) by {
            assert(t[i] == v@[i + lo]);
        }
        if hi > lo {
            assert(t[hi - lo - 1] == v@[hi - 1]);
        }
        lemma_trim_end(t, hi - lo);
        assert(t.take(hi - lo) =~= v@.subrange(lo as int, hi as int));
    }
    (lo, hi)
}

// ---------------------------------------------------------------------------
// First and last positions
// ---------------------------------------------------------------------------

/// `k` is the first position in `s` whose character satisfies `p`, or the length
/// of `s` where none does.
pub open spec fn is_first(s: Seq<char>, p: spec_fn(char) -> bool, k: int) -> bool {
    &&& 0 <= k <= s.len()
    &&& forall|i: int| 0 <= i < k ==> !p(#[trigger] s[i])
    &&& k < s.len() ==> p(s[k])
}

/// The first position in `s` whose character satisfies `p`, or the length of `s`.
pub open spec fn first_index(s: Seq<char>, p: spec_fn(char) -> bool) -> int {
    choose|k: int| is_first(s, p, k)
}

/// The first position is unique.
pub proof fn lemma_first_index(s: Seq<char>, p: spec_fn(char) -> bool, k: int)
    requires
        is_first(s, p, k),
    ensures
        first_index(s, p) == k,
{
    let j = first_index(s, p);
    assert(is_first(s, p, j));
    if j < k {
        assert(!p(s[j]));
    }
    if k < j {
        assert(!p(s[k]));
    }
}

/// There is always a first position (or the length).
pub proof fn lemma_first_index_exists(s: Seq<char>, p: spec_fn(char) -> bool)
    ensures
        is_first(s, p, first_index(s, p)),
    decreases s.len(),
{
    if s.len() == 0 {
        assert(is_first(s, p, 0));
    } else {
        let t = s.drop_last();
        lemma_first_index_exists(t, p);
        let k = first_index(t, p);
        assert(forall|i: int| 0 <= i < t.len() ==> t[i] == s[i]);
        if k < t.len() {
            assert(is_first(s, p, k));
        } else if p(s.last()) {
            assert(is_first(s, p, t.len() as int));
        } else {
            assert(is_first(s, p, s.len() as int));
        }
    }
}

/// `k` is the last position in `s` whose character satisfies `p`, or -1 where
/// none does.
pub open spec fn is_last(s: Seq<char>, p: spec_fn(char) -> bool, k: int) -> bool {
    &&& -1 <= k < s.len()
    &&& forall|i: int| k < i < s.len() ==> !p(#[trigger] s[i])
    &&& k >= 0 ==> p(s[k])
}

/// The last position in `s` whose character satisfies `p`, or -1.
pub open spec fn last_index(s: Seq<char>, p: spec_fn(char) -> bool) -> int {
    choose|k: int| is_last(s, p, k)
}

/// The last position is unique.
pub proof fn lemma_last_index(s: Seq<char>, p: spec_fn(char) -> bool, k: int)
    requires
        is_last(s, p, k),
    ensures
        last_index(s, p) == k,
{
    let j = last_index(s, p);
    assert(is_last(s, p, j));
    if j < k {
        assert(!p(s[k]));
    }
    if k < j {
        assert(!p(s[j]));
    }
}

/// There is always a last position (or -1).
pub proof fn lemma_last_index_exists(s: Seq<char>, p: spec_fn(char) -> bool)
    ensures
        is_last(s, p, last_index(s, p)),
    decreases s.len(),
{
    if s.len() == 0 {
        assert(is_last(s, p, -1));
    } else {
        let t = s.drop_first();
        lemma_last_index_exists(t, p);
        let k = last_index(t, p);
        assert(forall|i: int| 0 <= i < t.len() ==> t[i] == s[i + 1]);
        assert forall|i: int| k + 1 < i < s.len() implies !p(#[trigger] s[i]) by {
            assert(s[i] == t[i - 1]);
        }
        if k >= 0 {
            assert(s[k + 1] == t[k]);
            assert(is_last(s, p, k + 1));
        } else if p(s[0]) {
            assert(is_last(s, p, 0));
        } else {
            assert(is_last(s, p, -1));
        }
    }
}

// ---------------------------------------------------------------------------
// Conversions
// ---------------------------------------------------------------------------

/// Collects the characters of a string slice.
pub fn chars_of(s: &str) -> (out: Vec<char>)
    ensures
        out@ == s@,
{
    let mut out: Vec<char> = Vec::new();
    for c in it: s.chars()
        invariant
            out@ == it.seq().take(it.index() as int),
    {
        out.push(c);
    }
    out
}

/// `String::push`: appends one character to the string.
#[verifier::external_body]
fn push_char(s: &mut String, c: char)
    ensures
        final(s)@ == old(s)@.push(c),
{
    s.push(c);
}

/// The string made of the given characters.
pub fn string_of(v: &[char]) -> (s: String)
    ensures
        s@ == v@,
{
    let mut s = String::new();
    for i in 0..v.len()
        invariant
            s@ == v@.take(i as int),
    {
        push_char(&mut s, v[i]);
        assert(v@.take(i + 1) =~= v@.take(i as int).push(v@[i as int]));
    }
    assert(v@.take(v@.len() as int) =~= v@);
    s
}

/// Appends all characters of `t` to `v`.
pub fn append_chars(v: &mut Vec<char>, t: &[char])
    ensures
        final(v)@ == old(v)@ + t@,
{
    let ghost start = old(v)@;
    for i in 0..t.len()
        invariant
            v@ == start + t@.take(i as int),
    {
        v.push(t[i]);
        assert(t@.take(i + 1) =~= t@.take(i as int).push(t@[i as int]));
    }
    assert(t@.take(t@.len() as int) =~= t@);
}

// ---------------------------------------------------------------------------
// 32-bit integers in decimal text, as `i32::from_str` reads them
// ---------------------------------------------------------------------------

/// The value of a digit text.
pub open spec fn digits_value(s: Seq<char>) -> int
    decreases s.len(),
{
    if s.len() == 0 {
        0
    } else {
        digits_value(s.drop_last()) * 10 + char_digit(s.last())
    }
}

/// What `i32::from_str` gives: an optional `+` or `-`, then one or more ASCII
/// digits whose value fits in an `i32`.
pub open spec fn i32_from_text(t: Seq<char>) -> Option<i32> {
    if t.len() == 0 {
        None
    } else {
        let negative = t[0] == '-';
        let ds = if t[0] == '-' || t[0] == '+' {
            t.drop_first()
        } else {
            t
        };
        let v = if negative {
            -digits_value(ds)
        } else {
            digits_value(ds)
        };
        if ds.len() == 0 || !all_digit_chars(ds) {
            None
        } else if i32::MIN <= v <= i32::MAX {
            Some(v as i32)
        } else {
            None
        }
    }
}

proof fn lemma_digits_value_take(s: Seq<char>, i: int)
    requires
        0 <= i < s.len(),
        all_digit_chars(s),
    ensures
        digits_value(s.take(i + 1)) == digits_value(s.take(i)) * 10 + char_digit(s[i]),
        digits_value(s.take(i)) >= 0,
{
    assert(s.take(i + 1).drop_last() =~= s.take(i));
    lemma_digits_value_nonneg(s.take(i));
}

pub proof fn lemma_digits_value_nonneg(s: Seq<char>)
    requires
        all_digit_chars(s),
    ensures
        digits_value(s) >= 0,
    decreases s.len(),
{
    if s.len() > 0 {
        assert(is_digit_char(s[s.len() - 1]));
        lemma_digits_value_nonneg(s.drop_last());
    }
}

proof fn lemma_digits_value_grows(s: Seq<char>, i: int)
    requires
        0 <= i <= s.len(),
        all_digit_chars(s),
    ensures
        digits_value(s) >= digits_value(s.take(i)),
    decreases s.len() - i,
{
    if i < s.len() {
        assert(is_digit_char(s[i]));
        lemma_digits_value_take(s, i);
        lemma_digits_value_grows(s, i + 1);
    } else {
        assert(s.take(i) =~= s);
    }
}

/// Reads a 32-bit integer the way `i32::from_str` does.
pub fn i32_from_chars(t: &[char]) -> (r: Option<i32>)
    ensures
        r == i32_from_text(t@),
{
    if t.len() == 0 {
        return None;
    }
    let negative = t[0] == '-';
    let start: usize = if t[0] == '-' || t[0] == '+' {
        1
    } else {
        0
    };
    let ghost ds = t@.skip(start as int);
    assert(ds =~= (if t@[0] == '-' || t@[0] == '+' {
        t@.drop_first()
    } else {
        t@
    }));
    if start == t.len() {
        return None;
    }
    // The magnitude, up to 2^31, the largest that an i32 can hold negated.
    let limit: i64 = 2147483648;
    let mut acc: i64 = 0;
    let mut i: usize = start;
    while i < t.len()
        invariant
            start <= i <= t@.len(),
            start < t@.len(),
            ds == t@.skip(start as int),
            ds == (if t@[0] == '-' || t@[0] == '+' {
                t@.drop_first()
            } else {
                t@
            }),
            negative == (t@[0] == '-'),
            all_digit_chars(ds.take(i - start)),
            acc == digits_value(ds.take(i - start)),
            0 <= acc <= limit,
            limit == 2147483648,
        decreases t@.len() - i,
    {
        let c = t[i];
        if !is_digit(c) {
            proof {
                assert(ds[i - start] == c);
                assert(!is_digit_char(ds[i - start]));
                assert(!all_digit_chars(ds));
            }
            return None;
        }
        let d = digit_of(c);
        proof {
            assert(ds.take(i - start + 1) =~= ds.take(i - start).push(c));
            assert(ds.take(i - start + 1).drop_last() =~= ds.take(i - start));
        }
        acc = acc * 10 + d as i64;
        i += 1;
        if acc > limit {
            proof {
                let j = i - start;
                assert(acc == digits_value(ds.take(j)));
                // A longer digit text only has a larger value, but a later
                // character may also not be a digit: either way, no i32.
                if all_digit_chars(ds) {
                    lemma_digits_value_grows(ds, j);
                    assert(digits_value(ds) > 2147483648);
                }
            }
            return None;
        }
    }
    proof {
        assert(ds.take(i - start) =~= ds);
    }
    let v: i64 = if negative {
        -acc
    } else {
        acc
    };
    if v < -2147483648 || v > 2147483647 {
        return None;
    }
    Some(v as i32)
}

} // verus!
