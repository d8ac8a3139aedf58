//! The special values Infinity, -Infinity and NaN: their names in text, and
//! their three-byte encodings, which sort below every finite value
//! (-Infinity) and above every finite value (Infinity, then NaN).
use vstd::prelude::*;

use crate::parse::{ends_mantissa, read_decimal, split_sign};
use crate::text::{
    chars_of, is_first, lemma_first_index, lemma_trim_end, lemma_trim_start, string_of, trim,
    trim_bounds,
};

verus! {

/// A value that is not a finite number.
#[derive(Clone, Copy, Debug, PartialEq, Eq, Structural)]
pub enum Special {
    /// Positive infinity.
    Infinity,
    /// Negative infinity.
    NegativeInfinity,
    /// Not a number.
    NaN,
}

/// The encoding of a special value.
pub open spec fn special_bytes(s: Special) -> Seq<u8> {
    match s {
        Special::Infinity => seq![0xFFu8, 0xFFu8, 0xFEu8],
        Special::NegativeInfinity => seq![0x00u8, 0x00u8, 0x00u8],
        Special::NaN => seq![0xFFu8, 0xFFu8, 0xFFu8],
    }
}

/// The special value that the bytes encode, if any.
pub open spec fn special_of_bytes(b: Seq<u8>) -> Option<Special> {
    if b == special_bytes(Special::Infinity) {
        Some(Special::Infinity)
    } else if b == special_bytes(Special::NegativeInfinity) {
        Some(Special::NegativeInfinity)
    } else if b == special_bytes(Special::NaN) {
        Some(Special::NaN)
    } else {
        None
    }
}

/// The text of a special value.
pub open spec fn special_name(s: Special) -> Seq<char> {
    match s {
        Special::Infinity => "Infinity"@,
        Special::NegativeInfinity => "-Infinity"@,
        Special::NaN => "NaN"@,
    }
}

/// `c` is the lower-case letter `w` in either case.
pub open spec fn same_letter(c: char, w: char) -> bool {
    c == w || (c as u32) + 32 == (w as u32)
}

/// The text is the lower-case word `w`, each letter in either case.
pub open spec fn is_word(t: Seq<char>, w: Seq<char>) -> bool {
    &&& t.len() == w.len()
    &&& forall|i: int| 0 <= i < t.len() ==> same_letter(#[trigger] t[i], w[i])
}

/// The special value that a text names, once whitespace is trimmed off both
/// ends: `infinity` or `inf` with an optional sign, or an unsigned `nan`, in
/// any case.
pub open spec fn special_of_text(s: Seq<char>) -> Option<Special> {
    let t = trim(s);
    let (negative, b) = split_sign(t);
    if is_word(b, "infinity"@) || is_word(b, "inf"@) {
        Some(
            if negative {
                Special::NegativeInfinity
            } else {
                Special::Infinity
            },
        )
    } else if is_word(t, "nan"@) {
        Some(Special::NaN)
    } else {
        None
    }
}

/// A text that reads as a finite number names no special value.
pub proof fn lemma_read_is_not_special(s: Seq<char>)
    ensures
        read_decimal(s) is Ok ==> special_of_text(s) is None,
{
    let t = trim(s);
    let (negative, b) = split_sign(t);
    reveal_strlit("infinity");
    reveal_strlit("inf");
    reveal_strlit("nan");
    if special_of_text(s) is Some {
        if is_word(b, "infinity"@) || is_word(b, "inf"@) {
            assert(same_letter(b[0], 'i'));
        } else {
            assert(is_word(t, "nan"@));
            assert(same_letter(t[0], 'n'));
            assert(b == t);
        }
        assert(is_first(b, ends_mantissa(), 0));
        lemma_first_index(b, ends_mantissa(), 0);
        assert(b.take(0) =~= Seq::<char>::empty());
    }
}

/// The text of a special value names it.
pub proof fn lemma_special_name_reads(sp: Special)
    ensures
        special_of_text(special_name(sp)) == Some(sp),
{
    reveal_strlit("Infinity");
    reveal_strlit("-Infinity");
    reveal_strlit("NaN");
    reveal_strlit("infinity");
    reveal_strlit("inf");
    reveal_strlit("nan");
    let s = special_name(sp);
    lemma_trim_start(s, 0);
    assert(s.skip(0) =~= s);
    lemma_trim_end(s, s.len() as int);
    assert(s.take(s.len() as int) =~= s);
    assert(trim(s) == s);
    match sp {
        Special::Infinity => {
            assert(split_sign(s) == (false, s));
            assert(is_word(s, "infinity"@));
        },
        Special::NegativeInfinity => {
            assert(split_sign(s).1 =~= "Infinity"@);
            assert(is_word("Infinity"@, "infinity"@));
        },
        Special::NaN => {
            assert(split_sign(s) == (false, s));
            assert(!same_letter(s[0], 'i'));
            assert(!is_word(s, "infinity"@));
            assert(!is_word(s, "inf"@));
            assert(is_word(s, "nan"@));
        },
    }
}

/// Whether `v[from..to]` is the lower-case word `w` in any case.
fn matches_word(v: &[char], from: usize, to: usize, w: &str) -> (r: bool)
    requires
        from <= to <= v@.len(),
    ensures
        r == is_word(v@.subrange(from as int, to as int), w@),
{
    let wc = chars_of(w);
    let ghost t = v@.subrange(from as int, to as int);
    if to - from != wc.len() {
        return false;
    }
    let mut i: usize = 0;
    while i < wc.len()
        invariant
            i <= wc@.len(),
            wc@ == w@,
            to - from == wc@.len(),
            from <= to <= v@.len(),
            t == v@.subrange(from as int, to as int),
            forall|j: int| 0 <= j < i ==> same_letter(#[trigger] t[j], w@[j]),
        decreases wc@.len() - i,
    {
        let c = v[from + i];
        let l = wc[i];
        assert(t[i as int] == c);
        if !(c == l || ((l as u32) >= 32 && (c as u32) == (l as u32) - 32)) {
            return false;
        }
        i += 1;
    }
    true
}

/// Reads the special value that the text names, as `special_of_text` says.
pub fn read_special(value: &str) -> (r: Option<Special>)
    ensures
        r == special_of_text(value@),
{
    let v = chars_of(value);
    let (lo, hi) = trim_bounds(v.as_slice());
    let ghost t = v@.subrange(lo as int, hi as int);
    let mut start = lo;
    let mut negative = false;
    if lo < hi && v[lo] == '-' {
        negative = true;
        start = lo + 1;
    } else if lo < hi && v[lo] == '+' {
        start = lo + 1;
    }
    assert(split_sign(t) == (negative, v@.subrange(start as int, hi as int))) by {
        if start == lo {
            assert(t =~= v@.subrange(start as int, hi as int));
        } else {
            assert(t.drop_first() =~= v@.subrange(start as int, hi as int));
        }
    }
    if matches_word(v.as_slice(), start, hi, "infinity") || matches_word(
        v.as_slice(),
        start,
        hi,
        "inf",
    ) {
        if negative {
            Some(Special::NegativeInfinity)
        } else {
            Some(Special::Infinity)
        }
    } else if matches_word(v.as_slice(), lo, hi, "nan") {
        Some(Special::NaN)
    } else {
        None
    }
}

/// The encoding of a special value.
pub fn special_to_bytes(s: Special) -> (r: Vec<u8>)
    ensures
        r@ == special_bytes(s),
{
    let r = match s {
        Special::Infinity => vec![0xFFu8, 0xFFu8, 0xFEu8],
        Special::NegativeInfinity => vec![0x00u8, 0x00u8, 0x00u8],
        Special::NaN => vec![0xFFu8, 0xFFu8, 0xFFu8],
    };
    assert(r@ =~= special_bytes(s));
    r
}

/// The special value that the bytes encode, if any.
pub fn special_from_bytes(b: &[u8]) -> (r: Option<Special>)
    ensures
        r == special_of_bytes(b@),
{
    if b.len() != 3 {
        return None;
    }
    let (x, y, z) = (b[0], b[1], b[2]);
    assert(b@ =~= seq![x, y, z]);
    if x == 0xFF && y == 0xFF && z == 0xFE {
        Some(Special::Infinity)
    } else if x == 0 && y == 0 && z == 0 {
        Some(Special::NegativeInfinity)
    } else if x == 0xFF && y == 0xFF && z == 0xFF {
        Some(Special::NaN)
    } else {
        None
    }
}

/// The text of a special value.
pub fn special_to_string(s: Special) -> (r: String)
    ensures
        r@ == special_name(s),
{
    let name = match s {
        Special::Infinity => "Infinity",
        Special::NegativeInfinity => "-Infinity",
        Special::NaN => "NaN",
    };
    let v = chars_of(name);
    string_of(&v)
}

} // verus!
