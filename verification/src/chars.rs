//! Characters of a query: classification, UTF-8 widths and byte offsets.

use vstd::prelude::*;
use vstd::utf8::{encode_scalar, encode_utf8};

verus! {

/// The characters of a string slice, in order.
pub fn chars_of(q: &str) -> (cs: Vec<char>)
    ensures
        cs@ == q@,
{
    let mut cs: Vec<char> = Vec::new();
    for c in it: q.chars()
        invariant
            cs@ == it.seq().take(it.index()),
            it.seq() == q@,
    {
        cs.push(c);
        assert(it.seq().take(it.index() + 1) =~= it.seq().take(it.index()).push(c));
    }
    assert(q@.take(q@.len() as int) =~= q@);
    cs
}


/// The Unicode White_Space property, which std's `char::is_whitespace`
/// tests: U+0009..U+000D, U+0020, U+0085, U+00A0, U+1680, U+2000..U+200A,
/// U+2028, U+2029, U+202F, U+205F and U+3000.
pub open spec fn char_is_whitespace(c: char) -> bool {
    let n = c as u32;
    ||| 0x09 <= n <= 0x0d
    ||| n == 0x20
    ||| n == 0x85
    ||| n == 0xa0
    ||| n == 0x1680
    ||| 0x2000 <= n <= 0x200a
    ||| n == 0x2028
    ||| n == 0x2029
    ||| n == 0x202f
    ||| n == 0x205f
    ||| n == 0x3000
}

/// An ASCII letter or digit.
pub open spec fn is_ascii_alphanumeric(c: char) -> bool {
    ('0' <= c <= '9') || ('a' <= c <= 'z') || ('A' <= c <= 'Z')
}

/// Whether std's `char::is_alphanumeric` holds for a character beyond
/// ASCII (Unicode Alphabetic or Numeric).
pub uninterp spec fn unicode_alphanumeric(c: char) -> bool;

/// Whether std's `char::is_alphanumeric` holds: for ASCII, the letters and
/// digits.
pub open spec fn char_is_alphanumeric(c: char) -> bool {
    if (c as u32) < 128 {
        is_ascii_alphanumeric(c)
    } else {
        unicode_alphanumeric(c)
    }
}

/// std's `char::is_whitespace`. Claimed: it holds exactly for the
/// White_Space characters listed at `char_is_whitespace`.
#[verifier::external_body]
pub(crate) fn is_whitespace(c: char) -> (b: bool)
    ensures
        b == char_is_whitespace(c),
{
    c.is_whitespace()
}

/// std's `char::is_alphanumeric`. Claimed: the answer depends on the
/// character alone; among ASCII characters exactly the letters and digits
/// qualify. Which other characters qualify is left to the Unicode tables.
#[verifier::external_body]
pub(crate) fn is_alphanumeric(c: char) -> (b: bool)
    ensures
        (c as u32) < 128 ==> (b <==> is_ascii_alphanumeric(c)),
        (c as u32) >= 128 ==> b == unicode_alphanumeric(c),
{
    c.is_alphanumeric()
}

/// Number of UTF-8 bytes of a character.
pub open spec fn utf8_width(c: char) -> int {
    encode_scalar(c as u32).len() as int
}

/// Byte offset of character `i` in the UTF-8 encoding of `cs`.
pub open spec fn byte_offset(cs: Seq<char>, i: int) -> int {
    encode_utf8(cs.take(i)).len() as int
}

pub proof fn lemma_encode_concat(a: Seq<char>, b: Seq<char>)
    ensures
        encode_utf8(a + b) == encode_utf8(a) + encode_utf8(b),
    decreases a.len(),
{
    if a.len() == 0 {
        assert(a + b =~= b);
        assert(encode_utf8(a) =~= Seq::<u8>::empty());
        assert(encode_utf8(a) + encode_utf8(b) =~= encode_utf8(b));
    } else {
        lemma_encode_concat(a.drop_first(), b);
        assert((a + b).drop_first() =~= a.drop_first() + b);
        assert((a + b)[0] == a[0]);
        assert(encode_utf8(a + b) =~= encode_scalar(a[0] as u32) + encode_utf8(a.drop_first() + b));
        assert(encode_utf8(a) =~= encode_scalar(a[0] as u32) + encode_utf8(a.drop_first()));
    }
}

/// Offsets grow by the width of each character and stay within the whole
/// encoding.
pub proof fn lemma_byte_offset_step(cs: Seq<char>, i: int)
    requires
        0 <= i < cs.len(),
    ensures
        byte_offset(cs, i + 1) == byte_offset(cs, i) + utf8_width(cs[i]),
        byte_offset(cs, i + 1) <= encode_utf8(cs).len(),
{
    assert(cs.take(i + 1) =~= cs.take(i) + seq![cs[i]]);
    lemma_encode_concat(cs.take(i), seq![cs[i]]);
    assert(seq![cs[i]].drop_first() =~= Seq::<char>::empty());
    assert(encode_utf8(seq![cs[i]]) =~= encode_scalar(cs[i] as u32) + encode_utf8(Seq::<char>::empty()));
    assert(cs =~= cs.take(i + 1) + cs.skip(i + 1));
    lemma_encode_concat(cs.take(i + 1), cs.skip(i + 1));
}

pub proof fn lemma_byte_offset_bounds(cs: Seq<char>, i: int)
    requires
        0 <= i <= cs.len(),
    ensures
        0 <= byte_offset(cs, i) <= encode_utf8(cs).len(),
        i == cs.len() ==> byte_offset(cs, i) == encode_utf8(cs).len(),
{
    assert(cs =~= cs.take(i) + cs.skip(i));
    lemma_encode_concat(cs.take(i), cs.skip(i));
    if i == cs.len() {
        assert(cs.take(i) =~= cs);
    }
}

/// UTF-8 width of a character (std's `char::len_utf8`).
pub fn width(c: char) -> (w: usize)
    ensures
        w == utf8_width(c),
        1 <= w <= 4,
{
    proof {
        vstd::utf8::char_is_scalar(c);
    }
    let v = c as u32;
    if v <= 0x7f {
        1
    } else if v <= 0x7ff {
        2
    } else if v <= 0xffff {
        3
    } else {
        4
    }
}

/// ASCII lower case of one character; other characters are unchanged
/// (std's `char::to_ascii_lowercase`).
pub open spec fn ascii_lower(c: char) -> char {
    if 'A' <= c <= 'Z' {
        ((c as u32) + 32) as char
    } else {
        c
    }
}

pub open spec fn ascii_lower_seq(w: Seq<char>) -> Seq<char> {
    w.map_values(|c: char| ascii_lower(c))
}

pub fn to_ascii_lower(c: char) -> (r: char)
    ensures
        r == ascii_lower(c),
{
    if 'A' <= c && c <= 'Z' {
        ((c as u8) + 32) as char
    } else {
        c
    }
}

/// A word in ASCII lower case.
pub fn lower_word(w: &Vec<char>) -> (r: Vec<char>)
    ensures
        r@ == ascii_lower_seq(w@),
{
    let mut r: Vec<char> = Vec::new();
    let mut i: usize = 0;
    while i < w.len()
        invariant
            i <= w@.len(),
            r@ == ascii_lower_seq(w@.take(i as int)),
        decreases w.len() - i,
    {
        r.push(to_ascii_lower(w[i]));
        assert(ascii_lower_seq(w@.take(i + 1)) =~= ascii_lower_seq(w@.take(i as int)).push(
            ascii_lower(w@[i as int]),
        ));
        i = i + 1;
    }
    assert(w@.take(w@.len() as int) =~= w@);
    r
}

/// Whether a word equals a given text.
pub fn word_is(w: &Vec<char>, t: &str) -> (b: bool)
    ensures
        b == (w@ == t@),
{
    let tc = chars_of(t);
    if w.len() != tc.len() {
        return false;
    }
    let mut i: usize = 0;
    while i < w.len()
        invariant
            i <= w@.len(),
            w@.len() == tc@.len(),
            tc@ == t@,
            forall|j: int| 0 <= j < i ==> w@[j] == tc@[j],
        decreases w.len() - i,
    {
        if w[i] != tc[i] {
            return false;
        }
        i = i + 1;
    }
    assert(w@ =~= t@);
    true
}

} // verus!
