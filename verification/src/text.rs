//! Character-level groundwork for the scanner: the Unicode character classes
//! that drive whitespace skipping and identifier recognition, and the UTF-8
//! byte-offset arithmetic behind every token position.

use vstd::prelude::*;
use vstd::utf8::encode_scalar;
use vstd::utf8::encode_utf8;

verus! {

/// Whether a character has the Unicode `White_Space` property, as decided by
/// `char::is_whitespace`.
pub uninterp spec fn unicode_whitespace(c: char) -> bool;

/// Whether a character has the Unicode `Alphabetic` property, as decided by
/// `char::is_alphabetic`.
pub uninterp spec fn unicode_alphabetic(c: char) -> bool;

/// Whether a character is alphanumeric, as decided by
/// `char::is_alphanumeric`.
pub uninterp spec fn unicode_alphanumeric(c: char) -> bool;

/// Relies on `char::is_whitespace`: the result depends on the character
/// alone, by the Unicode `White_Space` property.
#[verifier::external_body]
pub(crate) fn char_is_whitespace(c: char) -> (r: bool)
    ensures
        r == unicode_whitespace(c),
{
    c.is_whitespace()
}

/// Relies on `char::is_alphabetic`: the result depends on the character
/// alone, by the Unicode `Alphabetic` property.
#[verifier::external_body]
pub(crate) fn char_is_alphabetic(c: char) -> (r: bool)
    ensures
        r == unicode_alphabetic(c),
{
    c.is_alphabetic()
}

/// Relies on `char::is_alphanumeric`: the result depends on the character
/// alone, by the Unicode alphabetic and numeric properties.
#[verifier::external_body]
pub(crate) fn char_is_alphanumeric(c: char) -> (r: bool)
    ensures
        r == unicode_alphanumeric(c),
{
    c.is_alphanumeric()
}

/// A character may start an identifier when it is alphabetic or an
/// underscore.
pub open spec fn ident_start(c: char) -> bool {
    unicode_alphabetic(c) || c == '_'
}

/// A character may continue an identifier when it is alphanumeric or an
/// underscore. Alphabetic characters are named on their own so that, by
/// construction, every character that may start an identifier may also
/// continue one.
pub open spec fn ident_cont(c: char) -> bool {
    unicode_alphanumeric(c) || unicode_alphabetic(c) || c == '_'
}

pub(crate) fn is_ident_start(c: char) -> (r: bool)
    ensures
        r == ident_start(c),
{
    char_is_alphabetic(c) || c == '_'
}

pub(crate) fn is_ident_cont(c: char) -> (r: bool)
    ensures
        r == ident_cont(c),
{
    char_is_alphanumeric(c) || char_is_alphabetic(c) || c == '_'
}

/// Number of bytes in the UTF-8 encoding of one character.
pub open spec fn char_len(c: char) -> nat {
    encode_scalar(c as u32).len()
}

/// Byte offset of the character at position `i` of the text: the length in
/// bytes of the UTF-8 encoding of the first `i` characters. At `i == s.len()`
/// this is the byte length of the whole text.
pub open spec fn byte_off(s: Seq<char>, i: int) -> nat
    recommends
        0 <= i <= s.len(),
{
    encode_utf8(s.take(i)).len()
}

/// Byte length of the whole character sequence under UTF-8.
pub open spec fn byte_total(s: Seq<char>) -> nat {
    byte_off(s, s.len() as int)
}

/// Relies on `str::len`: the length of a string slice is the number of bytes
/// of its UTF-8 encoding, and it is returned as a `usize`.
#[verifier::external_body]
pub(crate) fn str_byte_len(s: &str) -> (n: usize)
    ensures
        n as nat == byte_total(s@),
{
    s.len()
}

/// Number of bytes of one character's UTF-8 encoding, computed from its
/// scalar value.
pub(crate) fn char_width(c: char) -> (n: usize)
    ensures
        n as nat == char_len(c),
{
    proof {
        vstd::utf8::char_is_scalar(c);
    }
    let u = c as u32;
    if u < 0x80 {
        1
    } else if u < 0x800 {
        2
    } else if u < 0x10000 {
        3
    } else {
        4
    }
}

/// Every character occupies between one and four bytes under UTF-8.
pub proof fn lemma_char_len_bounds(c: char)
    ensures
        1 <= char_len(c) <= 4,
{
}

proof fn lemma_encode_utf8_push(t: Seq<char>, c: char)
    ensures
        encode_utf8(t.push(c)) == encode_utf8(t) + encode_scalar(c as u32),
    decreases t.len(),
{
    if t.len() == 0 {
        assert(t.push(c)[0] == c);
        assert(t.push(c).drop_first() =~= Seq::<char>::empty());
        assert(t =~= Seq::<char>::empty());
        assert(encode_utf8(t.push(c)) =~= encode_utf8(t) + encode_scalar(c as u32));
    } else {
        assert(t.push(c)[0] == t[0]);
        assert(t.push(c).drop_first() =~= t.drop_first().push(c));
        lemma_encode_utf8_push(t.drop_first(), c);
        assert(encode_utf8(t.push(c)) =~= encode_utf8(t) + encode_scalar(c as u32));
    }
}

/// Stepping past the character at position `i` moves the byte offset forward
/// by exactly that character's encoded length.
pub proof fn lemma_byte_off_step(s: Seq<char>, i: int)
    requires
        0 <= i < s.len(),
    ensures
        byte_off(s, i + 1) == byte_off(s, i) + char_len(s[i]),
{
    assert(s.take(i + 1) =~= s.take(i).push(s[i]));
    lemma_encode_utf8_push(s.take(i), s[i]);
}

/// Byte offsets grow strictly with the character position.
pub proof fn lemma_byte_off_mono(s: Seq<char>, i: int, j: int)
    requires
        0 <= i <= j <= s.len(),
    ensures
        byte_off(s, i) <= byte_off(s, j),
        i < j ==> byte_off(s, i) < byte_off(s, j),
    decreases j - i,
{
    if i < j {
        lemma_byte_off_step(s, j - 1);
        lemma_char_len_bounds(s[j - 1]);
        lemma_byte_off_mono(s, i, j - 1);
    }
}

/// The byte offset of the first character is zero.
pub proof fn lemma_byte_off_zero(s: Seq<char>)
    ensures
        byte_off(s, 0) == 0,
{
    assert(s.take(0) =~= Seq::<char>::empty());
}

} // verus!
