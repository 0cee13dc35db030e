//! Character classification, case mapping and the few `String` operations
//! the library needs, with what it relies on from std.
use vstd::prelude::*;

verus! {

/// Whether std classifies `c` as alphanumeric (Unicode Alphabetic or Numeric).
pub uninterp spec fn is_alnum(c: char) -> bool;

/// The full lowercase mapping of `c`, as std computes it.
pub uninterp spec fn lower_of(c: char) -> Seq<char>;

/// The Unicode White_Space property.
pub open spec fn is_ws(c: char) -> bool {
    let u = c as int;
    (0x9 <= u <= 0xD) || u == 0x20 || u == 0x85 || u == 0xA0 || u == 0x1680 || (0x2000 <= u
        <= 0x200A) || u == 0x2028 || u == 0x2029 || u == 0x202F || u == 0x205F || u == 0x3000
}

/// Number of bytes of the UTF-8 encoding of `c`.
pub open spec fn utf8_width(c: char) -> nat {
    let u = c as int;
    if u < 0x80 {
        1
    } else if u < 0x800 {
        2
    } else if u < 0x10000 {
        3
    } else {
        4
    }
}

/// Byte offset, in the UTF-8 encoding of `s`, of the char at index `i`.
pub open spec fn byte_offset(s: Seq<char>, i: nat) -> nat
    decreases i,
{
    if i == 0 || s.len() == 0 {
        0
    } else if i > s.len() {
        byte_offset(s, s.len())
    } else {
        byte_offset(s, (i - 1) as nat) + utf8_width(s[i - 1])
    }
}

/// Byte offsets never decrease along the text.
pub proof fn lemma_byte_offset_monotonic(s: Seq<char>, i: nat, j: nat)
    requires
        i <= j <= s.len(),
    ensures
        byte_offset(s, i) <= byte_offset(s, j),
    decreases j - i,
{
    if i < j {
        lemma_byte_offset_monotonic(s, i, (j - 1) as nat);
    }
}

/// Byte offsets strictly increase along the text: every char takes a byte.
pub proof fn lemma_byte_offset_strict(s: Seq<char>, i: nat, j: nat)
    requires
        i < j <= s.len(),
    ensures
        byte_offset(s, i) < byte_offset(s, j),
    decreases j - i,
{
    if i + 1 < j {
        lemma_byte_offset_strict(s, i, (j - 1) as nat);
    }
}

/// Relies on char::is_alphanumeric, which decides the Unicode Alphabetic or
/// Numeric property of one char.
#[verifier::external_body]
pub(crate) fn alphanumeric(c: char) -> (r: bool)
    ensures
        r == is_alnum(c),
{
    c.is_alphanumeric()
}

/// Whether `c` has the Unicode White_Space property, as `char::is_whitespace`
/// decides it.
pub fn whitespace(c: char) -> (r: bool)
    ensures
        r == is_ws(c),
{
    let u = c as u32;
    (0x9 <= u && u <= 0xD) || u == 0x20 || u == 0x85 || u == 0xA0 || u == 0x1680 || (0x2000 <= u
        && u <= 0x200A) || u == 0x2028 || u == 0x2029 || u == 0x202F || u == 0x205F || u == 0x3000
}

/// Relies on char::to_lowercase: the lowercase mapping of one char, which
/// depends on that char alone.
#[verifier::external_body]
pub(crate) fn lowercase(c: char) -> (r: Vec<char>)
    ensures
        r@ == lower_of(c),
{
    c.to_lowercase().collect()
}

/// Relies on str::chars: the chars of the string, in order.
#[verifier::external_body]
pub(crate) fn chars_of(s: &str) -> (r: Vec<char>)
    ensures
        r@ == s@,
{
    s.chars().collect()
}

/// Relies on String::push: appends one char.
#[verifier::external_body]
pub(crate) fn push_char(s: &mut String, c: char)
    ensures
        final(s)@ == old(s)@.push(c),
{
    s.push(c)
}

/// Relies on String::clear: the string becomes empty.
#[verifier::external_body]
pub(crate) fn clear_string(s: &mut String)
    ensures
        final(s)@ == Seq::<char>::empty(),
{
    s.clear()
}

/// Relies on String::len: the length of the UTF-8 encoding, in bytes.
#[verifier::external_body]
pub(crate) fn byte_len(s: &String) -> (r: usize)
    ensures
        r == byte_offset(s@, s@.len()),
{
    s.len()
}

/// Bytes taken by `c` in UTF-8: one for ASCII, up to four.
pub fn utf8_width_of(c: char) -> (r: usize)
    ensures
        r == utf8_width(c),
{
    let u = c as u32;
    if u < 0x80 {
        1
    } else if u < 0x800 {
        2
    } else if u < 0x10000 {
        3
    } else {
        4
    }
}

} // verus!
