//! Character classes (ASCII, and Unicode's through std), lower-casing,
//! and conversions between strings and character vectors.
use vstd::prelude::*;

verus! {

pub open spec fn is_lower(c: char) -> bool {
    'a' <= c && c <= 'z'
}

pub open spec fn is_upper(c: char) -> bool {
    'A' <= c && c <= 'Z'
}

pub open spec fn is_alpha(c: char) -> bool {
    is_lower(c) || is_upper(c)
}

pub open spec fn is_digit(c: char) -> bool {
    '0' <= c && c <= '9'
}

/// The length of `s` in bytes, encoded as UTF-8.
pub open spec fn byte_len(s: Seq<char>) -> int {
    vstd::utf8::encode_utf8(s).len() as int
}

/// Unicode's `Lowercase` property of a character.
pub uninterp spec fn lowercase(c: char) -> bool;

/// Unicode's `Uppercase` property of a character.
pub uninterp spec fn uppercase(c: char) -> bool;

/// Unicode's `Alphabetic` property of a character.
pub uninterp spec fn alphabetic(c: char) -> bool;

/// The Unicode lower-case mapping of a string.
pub uninterp spec fn lowercased(s: Seq<char>) -> Seq<char>;

/// Relies on `char::is_lowercase`: the `Lowercase` property, which among
/// ASCII characters holds of `a` to `z` alone.
#[verifier::external_body]
pub(crate) fn char_is_lowercase(c: char) -> (r: bool)
    ensures
        r == lowercase(c),
        (c as u32) < 128 ==> r == is_lower(c),
{
    c.is_lowercase()
}

/// Relies on `char::is_uppercase`: the `Uppercase` property, which among
/// ASCII characters holds of `A` to `Z` alone.
#[verifier::external_body]
pub(crate) fn char_is_uppercase(c: char) -> (r: bool)
    ensures
        r == uppercase(c),
        (c as u32) < 128 ==> r == is_upper(c),
{
    c.is_uppercase()
}

/// Relies on `char::is_alphabetic`: the `Alphabetic` property, which among
/// ASCII characters holds of the letters alone.
#[verifier::external_body]
pub(crate) fn char_is_alphabetic(c: char) -> (r: bool)
    ensures
        r == alphabetic(c),
        (c as u32) < 128 ==> r == is_alpha(c),
{
    c.is_alphabetic()
}

/// Relies on `str::to_lowercase`: the lower-case mapping, a function of the
/// characters alone.
#[verifier::external_body]
fn to_lowercase(s: &str) -> (r: String)
    ensures
        r@ == lowercased(s@),
{
    s.to_lowercase()
}

pub fn char_is_lower(c: char) -> (r: bool)
    ensures
        r == is_lower(c),
{
    'a' <= c && c <= 'z'
}

pub fn char_is_upper(c: char) -> (r: bool)
    ensures
        r == is_upper(c),
{
    'A' <= c && c <= 'Z'
}

pub fn char_is_digit(c: char) -> (r: bool)
    ensures
        r == is_digit(c),
{
    '0' <= c && c <= '9'
}

/// The characters of `v`, lower-cased, as a string.
pub fn lower_string(v: &Vec<char>) -> (r: String)
    ensures
        r@ == lowercased(v@),
{
    let s = string_of(v);
    to_lowercase(s.as_str())
}

/// The characters of `s`, in order.
pub(crate) fn chars_of(s: &str) -> (r: Vec<char>)
    ensures
        r@ == s@,
{
    broadcast use vstd::string::group_string_axioms;

    let mut r: Vec<char> = Vec::new();
    for c in it: s.chars()
        invariant
            it.seq() == s@,
            r@ == it.seq().take(it.index()),
    {
        r.push(c);
        assert(r@ =~= it.seq().take(it.index() + 1));
    }
    assert(r@ =~= s@);
    r
}

/// Relies on `String: FromIterator<&char>`: the string made of the characters of `v`, in order.
#[verifier::external_body]
pub(crate) fn string_of(v: &Vec<char>) -> (r: String)
    ensures
        r@ == v@,
{
    v.iter().collect()
}

} // verus!
