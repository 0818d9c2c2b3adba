//! Recognising camelCase and snake_case identifiers and splitting them into words.
use vstd::prelude::*;

use crate::spell_checker::file_utils::views_of;
use crate::text::{
    alphabetic, chars_of, char_is_alphabetic, char_is_digit, char_is_lowercase, char_is_uppercase,
    is_digit, lower_string, lowercase, lowercased, uppercase,
};

verus! {

/// An upper-case letter as the camelCase test sees it: upper case and not
/// also lower case (lower case is tested first).
pub open spec fn capital(c: char) -> bool {
    uppercase(c) && !lowercase(c)
}

/// A camelCase identifier: a lower-case and an upper-case letter, no two
/// upper-case letters side by side, and nothing but letters (lower or upper
/// case) and ASCII digits. Letter cases are Unicode's.
pub open spec fn camel_ok(s: Seq<char>) -> bool {
    &&& exists|i: int| 0 <= i < s.len() && lowercase(#[trigger] s[i])
    &&& exists|i: int| 0 <= i < s.len() && capital(#[trigger] s[i])
    &&& forall|i: int| 0 <= i < s.len() ==> lowercase(#[trigger] s[i]) || uppercase(s[i]) || is_digit(s[i])
    &&& forall|i: int| 0 < i < s.len() ==> !(capital(#[trigger] s[i - 1]) && capital(s[i]))
}

/// A snake_case identifier: an underscore and an alphabetic character
/// (Unicode's `Alphabetic`), and no underscore at either end.
pub open spec fn snake_ok(s: Seq<char>) -> bool {
    &&& s.contains('_')
    &&& exists|i: int| 0 <= i < s.len() && alphabetic(#[trigger] s[i])
    &&& s[0] != '_'
    &&& s.last() != '_'
}

/// Scanning `s` from the left, starting a new segment before each
/// upper-case letter that follows a non-empty one: the segments closed so far and the open one.
pub open spec fn scan_camel(s: Seq<char>) -> (Seq<Seq<char>>, Seq<char>)
    decreases s.len(),
{
    if s.len() == 0 {
        (Seq::empty(), Seq::empty())
    } else {
        let (segs, buf) = scan_camel(s.drop_last());
        if uppercase(s.last()) && buf.len() > 0 {
            (segs.push(lowercased(buf)), seq![s.last()])
        } else {
            (segs, buf.push(s.last()))
        }
    }
}

/// The segments of a camelCase identifier, lower-cased.
pub open spec fn camel_split(s: Seq<char>) -> Seq<Seq<char>> {
    let (segs, buf) = scan_camel(s);
    if buf.len() > 0 {
        segs.push(lowercased(buf))
    } else {
        segs
    }
}

/// Scanning `s` from the left, cutting at each underscore: the lower-cased
/// pieces closed so far and the open one.
pub open spec fn scan_snake(s: Seq<char>) -> (Seq<Seq<char>>, Seq<char>)
    decreases s.len(),
{
    if s.len() == 0 {
        (Seq::empty(), Seq::empty())
    } else {
        let (pieces, cur) = scan_snake(s.drop_last());
        if s.last() == '_' {
            (pieces.push(lowercased(cur)), Seq::empty())
        } else {
            (pieces, cur.push(s.last()))
        }
    }
}

/// The pieces between underscores, lower-cased, empty ones included.
pub open spec fn snake_split(s: Seq<char>) -> Seq<Seq<char>> {
    scan_snake(s).0.push(lowercased(scan_snake(s).1))
}

/// The words that a token stands for: its camelCase segments, else its
/// snake_case pieces, else the token itself with its lower-cased.
pub open spec fn decompose(t: Seq<char>) -> Seq<Seq<char>> {
    if camel_ok(t) {
        camel_split(t)
    } else if snake_ok(t) {
        snake_split(t)
    } else {
        seq![lowercased(t)]
    }
}

/// Whether `str` is a camelCase identifier, by Unicode's letter cases.
pub fn is_camel_case(str: &str) -> (r: bool)
    ensures
        r == camel_ok(str@),
{
    let s = chars_of(str);
    let mut lower_case_found = false;
    let mut upper_case_found = false;
    let mut was_previous_upper = false;
    let mut i: usize = 0;
    while i < s.len()
        invariant
            i <= s@.len(),
            s@ == str@,
            lower_case_found == exists|j: int| 0 <= j < i && lowercase(#[trigger] s@[j]),
            upper_case_found == exists|j: int| 0 <= j < i && capital(#[trigger] s@[j]),
            forall|j: int| 0 <= j < i ==> lowercase(#[trigger] s@[j]) || uppercase(s@[j]) || is_digit(s@[j]),
            forall|j: int| 0 < j < i ==> !(capital(#[trigger] s@[j - 1]) && capital(s@[j])),
            was_previous_upper == (i > 0 && capital(s@[i - 1])),
        decreases s@.len() - i,
    {
        let ch = s[i];
        if char_is_lowercase(ch) {
            was_previous_upper = false;
            lower_case_found = true;
        } else if char_is_uppercase(ch) {
            if was_previous_upper {
                assert(capital(s@[i as int - 1]) && capital(s@[i as int]));
                return false;
            }
            was_previous_upper = true;
            upper_case_found = true;
        } else if char_is_digit(ch) {
            was_previous_upper = false;
        } else {
            assert(!(lowercase(s@[i as int]) || uppercase(s@[i as int]) || is_digit(s@[i as int])));
            return false;
        }
        i = i + 1;
    }
    lower_case_found && upper_case_found
}

/// Whether `str` is a snake_case identifier, by Unicode's `Alphabetic`.
pub fn is_snake_case(str: &str) -> (r: bool)
    ensures
        r == snake_ok(str@),
{
    let s = chars_of(str);
    let mut underscore = false;
    let mut letter = false;
    let mut i: usize = 0;
    while i < s.len()
        invariant
            i <= s@.len(),
            s@ == str@,
            underscore == exists|j: int| 0 <= j < i && #[trigger] s@[j] == '_',
            letter == exists|j: int| 0 <= j < i && alphabetic(#[trigger] s@[j]),
        decreases s@.len() - i,
    {
        let ch = s[i];
        if ch == '_' {
            underscore = true;
        }
        if char_is_alphabetic(ch) {
            letter = true;
        }
        i = i + 1;
    }
    if underscore {
        let ghost j = choose|j: int| 0 <= j < s@.len() && #[trigger] s@[j] == '_';
        assert(s@.contains('_'));
    } else {
        assert(!s@.contains('_'));
    }
    underscore && letter && s[0] != '_' && s[s.len() - 1] != '_'
}

/// The segments of a camelCase identifier, lower-cased, or
/// `None` for any other string.
pub fn parse_camel_case(str: &str) -> (r: Option<Vec<String>>)
    ensures
        r is Some <==> camel_ok(str@),
        r matches Some(v) ==> views_of(v@) == camel_split(str@),
{
    if !is_camel_case(str) {
        return None;
    }
    let s = chars_of(str);
    let mut result: Vec<String> = Vec::new();
    let mut buffer: Vec<char> = Vec::new();
    let mut i: usize = 0;
    while i < s.len()
        invariant
            i <= s@.len(),
            s@ == str@,
            (views_of(result@), buffer@) == scan_camel(s@.take(i as int)),
        decreases s@.len() - i,
    {
        let ch = s[i];
        assert(s@.take(i + 1).drop_last() =~= s@.take(i as int));
        if char_is_uppercase(ch) && buffer.len() > 0 {
            result.push(lower_string(&buffer));
            buffer = Vec::new();
            assert(views_of(result@) =~= scan_camel(s@.take(i + 1)).0);
        }
        buffer.push(ch);
        assert(buffer@ =~= scan_camel(s@.take(i + 1)).1);
        i = i + 1;
    }
    assert(s@.take(i as int) =~= str@);
    if buffer.len() > 0 {
        result.push(lower_string(&buffer));
    }
    assert(views_of(result@) =~= camel_split(str@));
    Some(result)
}

/// The pieces of a snake_case identifier, lower-cased, or
/// `None` for any other string.
pub fn parse_snake_case(str: &str) -> (r: Option<Vec<String>>)
    ensures
        r is Some <==> snake_ok(str@),
        r matches Some(v) ==> views_of(v@) == snake_split(str@),
{
    if !is_snake_case(str) {
        return None;
    }
    let s = chars_of(str);
    let mut result: Vec<String> = Vec::new();
    let mut piece: Vec<char> = Vec::new();
    let mut i: usize = 0;
    while i < s.len()
        invariant
            i <= s@.len(),
            s@ == str@,
            (views_of(result@), piece@) == scan_snake(s@.take(i as int)),
        decreases s@.len() - i,
    {
        let ch = s[i];
        assert(s@.take(i + 1).drop_last() =~= s@.take(i as int));
        if ch == '_' {
            result.push(lower_string(&piece));
            piece = Vec::new();
            assert(views_of(result@) =~= scan_snake(s@.take(i + 1)).0);
        } else {
            piece.push(ch);
        }
        assert(piece@ =~= scan_snake(s@.take(i + 1)).1);
        i = i + 1;
    }
    assert(s@.take(i as int) =~= str@);
    result.push(lower_string(&piece));
    assert(views_of(result@) =~= snake_split(str@));
    Some(result)
}

/// The words that `word` stands for: see [`decompose`].
pub fn decompose_word(word: &str) -> (r: Vec<String>)
    ensures
        views_of(r@) == decompose(word@),
{
    if let Some(parts) = parse_camel_case(word) {
        return parts;
    }
    if let Some(parts) = parse_snake_case(word) {
        return parts;
    }
    let chars = chars_of(word);
    let mut r: Vec<String> = Vec::new();
    r.push(lower_string(&chars));
    assert(views_of(r@) =~= seq![lowercased(word@)]);
    r
}

} // verus!
