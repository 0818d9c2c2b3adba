//! Splitting a line of text into candidate words.
use vstd::prelude::*;

use crate::text::{chars_of, char_is_digit, char_is_lower, char_is_upper, is_alpha, is_digit, string_of};

verus! {

/// Characters that make up a word: ASCII letters and digits, and underscore.
pub open spec fn is_word_char(c: char) -> bool {
    is_alpha(c) || is_digit(c) || c == '_'
}

/// `s` holds an ASCII letter.
pub open spec fn has_alpha(s: Seq<char>) -> bool {
    exists|i: int| 0 <= i < s.len() && is_alpha(#[trigger] s[i])
}

/// Closes a run: it becomes a word only if it holds an ASCII letter.
pub open spec fn close_run(words: Seq<Seq<char>>, run: Seq<char>) -> Seq<Seq<char>> {
    if has_alpha(run) {
        words.push(run)
    } else {
        words
    }
}

/// Scanning `s` from the left: the words closed so far and the open run.
pub open spec fn scan_words(s: Seq<char>) -> (Seq<Seq<char>>, Seq<char>)
    decreases s.len(),
{
    if s.len() == 0 {
        (Seq::empty(), Seq::empty())
    } else {
        let (words, run) = scan_words(s.drop_last());
        if is_word_char(s.last()) {
            (words, run.push(s.last()))
        } else {
            (close_run(words, run), Seq::empty())
        }
    }
}

/// The words of a line: its maximal runs of word characters that hold an
/// ASCII letter, left to right.
pub open spec fn words_of(s: Seq<char>) -> Seq<Seq<char>> {
    close_run(scan_words(s).0, scan_words(s).1)
}

/// `s[a..b]` is a maximal run of word characters of `s`: non-empty, made of
/// word characters, and bounded on each side by the end of `s` or a
/// character that is not a word character.
pub open spec fn maximal_run(s: Seq<char>, a: int, b: int) -> bool {
    &&& 0 <= a < b <= s.len()
    &&& forall|i: int| a <= i < b ==> is_word_char(#[trigger] s[i])
    &&& (a == 0 || !is_word_char(s[a - 1]))
    &&& (b == s.len() || !is_word_char(s[b]))
}

/// The open run of a scan is a suffix of `s` made of word characters, that
/// starts at the start of `s` or after a character that is not one.
spec fn open_run_ok(s: Seq<char>, run: Seq<char>) -> bool {
    &&& run.len() <= s.len()
    &&& run == s.subrange(s.len() - run.len(), s.len() as int)
    &&& forall|i: int| s.len() - run.len() <= i < s.len() ==> is_word_char(#[trigger] s[i])
    &&& (run.len() == s.len() || !is_word_char(s[s.len() - run.len() - 1]))
}

/// Each word is a maximal run of `s` that holds an ASCII letter; with
/// `closed`, one that a later character of `s` has ended.
spec fn runs_ok(s: Seq<char>, ws: Seq<Seq<char>>, closed: bool) -> bool {
    forall|k: int|
        0 <= k < ws.len() ==> has_alpha(#[trigger] ws[k]) && exists|a: int, b: int|
            #[trigger] maximal_run(s, a, b) && (closed ==> b < s.len()) && ws[k] == s.subrange(a, b)
}

proof fn lemma_scan_words_runs(s: Seq<char>)
    ensures
        open_run_ok(s, scan_words(s).1),
        runs_ok(s, scan_words(s).0, true),
    decreases s.len(),
{
    if s.len() == 0 {
        assert(scan_words(s).1 =~= s.subrange(0, 0));
    } else {
        let p = s.drop_last();
        let c = s.last();
        lemma_scan_words_runs(p);
        let (ws, run) = scan_words(p);
        assert forall|k: int| 0 <= k < ws.len() implies has_alpha(#[trigger] ws[k]) && exists|a: int, b: int|
            #[trigger] maximal_run(s, a, b) && (true ==> b < s.len()) && ws[k] == s.subrange(a, b) by {
            assert(runs_ok(p, ws, true));
            assert(has_alpha(ws[k]));
            let (a, b) = choose|a: int, b: int| #[trigger] maximal_run(p, a, b) && (true ==> b < p.len()) && ws[k] == p.subrange(a, b);
            assert(s.subrange(a, b) =~= p.subrange(a, b));
            assert forall|i: int| a <= i < b implies is_word_char(#[trigger] s[i]) by {
                assert(s[i] == p[i]);
            }
            if a != 0 {
                assert(s[a - 1] == p[a - 1]);
            }
            assert(s[b] == p[b]);
            assert(maximal_run(s, a, b));
        }
        assert(runs_ok(s, ws, true));
        if is_word_char(c) {
            let run2 = run.push(c);
            assert(run2 =~= s.subrange(s.len() - run2.len(), s.len() as int));
            assert forall|i: int| s.len() - run2.len() <= i < s.len() implies is_word_char(#[trigger] s[i]) by {
                if i < p.len() {
                    assert(s[i] == p[i]);
                }
            }
            if run2.len() != s.len() {
                assert(s[s.len() - run2.len() - 1] == p[p.len() - run.len() - 1]);
            }
            assert(open_run_ok(s, run2));
        } else {
            assert(Seq::<char>::empty() =~= s.subrange(s.len() as int, s.len() as int));
            assert(open_run_ok(s, Seq::<char>::empty()));
            if has_alpha(run) {
                let a = p.len() - run.len();
                let b = p.len() as int;
                let i0 = choose|i: int| 0 <= i < run.len() && is_alpha(#[trigger] run[i]);
                assert(run.len() > 0);
                assert(s.subrange(a, b) =~= run);
                assert forall|i: int| a <= i < b implies is_word_char(#[trigger] s[i]) by {
                    assert(s[i] == p[i]);
                }
                if a != 0 {
                    assert(s[a - 1] == p[a - 1]);
                }
                assert(maximal_run(s, a, b));
                let ws2 = ws.push(run);
                assert forall|k: int| 0 <= k < ws2.len() implies has_alpha(#[trigger] ws2[k]) && exists|a: int, b: int|
                    #[trigger] maximal_run(s, a, b) && (true ==> b < s.len()) && ws2[k] == s.subrange(a, b) by {
                    if k < ws.len() {
                        assert(ws2[k] == ws[k]);
                    } else {
                        assert(ws2[k] == run);
                        assert(maximal_run(s, a, b) && b < s.len() && ws2[k] == s.subrange(a, b));
                    }
                }
                assert(runs_ok(s, ws2, true));
            }
        }
    }
}

/// Each word of a line is a maximal run of word characters of the line
/// that holds an ASCII letter.
pub proof fn lemma_words_are_maximal_runs(s: Seq<char>)
    ensures
        forall|k: int|
            0 <= k < words_of(s).len() ==> has_alpha(#[trigger] words_of(s)[k]) && exists|a: int, b: int|
                #[trigger] maximal_run(s, a, b) && words_of(s)[k] == s.subrange(a, b),
{
    lemma_scan_words_runs(s);
    let (ws, run) = scan_words(s);
    let w = words_of(s);
    assert forall|k: int| 0 <= k < w.len() implies has_alpha(#[trigger] w[k]) && exists|a: int, b: int|
        #[trigger] maximal_run(s, a, b) && w[k] == s.subrange(a, b) by {
        if k < ws.len() {
            assert(w[k] == ws[k]);
            assert(has_alpha(ws[k]));
            let (a, b) = choose|a: int, b: int| #[trigger] maximal_run(s, a, b) && (true ==> b < s.len()) && ws[k] == s.subrange(a, b);
            assert(maximal_run(s, a, b) && w[k] == s.subrange(a, b));
        } else {
            let a = s.len() - run.len();
            let b = s.len() as int;
            assert(has_alpha(run));
            assert(w[k] == run);
            let i0 = choose|i: int| 0 <= i < run.len() && is_alpha(#[trigger] run[i]);
            assert(run.len() > 0);
            assert(maximal_run(s, a, b) && w[k] == s.subrange(a, b));
        }
    }
}

pub open spec fn views_of(v: Seq<String>) -> Seq<Seq<char>> {
    v.map_values(|s: String| s@)
}

/// Whether `ch` is an ASCII letter, an ASCII digit or an underscore.
pub fn is_char_valid(ch: &char) -> (r: bool)
    ensures
        r == is_word_char(*ch),
{
    char_is_lower(*ch) || char_is_upper(*ch) || char_is_digit(*ch) || *ch == '_'
}

/// The words of `line`, in order of occurrence: maximal runs of ASCII
/// letters, ASCII digits and underscores that hold an ASCII letter.
pub fn get_words_from_line(line: &str) -> (r: Vec<String>)
    ensures
        views_of(r@) == words_of(line@),
{
    let chars = chars_of(line);
    let mut word_vec: Vec<String> = Vec::new();
    let mut current_word: Vec<char> = Vec::new();
    let mut has_letter = false;
    let mut i: usize = 0;
    while i < chars.len()
        invariant
            i <= chars@.len(),
            chars@ == line@,
            (views_of(word_vec@), current_word@) == scan_words(chars@.take(i as int)),
            has_letter == has_alpha(current_word@),
        decreases chars@.len() - i,
    {
        let ch = chars[i];
        assert(chars@.take(i + 1).drop_last() =~= chars@.take(i as int));
        if is_char_valid(&ch) {
            let ghost run = current_word@;
            current_word.push(ch);
            if char_is_lower(ch) || char_is_upper(ch) {
                has_letter = true;
                assert(current_word@[run.len() as int] == ch);
            }
            assert(has_letter == has_alpha(current_word@)) by {
                if has_alpha(current_word@) {
                    let j = choose|j: int| 0 <= j < current_word@.len() && is_alpha(#[trigger] current_word@[j]);
                    if j < run.len() {
                        assert(run[j] == current_word@[j]);
                    }
                }
                if has_alpha(run) {
                    let j = choose|j: int| 0 <= j < run.len() && is_alpha(#[trigger] run[j]);
                    assert(current_word@[j] == run[j]);
                }
            }
        } else {
            if has_letter {
                word_vec.push(string_of(&current_word));
            }
            assert(views_of(word_vec@) =~= close_run(scan_words(chars@.take(i as int)).0, current_word@));
            current_word = Vec::new();
            has_letter = false;
            assert(!has_alpha(current_word@));
        }
        i = i + 1;
    }
    assert(chars@.take(i as int) =~= line@);
    if has_letter {
        word_vec.push(string_of(&current_word));
    }
    assert(views_of(word_vec@) =~= words_of(line@));
    word_vec
}

} // verus!
