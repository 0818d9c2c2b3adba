//! The checking pipeline: dictionaries from word lists, and typos from lines.
pub mod file_utils;
pub mod options;
pub mod parse_variables;
pub mod stats;

use vstd::prelude::*;

use crate::text::byte_len;
use crate::trie::Trie;
use vstd::string::StringExecFns;
use file_utils::{get_words_from_line, views_of, words_of};
use options::Options;
use parse_variables::{decompose, decompose_word};
use stats::CheckStats;

verus! {

/// A reported typo: the word as checked, and the zero-based number of its line.
pub struct Typo {
    pub word: String,
    pub line: usize,
}

impl View for Typo {
    type V = (Seq<char>, int);

    open spec fn view(&self) -> (Seq<char>, int) {
        (self.word@, self.line as int)
    }
}

pub open spec fn typo_views(v: Seq<Typo>) -> Seq<(Seq<char>, int)> {
    v.map_values(|t: Typo| t@)
}

/// Whether a line of a word list enters a dictionary. With an ignore list
/// (the word-list dictionary) its length in bytes is in `[min, max]` and it
/// is not ignored; without one (the ignore list itself) it has at least 3 bytes.
pub open spec fn admits(w: Seq<char>, ignore: Option<Set<Seq<char>>>, min: int, max: int) -> bool {
    match ignore {
        Some(ig) => min <= byte_len(w) <= max && !ig.contains(w),
        None => byte_len(w) >= 3,
    }
}

/// The lines of a word list that enter a dictionary.
pub open spec fn admitted(
    lines: Seq<Seq<char>>,
    ignore: Option<Set<Seq<char>>>,
    min: int,
    max: int,
) -> Set<Seq<char>> {
    Set::new(|w: Seq<char>| exists|i: int| 0 <= i < lines.len() && lines[i] == w && admits(w, ignore, min, max))
}

/// A word may be reported: its length in bytes is in `[min, max]` and it is not ignored.
pub open spec fn eligible(w: Seq<char>, ignore: Set<Seq<char>>, min: int, max: int) -> bool {
    min <= byte_len(w) <= max && !ignore.contains(w)
}

pub open spec fn is_typo(
    w: Seq<char>,
    dict: Set<Seq<char>>,
    ignore: Set<Seq<char>>,
    min: int,
    max: int,
) -> bool {
    !dict.contains(w) && eligible(w, ignore, min, max)
}

/// The words of `ws` that are typos, in order.
pub open spec fn reported(
    ws: Seq<Seq<char>>,
    dict: Set<Seq<char>>,
    ignore: Set<Seq<char>>,
    min: int,
    max: int,
) -> Seq<Seq<char>>
    decreases ws.len(),
{
    if ws.len() == 0 {
        Seq::empty()
    } else {
        let r = reported(ws.drop_last(), dict, ignore, min, max);
        if is_typo(ws.last(), dict, ignore, min, max) {
            r.push(ws.last())
        } else {
            r
        }
    }
}

/// The typos among the decomposed words of `tokens`, in order.
pub open spec fn token_typos(
    tokens: Seq<Seq<char>>,
    dict: Set<Seq<char>>,
    ignore: Set<Seq<char>>,
    min: int,
    max: int,
) -> Seq<Seq<char>>
    decreases tokens.len(),
{
    if tokens.len() == 0 {
        Seq::empty()
    } else {
        token_typos(tokens.drop_last(), dict, ignore, min, max) + reported(
            decompose(tokens.last()),
            dict,
            ignore,
            min,
            max,
        )
    }
}

/// The typos of one line, in order.
pub open spec fn line_typos(
    line: Seq<char>,
    dict: Set<Seq<char>>,
    ignore: Set<Seq<char>>,
    min: int,
    max: int,
) -> Seq<Seq<char>> {
    token_typos(words_of(line), dict, ignore, min, max)
}

pub open spec fn at_line(ws: Seq<Seq<char>>, n: int) -> Seq<(Seq<char>, int)> {
    ws.map_values(|w: Seq<char>| (w, n))
}

/// The typos of a sequence of lines, each with the number of its line, in order.
pub open spec fn lines_typos(
    lines: Seq<Seq<char>>,
    dict: Set<Seq<char>>,
    ignore: Set<Seq<char>>,
    min: int,
    max: int,
) -> Seq<(Seq<char>, int)>
    decreases lines.len(),
{
    if lines.len() == 0 {
        Seq::empty()
    } else {
        lines_typos(lines.drop_last(), dict, ignore, min, max) + at_line(
            line_typos(lines.last(), dict, ignore, min, max),
            lines.len() - 1,
        )
    }
}

pub open spec fn ignore_view(ignore_list: Option<&Trie>) -> Option<Set<Seq<char>>> {
    match ignore_list {
        Some(t) => Some(t@),
        None => None,
    }
}

proof fn lemma_reported_are_typos(
    ws: Seq<Seq<char>>,
    dict: Set<Seq<char>>,
    ignore: Set<Seq<char>>,
    min: int,
    max: int,
)
    ensures
        forall|k: int|
            0 <= k < reported(ws, dict, ignore, min, max).len() ==> is_typo(
                #[trigger] reported(ws, dict, ignore, min, max)[k],
                dict,
                ignore,
                min,
                max,
            ),
    decreases ws.len(),
{
    if ws.len() > 0 {
        let r = reported(ws.drop_last(), dict, ignore, min, max);
        lemma_reported_are_typos(ws.drop_last(), dict, ignore, min, max);
        assert forall|k: int| 0 <= k < reported(ws, dict, ignore, min, max).len() implies is_typo(
            #[trigger] reported(ws, dict, ignore, min, max)[k],
            dict,
            ignore,
            min,
            max,
        ) by {
            if k < r.len() {
                assert(reported(ws, dict, ignore, min, max)[k] == r[k]);
            }
        }
    }
}

proof fn lemma_token_typos_are_typos(
    tokens: Seq<Seq<char>>,
    dict: Set<Seq<char>>,
    ignore: Set<Seq<char>>,
    min: int,
    max: int,
)
    ensures
        forall|k: int|
            0 <= k < token_typos(tokens, dict, ignore, min, max).len() ==> is_typo(
                #[trigger] token_typos(tokens, dict, ignore, min, max)[k],
                dict,
                ignore,
                min,
                max,
            ),
    decreases tokens.len(),
{
    if tokens.len() > 0 {
        let a = token_typos(tokens.drop_last(), dict, ignore, min, max);
        let b = reported(decompose(tokens.last()), dict, ignore, min, max);
        lemma_token_typos_are_typos(tokens.drop_last(), dict, ignore, min, max);
        lemma_reported_are_typos(decompose(tokens.last()), dict, ignore, min, max);
        assert forall|k: int| 0 <= k < (a + b).len() implies is_typo(#[trigger] (a + b)[k], dict, ignore, min, max) by {
            if k >= a.len() {
                assert((a + b)[k] == b[k - a.len()]);
            }
        }
    }
}

proof fn lemma_lines_typos_are_typos(
    lines: Seq<Seq<char>>,
    dict: Set<Seq<char>>,
    ignore: Set<Seq<char>>,
    min: int,
    max: int,
)
    ensures
        forall|k: int|
            0 <= k < lines_typos(lines, dict, ignore, min, max).len() ==> is_typo(
                (#[trigger] lines_typos(lines, dict, ignore, min, max)[k]).0,
                dict,
                ignore,
                min,
                max,
            ),
    decreases lines.len(),
{
    if lines.len() > 0 {
        let a = lines_typos(lines.drop_last(), dict, ignore, min, max);
        let t = line_typos(lines.last(), dict, ignore, min, max);
        let b = at_line(t, lines.len() - 1);
        lemma_lines_typos_are_typos(lines.drop_last(), dict, ignore, min, max);
        lemma_token_typos_are_typos(words_of(lines.last()), dict, ignore, min, max);
        assert forall|k: int| 0 <= k < (a + b).len() implies is_typo(
            (#[trigger] (a + b)[k]).0,
            dict,
            ignore,
            min,
            max,
        ) by {
            if k >= a.len() {
                assert((a + b)[k] == b[k - a.len()]);
                assert(b[k - a.len()].0 == t[k - a.len()]);
            }
        }
    }
}

/// A word shorter than `min` or longer than `max` (in bytes) is never
/// reported as a typo, whether or not the dictionary holds it.
pub proof fn lemma_reported_within_bounds(
    lines: Seq<Seq<char>>,
    dict: Set<Seq<char>>,
    ignore: Set<Seq<char>>,
    min: int,
    max: int,
)
    ensures
        forall|k: int|
            0 <= k < lines_typos(lines, dict, ignore, min, max).len() ==> min <= byte_len(
                (#[trigger] lines_typos(lines, dict, ignore, min, max)[k]).0,
            ) <= max,
{
    lemma_lines_typos_are_typos(lines, dict, ignore, min, max);
}

/// A word on the ignore list is never reported as a typo, even when the
/// dictionary does not hold it; nor is a word that the dictionary holds.
pub proof fn lemma_ignored_never_reported(
    lines: Seq<Seq<char>>,
    dict: Set<Seq<char>>,
    ignore: Set<Seq<char>>,
    min: int,
    max: int,
)
    ensures
        forall|k: int|
            0 <= k < lines_typos(lines, dict, ignore, min, max).len() ==> {
                let w = (#[trigger] lines_typos(lines, dict, ignore, min, max)[k]).0;
                !ignore.contains(w) && !dict.contains(w)
            },
{
    lemma_lines_typos_are_typos(lines, dict, ignore, min, max);
}

/// Running the checker again on the same inputs changes nothing. Each run
/// feeds the ignore lists into the ignore dictionary, then the word lists
/// (filtered by it) into the word dictionary; a second run over the tries
/// that the first one left yields the same two sets, and so the same typos,
/// with the same line numbers and in the same order, for every target.
pub proof fn lemma_second_run_same(
    ignore0: Set<Seq<char>>,
    dict0: Set<Seq<char>>,
    ignore_lines: Seq<Seq<char>>,
    word_lines: Seq<Seq<char>>,
    target: Seq<Seq<char>>,
    min: int,
    max: int,
)
    ensures
        ({
            let ignore1 = ignore0.union(admitted(ignore_lines, None, min, max));
            let dict1 = dict0.union(admitted(word_lines, Some(ignore1), min, max));
            let ignore2 = ignore1.union(admitted(ignore_lines, None, min, max));
            let dict2 = dict1.union(admitted(word_lines, Some(ignore2), min, max));
            &&& ignore2 == ignore1
            &&& dict2 == dict1
            &&& lines_typos(target, dict2, ignore2, min, max) == lines_typos(
                target,
                dict1,
                ignore1,
                min,
                max,
            )
        }),
{
    let ignore1 = ignore0.union(admitted(ignore_lines, None, min, max));
    let dict1 = dict0.union(admitted(word_lines, Some(ignore1), min, max));
    let ignore2 = ignore1.union(admitted(ignore_lines, None, min, max));
    assert(ignore2 =~= ignore1);
    let dict2 = dict1.union(admitted(word_lines, Some(ignore2), min, max));
    assert(dict2 =~= dict1);
}

/// Inserts into `trie` each line of a word list that `admits` accepts.
pub fn feed_trie(lines: &Vec<String>, ignore_list: Option<&Trie>, trie: &mut Trie, options: &Options)
    requires
        old(trie).wf(),
        ignore_list matches Some(t) ==> t.wf(),
    ensures
        final(trie).wf(),
        final(trie)@ == old(trie)@.union(
            admitted(views_of(lines@), ignore_view(ignore_list), options.min as int, options.max as int),
        ),
{
    let ghost ig = ignore_view(ignore_list);
    let ghost min = options.min as int;
    let ghost max = options.max as int;
    let mut i: usize = 0;
    while i < lines.len()
        invariant
            i <= lines@.len(),
            trie.wf(),
            ignore_list matches Some(t) ==> t.wf(),
            ig == ignore_view(ignore_list),
            min == options.min as int,
            max == options.max as int,
            trie@ == old(trie)@.union(admitted(views_of(lines@).take(i as int), ig, min, max)),
        decreases lines@.len() - i,
    {
        let line = &lines[i];
        let len = line.as_str().as_bytes().len();
        let accepted = match ignore_list {
            Some(ignore_list) => {
                !(len < options.min as usize || len > options.max as usize || ignore_list.search(
                    line.as_str(),
                ))
            },
            None => len >= 3,
        };
        if accepted {
            trie.insert(line.as_str());
        }
        proof {
            let prev = views_of(lines@).take(i as int);
            let next = views_of(lines@).take(i + 1);
            assert(next =~= prev.push(line@));
            assert(accepted == admits(line@, ig, min, max));
            assert forall|w: Seq<char>|
                admitted(next, ig, min, max).contains(w) == (admitted(prev, ig, min, max).contains(w)
                    || (accepted && w == line@)) by {
                if admitted(next, ig, min, max).contains(w) {
                    let j = choose|j: int| 0 <= j < next.len() && next[j] == w && admits(w, ig, min, max);
                    if j < prev.len() {
                        assert(prev[j] == w);
                    }
                }
                if admitted(prev, ig, min, max).contains(w) {
                    let j = choose|j: int| 0 <= j < prev.len() && prev[j] == w && admits(w, ig, min, max);
                    assert(next[j] == w);
                }
                if accepted && w == line@ {
                    assert(next[i as int] == w);
                }
            }
            assert(trie@ =~= old(trie)@.union(admitted(next, ig, min, max)));
        }
        i = i + 1;
    }
    assert(views_of(lines@).take(i as int) =~= views_of(lines@));
}

/// Whether `word` may be reported: its length in bytes is in `[min, max]` and it is not ignored.
pub fn is_word_correct(word: &str, ignore_list: &Trie, options: &Options) -> (r: bool)
    requires
        ignore_list.wf(),
    ensures
        r == eligible(word@, ignore_list@, options.min as int, options.max as int),
{
    let len = word.as_bytes().len();
    if len < options.min as usize || len > options.max as usize || ignore_list.search(word) {
        return false;
    }
    true
}

/// Records `word` at `line_num` when it is a typo.
pub fn check_word(
    word: &str,
    trie: &Trie,
    ignore_list: &Trie,
    typos: &mut Vec<Typo>,
    options: &Options,
    line_num: usize,
)
    requires
        trie.wf(),
        ignore_list.wf(),
    ensures
        typo_views(final(typos)@) == typo_views(old(typos)@) + if is_typo(
            word@,
            trie@,
            ignore_list@,
            options.min as int,
            options.max as int,
        ) {
            seq![(word@, line_num as int)]
        } else {
            Seq::empty()
        },
{
    if !trie.search(word) && is_word_correct(word, ignore_list, options) {
        typos.push(Typo { word: String::from_str(word), line: line_num });
        assert(typo_views(typos@) =~= typo_views(old(typos)@) + seq![(word@, line_num as int)]);
    } else {
        assert(typo_views(typos@) =~= typo_views(old(typos)@) + Seq::empty());
    }
}

/// Records the typos of `line`, numbered `line_num`, in order.
pub fn check_line(
    line: &str,
    line_num: usize,
    trie: &Trie,
    ignore_list: &Trie,
    options: &Options,
    typos: &mut Vec<Typo>,
)
    requires
        trie.wf(),
        ignore_list.wf(),
    ensures
        typo_views(final(typos)@) == typo_views(old(typos)@) + at_line(
            line_typos(line@, trie@, ignore_list@, options.min as int, options.max as int),
            line_num as int,
        ),
{
    let ghost dict = trie@;
    let ghost ig = ignore_list@;
    let ghost min = options.min as int;
    let ghost max = options.max as int;
    let ghost n = line_num as int;
    let words = get_words_from_line(line);
    let mut i: usize = 0;
    while i < words.len()
        invariant
            i <= words@.len(),
            trie.wf(),
            ignore_list.wf(),
            dict == trie@,
            ig == ignore_list@,
            min == options.min as int,
            max == options.max as int,
            n == line_num as int,
            views_of(words@) == words_of(line@),
            typo_views(typos@) == typo_views(old(typos)@) + at_line(
                token_typos(views_of(words@).take(i as int), dict, ig, min, max),
                n,
            ),
        decreases words@.len() - i,
    {
        let parts = decompose_word(words[i].as_str());
        let ghost base = typo_views(typos@);
        let ghost done = token_typos(views_of(words@).take(i as int), dict, ig, min, max);
        let mut j: usize = 0;
        while j < parts.len()
            invariant
                j <= parts@.len(),
                trie.wf(),
                ignore_list.wf(),
                dict == trie@,
                ig == ignore_list@,
                min == options.min as int,
                max == options.max as int,
                n == line_num as int,
                base == typo_views(old(typos)@) + at_line(done, n),
                typo_views(typos@) == typo_views(old(typos)@) + at_line(
                    done + reported(views_of(parts@).take(j as int), dict, ig, min, max),
                    n,
                ),
            decreases parts@.len() - j,
        {
            check_word(parts[j].as_str(), trie, ignore_list, typos, options, line_num);
            proof {
                let w = parts@[j as int]@;
                let before = views_of(parts@).take(j as int);
                let after = views_of(parts@).take(j + 1);
                assert(after.drop_last() =~= before);
                assert(after.last() == w);
                if is_typo(w, dict, ig, min, max) {
                    assert(done + reported(after, dict, ig, min, max) =~= (done + reported(
                        before,
                        dict,
                        ig,
                        min,
                        max,
                    )).push(w));
                } else {
                    assert(done + reported(after, dict, ig, min, max) =~= done + reported(
                        before,
                        dict,
                        ig,
                        min,
                        max,
                    ));
                }
                assert(typo_views(typos@) =~= typo_views(old(typos)@) + at_line(
                    done + reported(after, dict, ig, min, max),
                    n,
                ));
            }
            j = j + 1;
        }
        proof {
            let toks = views_of(words@).take(i + 1);
            assert(toks.drop_last() =~= views_of(words@).take(i as int));
            assert(toks.last() == words@[i as int]@);
            assert(views_of(parts@).take(j as int) =~= decompose(words@[i as int]@));
            assert(token_typos(toks, dict, ig, min, max) == done + reported(
                views_of(parts@).take(j as int),
                dict,
                ig,
                min,
                max,
            ));
        }
        i = i + 1;
    }
    assert(views_of(words@).take(i as int) =~= views_of(words@));
}

/// The typos of the lines of one target, each with its zero-based line
/// number, in order; their number is added to `stats.typos_num`, which
/// saturates at `u64::MAX`.
pub fn check_correctness(
    lines: &Vec<String>,
    trie: &Trie,
    ignore_list: &Trie,
    options: &Options,
    stats: &mut CheckStats,
) -> (r: Vec<Typo>)
    requires
        trie.wf(),
        ignore_list.wf(),
    ensures
        typo_views(r@) == lines_typos(
            views_of(lines@),
            trie@,
            ignore_list@,
            options.min as int,
            options.max as int,
        ),
        final(stats).typos_num as int == if old(stats).typos_num + r@.len() <= u64::MAX {
            old(stats).typos_num + r@.len()
        } else {
            u64::MAX as int
        },
        final(stats).files_checked == old(stats).files_checked,
        final(stats).dirs_checked == old(stats).dirs_checked,
        final(stats).errors == old(stats).errors,
{
    let ghost dict = trie@;
    let ghost ig = ignore_list@;
    let ghost min = options.min as int;
    let ghost max = options.max as int;
    let mut typos: Vec<Typo> = Vec::new();
    let mut num: usize = 0;
    while num < lines.len()
        invariant
            num <= lines@.len(),
            trie.wf(),
            ignore_list.wf(),
            dict == trie@,
            ig == ignore_list@,
            min == options.min as int,
            max == options.max as int,
            typo_views(typos@) == lines_typos(views_of(lines@).take(num as int), dict, ig, min, max),
        decreases lines@.len() - num,
    {
        check_line(lines[num].as_str(), num, trie, ignore_list, options, &mut typos);
        proof {
            let ls = views_of(lines@).take(num + 1);
            assert(ls.drop_last() =~= views_of(lines@).take(num as int));
            assert(ls.last() == lines@[num as int]@);
        }
        num = num + 1;
    }
    assert(views_of(lines@).take(num as int) =~= views_of(lines@));
    let count = typos.len() as u64;
    stats.typos_num = stats.typos_num.saturating_add(count);
    typos
}

/// Whether a file is left out of a run: it is one of the excluded paths,
/// its extension is excluded, or extensions to check are given and its own
/// is not one of them (a file without an extension is then left out too).
pub open spec fn skipped(
    file: Seq<char>,
    excluded: Seq<Seq<char>>,
    extension: Option<Seq<char>>,
    extensions: Seq<Seq<char>>,
    extensions_to_exclude: Seq<Seq<char>>,
) -> bool {
    excluded.contains(file) || match extension {
        Some(e) => extensions_to_exclude.contains(e) || (extensions.len() > 0 && !extensions.contains(e)),
        None => extensions.len() > 0,
    }
}

fn contains_string(v: &Vec<String>, s: &String) -> (r: bool)
    ensures
        r == views_of(v@).contains(s@),
{
    let mut i: usize = 0;
    while i < v.len()
        invariant
            i <= v@.len(),
            forall|j: int| 0 <= j < i ==> v@[j]@ != s@,
        decreases v@.len() - i,
    {
        if v[i] == *s {
            assert(views_of(v@)[i as int] == s@);
            return true;
        }
        i = i + 1;
    }
    assert forall|j: int| 0 <= j < views_of(v@).len() implies views_of(v@)[j] != s@ by {
        assert(views_of(v@)[j] == v@[j]@);
    }
    false
}

/// Whether the file whose canonical path is `file`, with the given
/// extension, is left out of the run; `excluded` holds the canonical forms
/// of the excluded paths.
pub fn skip_file(file: &String, excluded: &Vec<String>, extension: Option<&String>, options: &Options) -> (r: bool)
    ensures
        r == skipped(
            file@,
            views_of(excluded@),
            match extension {
                Some(e) => Some(e@),
                None => None,
            },
            views_of(options.extensions@),
            views_of(options.extensions_to_exclude@),
        ),
{
    if contains_string(excluded, file) {
        return true;
    }
    match extension {
        Some(extension) => {
            if contains_string(&options.extensions_to_exclude, extension) {
                return true;
            }
            if options.extensions.len() > 0 && !contains_string(&options.extensions, extension) {
                return true;
            }
        },
        None => {
            if options.extensions.len() > 0 {
                return true;
            }
        },
    }
    false
}

} // verus!
