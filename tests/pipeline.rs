use rscheck::spell_checker::options::Options;
use rscheck::spell_checker::stats::CheckStats;
use rscheck::spell_checker::{
    check_correctness, check_line, check_word, feed_trie, is_word_correct, skip_file, Typo,
};
use rscheck::trie::Trie;

fn lines(v: &[&str]) -> Vec<String> {
    v.iter().map(|s| s.to_string()).collect()
}

fn build(words: &[&str], ignored: &[&str], options: &Options) -> (Trie, Trie) {
    let mut ignore = Trie::new();
    feed_trie(&lines(ignored), None, &mut ignore, options);
    let mut dict = Trie::new();
    feed_trie(&lines(words), Some(&ignore), &mut dict, options);
    (dict, ignore)
}

fn pairs(typos: &[Typo]) -> Vec<(String, usize)> {
    typos.iter().map(|t| (t.word.clone(), t.line)).collect()
}

#[test]
fn end_to_end_single_typo() {
    let options = Options::new();
    let (dict, ignore) = build(&["hello", "world"], &[], &options);
    let mut stats = CheckStats::new();
    let typos = check_correctness(&lines(&["hello wrold"]), &dict, &ignore, &options, &mut stats);
    assert_eq!(pairs(&typos), vec![("wrold".to_string(), 0)]);
    assert_eq!(stats.typos_num, 1);
}

#[test]
fn end_to_end_decomposed_identifiers() {
    let options = Options::new();
    let (dict, ignore) = build(&["foo", "bar"], &[], &options);
    let mut stats = CheckStats::new();
    let typos = check_correctness(&lines(&["fooBar baz_qux"]), &dict, &ignore, &options, &mut stats);
    assert_eq!(
        pairs(&typos),
        vec![("baz".to_string(), 0), ("qux".to_string(), 0)]
    );
    assert_eq!(stats.typos_num, 2);
}

#[test]
fn typos_carry_their_line_numbers() {
    let options = Options::new();
    let (dict, ignore) = build(&["good"], &[], &options);
    let mut stats = CheckStats::new();
    stats.typos_num = 5;
    let typos = check_correctness(
        &lines(&["good", "", "good badd", "xx yy"]),
        &dict,
        &ignore,
        &options,
        &mut stats,
    );
    assert_eq!(
        pairs(&typos),
        vec![
            ("badd".to_string(), 2),
            ("xx".to_string(), 3),
            ("yy".to_string(), 3)
        ]
    );
    assert_eq!(stats.typos_num, 8);
    assert_eq!(stats.files_checked, 0);
}

#[test]
fn typo_count_saturates() {
    let options = Options::new();
    let (dict, ignore) = build(&[], &[], &options);
    let mut stats = CheckStats::new();
    stats.typos_num = u64::MAX;
    let typos = check_correctness(&lines(&["oops"]), &dict, &ignore, &options, &mut stats);
    assert_eq!(typos.len(), 1);
    assert_eq!(stats.typos_num, u64::MAX);
}

#[test]
fn words_out_of_bounds_are_never_reported() {
    let mut options = Options::new();
    options.min = 3;
    options.max = 5;
    let (dict, ignore) = build(&[], &[], &options);
    let mut typos = Vec::new();
    check_line("ab abc abcdef abcde", 7, &dict, &ignore, &options, &mut typos);
    assert_eq!(
        pairs(&typos),
        vec![("abc".to_string(), 7), ("abcde".to_string(), 7)]
    );
}

#[test]
fn ignored_words_are_never_reported() {
    let options = Options::new();
    let (dict, ignore) = build(&["hello"], &["wrold"], &options);
    let mut stats = CheckStats::new();
    let typos = check_correctness(&lines(&["hello wrold"]), &dict, &ignore, &options, &mut stats);
    assert!(typos.is_empty());
    assert_eq!(stats.typos_num, 0);
}

#[test]
fn ignored_words_stay_out_of_the_dictionary() {
    let options = Options::new();
    let (dict, ignore) = build(&["hello", "world"], &["world"], &options);
    assert!(dict.search("hello"));
    assert!(!dict.search("world"));
    assert!(ignore.search("world"));
}

#[test]
fn word_lists_respect_length_bounds() {
    let mut options = Options::new();
    options.min = 2;
    options.max = 4;
    let (dict, ignore) = build(&["a", "ab", "abcd", "abcde"], &["xy", "xyz"], &options);
    assert!(!dict.search("a"));
    assert!(dict.search("ab"));
    assert!(dict.search("abcd"));
    assert!(!dict.search("abcde"));
    // the ignore list keeps only lines of at least three characters
    assert!(!ignore.search("xy"));
    assert!(ignore.search("xyz"));
}

#[test]
fn eligibility_follows_bounds_and_ignore_list() {
    let options = Options::new();
    let (_, ignore) = build(&[], &["skip"], &options);
    assert!(is_word_correct("word", &ignore, &options));
    assert!(!is_word_correct("skip", &ignore, &options));
    assert!(!is_word_correct("a", &ignore, &options));
    assert!(!is_word_correct("abcdefghijklmnopqrstu", &ignore, &options));
    assert!(is_word_correct("abcdefghijklmnopqrst", &ignore, &options));
}

#[test]
fn empty_snake_pieces_fall_under_the_lower_bound() {
    let options = Options::new();
    let (dict, ignore) = build(&["aaa", "bbb"], &[], &options);
    let mut typos = Vec::new();
    check_line("aaa__bbb", 0, &dict, &ignore, &options, &mut typos);
    assert!(typos.is_empty());
    let mut zero = Options::new();
    zero.min = 0;
    let (dict, ignore) = build(&["aaa", "bbb"], &[], &zero);
    check_line("aaa__bbb", 1, &dict, &ignore, &zero, &mut typos);
    assert_eq!(pairs(&typos), vec![("".to_string(), 1)]);
}

#[test]
fn checking_twice_gives_the_same_result() {
    let options = Options::new();
    let text = lines(&["fooBar baz_qux", "hello wrold", "HTTP 42"]);
    let mut runs = Vec::new();
    for _ in 0..2 {
        let (mut dict, mut ignore) = build(&["foo", "bar", "hello"], &["qux"], &options);
        feed_trie(&lines(&["qux"]), None, &mut ignore, &options);
        feed_trie(&lines(&["foo", "bar", "hello"]), Some(&ignore), &mut dict, &options);
        let mut stats = CheckStats::new();
        let typos = check_correctness(&text, &dict, &ignore, &options, &mut stats);
        runs.push((pairs(&typos), stats.typos_num));
    }
    assert_eq!(runs[0], runs[1]);
    assert_eq!(
        runs[0].0,
        vec![
            ("baz".to_string(), 0),
            ("wrold".to_string(), 1),
            ("http".to_string(), 2)
        ]
    );
}

#[test]
fn defaults_of_options_and_stats() {
    let o = Options::default();
    assert_eq!((o.min, o.max), (2, 20));
    assert!(o.targets.is_empty() && o.wordlists.is_empty());
    let s = CheckStats::default();
    assert_eq!((s.files_checked, s.dirs_checked, s.typos_num, s.errors), (0, 0, 0, 0));
}

fn strings(v: &[&str]) -> Vec<String> {
    lines(v)
}

#[test]
fn excluded_paths_are_skipped() {
    let options = Options::new();
    let file = "/src/a.rs".to_string();
    let rs = "rs".to_string();
    assert!(skip_file(&file, &strings(&["/x", "/src/a.rs"]), Some(&rs), &options));
    assert!(!skip_file(&file, &strings(&["/x"]), Some(&rs), &options));
    assert!(!skip_file(&file, &Vec::new(), None, &options));
}

#[test]
fn extension_filters_decide_skipping() {
    let mut options = Options::new();
    let file = "/src/a.rs".to_string();
    let rs = "rs".to_string();
    let md = "md".to_string();
    options.extensions_to_exclude = strings(&["md"]);
    assert!(skip_file(&file, &Vec::new(), Some(&md), &options));
    assert!(!skip_file(&file, &Vec::new(), Some(&rs), &options));
    options.extensions = strings(&["rs", "cpp"]);
    assert!(!skip_file(&file, &Vec::new(), Some(&rs), &options));
    let txt = "txt".to_string();
    assert!(skip_file(&file, &Vec::new(), Some(&txt), &options));
    assert!(skip_file(&file, &Vec::new(), None, &options));
}

#[test]
fn eligibility_counts_bytes() {
    let mut options = Options::new();
    options.min = 3;
    let (_, ignore) = build(&[], &[], &options);
    // two characters, four bytes
    assert!(is_word_correct("éé", &ignore, &options));
    options.min = 2;
    options.max = 3;
    assert!(!is_word_correct("éé", &ignore, &options));
}

#[test]
fn check_word_skips_words_too_long_in_bytes() {
    let mut options = Options::new();
    options.min = 2;
    options.max = 3;
    let (dict, ignore) = build(&[], &[], &options);
    let mut typos = Vec::new();
    check_word("éé", &dict, &ignore, &mut typos, &options, 4);
    assert!(typos.is_empty());
    check_word("abc", &dict, &ignore, &mut typos, &options, 4);
    assert_eq!(pairs(&typos), vec![("abc".to_string(), 4)]);
}

#[test]
fn word_list_lengths_count_bytes() {
    let mut options = Options::new();
    options.max = 3;
    let (dict, ignore) = build(&["éé", "abc"], &["éé"], &options);
    assert!(!dict.search("éé"));
    assert!(dict.search("abc"));
    // the ignore list keeps a line of two characters and four bytes
    assert!(ignore.search("éé"));
}

#[test]
fn stats_counters_step_and_saturate() {
    let mut s = CheckStats::new();
    s.count_file();
    s.count_dir();
    s.count_dir();
    s.count_error();
    assert_eq!((s.files_checked, s.dirs_checked, s.typos_num, s.errors), (1, 2, 0, 1));
    s.files_checked = u32::MAX;
    s.errors = u32::MAX;
    s.dirs_checked = u32::MAX;
    s.count_file();
    s.count_error();
    s.count_dir();
    assert_eq!((s.files_checked, s.dirs_checked, s.errors), (u32::MAX, u32::MAX, u32::MAX));
}
