use rscheck::spell_checker::file_utils::{get_words_from_line, is_char_valid};

#[test]
fn words_skip_digit_runs_and_split_on_punctuation() {
    assert_eq!(
        get_words_from_line("foo_bar 123 b4z!!"),
        vec!["foo_bar".to_string(), "b4z".to_string()]
    );
}

#[test]
fn words_drop_digit_run_at_end_of_line() {
    assert_eq!(get_words_from_line("abc 123"), vec!["abc".to_string()]);
    assert_eq!(get_words_from_line("x 4_2"), vec!["x".to_string()]);
}

#[test]
fn words_of_empty_line() {
    assert!(get_words_from_line("").is_empty());
    assert!(get_words_from_line("!! ... 42").is_empty());
}

#[test]
fn words_keep_order_and_case() {
    assert_eq!(
        get_words_from_line("let fooBar=baz_qux(1);"),
        vec!["let".to_string(), "fooBar".to_string(), "baz_qux".to_string()]
    );
}

#[test]
fn word_characters() {
    assert!(is_char_valid(&'a'));
    assert!(is_char_valid(&'Z'));
    assert!(is_char_valid(&'7'));
    assert!(is_char_valid(&'_'));
    assert!(!is_char_valid(&'-'));
    assert!(!is_char_valid(&'é'));
}
