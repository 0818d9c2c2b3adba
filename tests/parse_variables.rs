use rscheck::spell_checker::parse_variables::{
    decompose_word, is_camel_case, is_snake_case, parse_camel_case, parse_snake_case,
};

#[test]
fn check_snake_case_checker() {
    assert!(!is_snake_case(""));
    assert!(!is_snake_case("3"));
    assert!(!is_snake_case("2_3"));
    assert!(is_snake_case("my_function"));
    assert!(is_snake_case("MY_FUNCTION"));
    assert!(is_snake_case("mY_funcTion"));
    assert!(!is_snake_case("____"));
}

#[test]
fn check_camel_case_checker() {
    assert!(!is_camel_case(""));
    assert!(!is_camel_case("3"));
    assert!(!is_camel_case("2_3"));
    assert!(!is_camel_case("my_function"));
    assert!(!is_camel_case("MY_FUNCTION"));
    assert!(!is_camel_case("mY_funcTion"));
    assert!(!is_camel_case("____"));
    assert!(is_camel_case("myFunction"));
    assert!(is_camel_case("MyFunction"));
    assert!(is_camel_case("thisIsMyFunction"));
    assert!(is_camel_case("ThisIsMyFunction"));
    assert!(!is_camel_case("THisIsMyFunction"));
}

#[test]
fn camel_case_split_into_lower_words() {
    assert_eq!(
        parse_camel_case("thisIsMyFunction"),
        Some(vec![
            "this".to_string(),
            "is".to_string(),
            "my".to_string(),
            "function".to_string()
        ])
    );
    assert_eq!(
        parse_camel_case("MyFunction2x"),
        Some(vec!["my".to_string(), "function2x".to_string()])
    );
}

#[test]
fn camel_case_refuses_adjacent_capitals() {
    assert_eq!(parse_camel_case("THisIsMyFunction"), None);
    assert_eq!(parse_camel_case("lower"), None);
}

#[test]
fn snake_case_split_into_lower_words() {
    assert_eq!(
        parse_snake_case("my_function"),
        Some(vec!["my".to_string(), "function".to_string()])
    );
    assert_eq!(
        parse_snake_case("MY_Function"),
        Some(vec!["my".to_string(), "function".to_string()])
    );
}

#[test]
fn snake_case_refuses_underscores_only() {
    assert_eq!(parse_snake_case("____"), None);
    assert_eq!(parse_snake_case("_ab"), None);
    assert_eq!(parse_snake_case("ab_"), None);
}

#[test]
fn snake_case_keeps_empty_pieces() {
    assert_eq!(
        parse_snake_case("a__b"),
        Some(vec!["a".to_string(), "".to_string(), "b".to_string()])
    );
}

#[test]
fn decompose_falls_back_to_lowered_token() {
    assert_eq!(decompose_word("HTTP"), vec!["http".to_string()]);
    assert_eq!(decompose_word("____"), vec!["____".to_string()]);
    assert_eq!(
        decompose_word("fooBar"),
        vec!["foo".to_string(), "bar".to_string()]
    );
    assert_eq!(
        decompose_word("baz_qux"),
        vec!["baz".to_string(), "qux".to_string()]
    );
}

#[test]
fn letters_beyond_ascii_count_as_letters() {
    assert!(is_snake_case("é_é"));
    assert!(is_camel_case("éA"));
    assert!(!is_camel_case("éÀÉ"));
    assert_eq!(
        parse_camel_case("caféÉté"),
        Some(vec!["café".to_string(), "été".to_string()])
    );
    assert_eq!(
        parse_snake_case("ÉCOLE_été"),
        Some(vec!["école".to_string(), "été".to_string()])
    );
    assert_eq!(decompose_word("ÉCOLE"), vec!["école".to_string()]);
}
