use rscheck::trie::Trie;

#[test]
fn trie_finds_exactly_inserted_words() {
    let mut t = Trie::new();
    for w in ["hello", "help", "world"] {
        t.insert(w);
    }
    assert!(t.search("hello"));
    assert!(t.search("help"));
    assert!(t.search("world"));
    assert!(!t.search("hel"));
    assert!(!t.search("helloo"));
    assert!(!t.search("wor"));
    assert!(!t.search(""));
}

#[test]
fn empty_trie_holds_nothing() {
    let t = Trie::default();
    assert!(!t.search(""));
    assert!(!t.search("a"));
}

#[test]
fn trie_insert_twice_is_harmless() {
    let mut t = Trie::new();
    t.insert("abc");
    t.insert("abc");
    assert!(t.search("abc"));
    assert!(!t.search("ab"));
    t.insert("ab");
    assert!(t.search("ab"));
    assert!(t.search("abc"));
}

#[test]
fn trie_is_case_sensitive() {
    let mut t = Trie::new();
    t.insert("Word");
    assert!(t.search("Word"));
    assert!(!t.search("word"));
    t.insert("");
    assert!(t.search(""));
}
