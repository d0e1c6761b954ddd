use rust_dust::trie::Trie;

#[test]
fn test_small() {
    let mut trie = Trie::new();
    assert_eq!(trie.size(), 0);
    assert!(!trie.contains(&""));
    assert!(!trie.contains(&"a"));
    assert!(!trie.contains(&"apple"));
    trie.insert("apple");
    assert_eq!(trie.size(), 1);
    assert!(!trie.contains(&""));
    assert!(!trie.contains(&"a"));
    assert!(!trie.contains(&"ap"));
    assert!(!trie.contains(&"app"));
    assert!(!trie.contains(&"appl"));
    assert!(trie.contains(&"apple"));
    assert!(!trie.contains(&"apples"));

    trie.insert("orange");
    assert_eq!(trie.size(), 2);
    assert!(!trie.contains(&""));
    assert!(!trie.contains(&"a"));
    assert!(!trie.contains(&"ap"));
    assert!(!trie.contains(&"app"));
    assert!(!trie.contains(&"appl"));
    assert!(trie.contains(&"apple"));
    assert!(!trie.contains(&"apples"));
    assert!(!trie.contains(&"o"));
    assert!(!trie.contains(&"or"));
    assert!(!trie.contains(&"ora"));
    assert!(!trie.contains(&"oran"));
    assert!(!trie.contains(&"orang"));
    assert!(trie.contains(&"orange"));
    assert!(!trie.contains(&"oranges"));

    assert!(!trie.contains(&"pear"));

    trie.insert("oranges");
    assert_eq!(trie.size(), 3);
    assert!(!trie.contains(&"o"));
    assert!(!trie.contains(&"or"));
    assert!(!trie.contains(&"ora"));
    assert!(!trie.contains(&"oran"));
    assert!(!trie.contains(&"orang"));
    assert!(trie.contains(&"orange"));
    assert!(trie.contains(&"oranges"));
}

#[test]
fn trie_size_counts_repeated_inserts_and_holds_the_empty_word() {
    let mut trie = Trie::new();
    trie.insert("Auden");
    trie.insert("Auden");
    trie.insert("");
    assert_eq!(trie.size(), 3);
    assert!(trie.contains("Auden"));
    assert!(trie.contains(""));
}

#[test]
fn trie_is_case_sensitive_and_handles_non_ascii() {
    let mut trie = Trie::new();
    trie.insert("WH");
    trie.insert("Hephaestos");
    trie.insert("Ἥφαιστος");
    assert!(trie.contains("WH"));
    assert!(!trie.contains("wh"));
    assert!(trie.contains("Hephaestos"));
    assert!(!trie.contains("hephaestos"));
    assert!(trie.contains("Ἥφαιστος"));
    assert!(!trie.contains("Ἥφαιστο"));
    assert!(!trie.contains("Pound"));
}

#[test]
fn trie_prefix_of_a_word_becomes_a_word_when_inserted() {
    let mut trie = Trie::new();
    trie.insert("oranges");
    assert!(!trie.contains("orange"));
    trie.insert("orange");
    assert!(trie.contains("orange"));
    assert!(trie.contains("oranges"));
}

#[test]
fn trie_empty_word_only_after_inserting_it() {
    let mut trie = Trie::new();
    trie.insert("a");
    assert!(!trie.contains(""));
    trie.insert("");
    assert!(trie.contains(""));
    assert!(trie.contains("a"));
    assert!(!trie.contains("aa"));
}
