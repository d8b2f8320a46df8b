use boggle_solver::trie::{build_dictionary, get_node, insert, is_leaf, search, DictionaryError, TrieNode};

fn w(s: &str) -> Vec<u8> {
    s.as_bytes().to_vec()
}

#[test]
fn new_trie_is_empty() {
    let t = TrieNode::new();
    assert!(!t.is_end_of_word);
    assert!(!search(&t, &w("cat")));
    assert!(is_leaf(&t, &w("cat")));
}

#[test]
fn get_node_matches_new() {
    let t = get_node();
    assert!(!t.is_end_of_word);
    assert!(!search(&t, &w("a")));
}

#[test]
fn insert_and_search_exact() {
    let mut t = TrieNode::new();
    insert(&mut t, &w("cat"));
    assert!(search(&t, &w("cat")));
    assert!(!search(&t, &w("ca")));
    assert!(!search(&t, &w("cats")));
    assert!(!search(&t, &w("dog")));
}

#[test]
fn insert_prefix_words() {
    let mut t = TrieNode::new();
    insert(&mut t, &w("cat"));
    insert(&mut t, &w("cats"));
    insert(&mut t, &w("at"));
    assert!(search(&t, &w("cat")));
    assert!(search(&t, &w("cats")));
    assert!(search(&t, &w("at")));
    assert!(!search(&t, &w("a")));
    assert!(!search(&t, &w("c")));
}

#[test]
fn insert_twice_is_idempotent() {
    let mut t = TrieNode::new();
    insert(&mut t, &w("cat"));
    insert(&mut t, &w("cat"));
    assert!(search(&t, &w("cat")));
    assert!(!search(&t, &w("ca")));
    assert!(!search(&t, &w("catc")));
}

#[test]
fn is_leaf_absent_prefix() {
    let mut t = TrieNode::new();
    insert(&mut t, &w("cat"));
    assert!(is_leaf(&t, &w("dog")));
    assert!(is_leaf(&t, &w("catx")));
}

#[test]
fn is_leaf_present_prefix_with_children() {
    let mut t = TrieNode::new();
    insert(&mut t, &w("cat"));
    insert(&mut t, &w("cats"));
    assert!(!is_leaf(&t, &w("ca")));
    assert!(!is_leaf(&t, &w("cat")));
    assert!(is_leaf(&t, &w("cats")));
}

#[test]
fn short_dictionary_prunes_all_long_prefixes() {
    let mut t = TrieNode::new();
    insert(&mut t, &w("cat"));
    insert(&mut t, &w("tac"));
    insert(&mut t, &w("at"));
    assert!(is_leaf(&t, &w("cat")));
    assert!(is_leaf(&t, &w("tac")));
    assert!(is_leaf(&t, &w("xyz")));
    assert!(is_leaf(&t, &w("catx")));
    assert!(!is_leaf(&t, &w("ca")));
}

#[test]
fn build_dictionary_lowercases() {
    let lines = vec![w("CAT"), w("Dog")];
    let t = build_dictionary(&lines).unwrap();
    assert!(search(&t, &w("cat")));
    assert!(search(&t, &w("dog")));
    assert!(!search(&t, &w("cow")));
}

#[test]
fn build_dictionary_rejects_empty_line() {
    let lines = vec![w("cat"), w("")];
    assert_eq!(build_dictionary(&lines).unwrap_err(), DictionaryError::InvalidWord);
}

#[test]
fn build_dictionary_rejects_non_letter() {
    let lines = vec![w("d0g")];
    assert_eq!(build_dictionary(&lines).unwrap_err(), DictionaryError::InvalidWord);
}

#[test]
fn lowercase_maps_only_upper_case() {
    let word = w("CaT9-z");
    assert_eq!(boggle_solver::trie::lowercase(&word), w("cat9-z"));
}
