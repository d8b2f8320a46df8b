use boggle_solver::solver::{
    add_word, check_board, merge_words, solve, solve_thread, valid_recurse, BoardError,
};
use boggle_solver::trie::{insert, TrieNode};

fn w(s: &str) -> Vec<u8> {
    s.as_bytes().to_vec()
}

fn board(rows: &[&[&str]]) -> Vec<Vec<Vec<u8>>> {
    rows.iter().map(|r| r.iter().map(|t| w(t)).collect()).collect()
}

fn dict(words: &[&str]) -> TrieNode {
    let mut t = TrieNode::new();
    for word in words {
        insert(&mut t, &w(word));
    }
    t
}

fn sorted_words(found: Vec<Vec<u8>>) -> Vec<String> {
    let mut out: Vec<String> = found
        .into_iter()
        .map(|v| String::from_utf8(v).unwrap())
        .collect();
    out.sort();
    out
}

#[test]
fn completeness_on_two_by_two_board() {
    let b = board(&[&["c", "a"], &["t", "s"]]);
    let t = dict(&["cat", "cats", "at"]);
    let found = solve(&b, &t).unwrap();
    // "at" is in the dictionary but only two characters long, so the
    // minimum-length policy keeps it out of the result.
    assert_eq!(sorted_words(found), vec!["cat".to_string(), "cats".to_string()]);
}

#[test]
fn found_words_are_dictionary_members_longer_than_two() {
    let b = board(&[&["c", "a"], &["t", "s"]]);
    let t = dict(&["cat", "cats", "at", "act", "sat", "zzz"]);
    let found = solve(&b, &t).unwrap();
    for word in &found {
        assert!(word.len() > 2);
        assert!(boggle_solver::trie::search(&t, word));
    }
    let names = sorted_words(found);
    assert!(names.contains(&"cat".to_string()));
    assert!(names.contains(&"act".to_string()));
    assert!(names.contains(&"sat".to_string()));
    assert!(!names.contains(&"at".to_string()));
    assert!(!names.contains(&"zzz".to_string()));
}

#[test]
fn no_word_without_an_adjacent_path() {
    // "c" and "s" sit on a diagonal; "cs" needs no path, but "cast" would
    // have to reuse no cell and stay adjacent: c(0,0)-a(0,1)-s(1,1)-t(1,0).
    let b = board(&[&["c", "a"], &["t", "s"]]);
    let t = dict(&["cast", "cta", "tsc", "casc"]);
    let found = solve(&b, &t).unwrap();
    let names = sorted_words(found);
    assert!(names.contains(&"cast".to_string()));
    // "casc" would need the "c" cell twice.
    assert!(!names.contains(&"casc".to_string()));
}

#[test]
fn solve_twice_yields_identical_sets() {
    let b = board(&[&["c", "a"], &["t", "s"]]);
    let t = dict(&["cat", "cats", "sat", "tas"]);
    let first = sorted_words(solve(&b, &t).unwrap());
    let second = sorted_words(solve(&b, &t).unwrap());
    assert_eq!(first, second);
}

#[test]
fn empty_board_yields_empty_result() {
    let b: Vec<Vec<Vec<u8>>> = Vec::new();
    let t = dict(&["cat"]);
    let found = solve(&b, &t).unwrap();
    assert!(found.is_empty());
}

#[test]
fn empty_dictionary_yields_empty_result() {
    let b = board(&[&["c", "a"], &["t", "s"]]);
    let t = TrieNode::new();
    let found = solve(&b, &t).unwrap();
    assert!(found.is_empty());
}

#[test]
fn duplicate_paths_collapse_to_one_entry() {
    // "tat" is spelled by two distinct paths through the shared "a".
    let b = board(&[&["t", "a"], &["t", "x"]]);
    let t = dict(&["tat"]);
    let found = solve(&b, &t).unwrap();
    assert_eq!(sorted_words(found), vec!["tat".to_string()]);
}

#[test]
fn non_rectangular_board_is_rejected() {
    let b = board(&[&["a", "b"], &["c"]]);
    let t = dict(&["abc"]);
    assert_eq!(solve(&b, &t).unwrap_err(), BoardError::NonRectangular);
    assert_eq!(check_board(&b).unwrap_err(), BoardError::NonRectangular);
}

#[test]
fn invalid_tile_is_rejected() {
    let b = board(&[&["a", "1"]]);
    let t = dict(&["abc"]);
    assert_eq!(solve(&b, &t).unwrap_err(), BoardError::InvalidTile);
    let empty_tile = board(&[&["a", ""]]);
    assert_eq!(check_board(&empty_tile).unwrap_err(), BoardError::InvalidTile);
}

#[test]
fn multi_letter_tiles_concatenate() {
    let b = board(&[&["qu", "a"]]);
    let t = dict(&["qua", "aqu"]);
    let found = solve(&b, &t).unwrap();
    let names = sorted_words(found);
    assert_eq!(names, vec!["aqu".to_string(), "qua".to_string()]);
}

#[test]
fn single_tile_word_is_found() {
    let b = board(&[&["cat"]]);
    let t = dict(&["cat"]);
    let found = solve(&b, &t).unwrap();
    assert_eq!(sorted_words(found), vec!["cat".to_string()]);
}

#[test]
fn solve_thread_explores_one_start_cell() {
    let b = board(&[&["c", "a"], &["t", "s"]]);
    let t = dict(&["cat", "tac"]);
    let from_c = solve_thread(&b, 0, 0, &t);
    assert_eq!(sorted_words(from_c), vec!["cat".to_string()]);
    let from_t = solve_thread(&b, 1, 0, &t);
    assert_eq!(sorted_words(from_t), vec!["tac".to_string()]);
}

#[test]
fn merge_words_removes_duplicates() {
    let mut acc = vec![w("cat")];
    let more = vec![w("cat"), w("dog"), w("dog")];
    merge_words(&mut acc, &more);
    assert_eq!(sorted_words(acc), vec!["cat".to_string(), "dog".to_string()]);
}

#[test]
fn add_word_applies_length_and_membership_policy() {
    let t = dict(&["cat", "at"]);
    let mut words: Vec<Vec<u8>> = Vec::new();
    add_word(&mut words, &w("cat"), &t);
    assert_eq!(words.len(), 1);
    add_word(&mut words, &w("at"), &t);
    assert_eq!(words.len(), 1);
    add_word(&mut words, &w("dog"), &t);
    assert_eq!(words.len(), 1);
}

#[test]
fn valid_recurse_checks_bounds_and_visits() {
    let b = board(&[&["c", "a"], &["t", "s"]]);
    let visited = vec![(0usize, 0usize)];
    assert!(valid_recurse((0, 1), &visited, &b));
    assert!(!valid_recurse((0, 0), &visited, &b));
    assert!(!valid_recurse((2, 0), &visited, &b));
    assert!(!valid_recurse((0, 2), &visited, &b));
}
