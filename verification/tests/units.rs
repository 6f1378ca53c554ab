use flx_rs::{
    bigger_sublist, boundary, capital, find_best_match, get_hash_for_string, get_heatmap_str,
    inc_vec, is_uppercase, score, word, Result, StrInfo,
};
use std::collections::HashMap;

#[test]
fn word_rejects_separators_and_absence() {
    assert!(!word(None));
    for c in [' ', '-', '_', ':', '.', '/', '\\'] {
        assert!(!word(Some(c)));
    }
    assert!(word(Some('a')));
    assert!(word(Some('Z')));
    assert!(word(Some('1')));
}

#[test]
fn is_uppercase_goes_by_the_uppercase_mapping() {
    assert!(!is_uppercase(&None));
    assert!(is_uppercase(&Some('A')));
    assert!(!is_uppercase(&Some('a')));
    assert!(is_uppercase(&Some('1')));
    // the uppercase of the sharp s is "SS", so it is not its own uppercase
    assert!(!is_uppercase(&Some('ß')));
}

#[test]
fn capital_needs_a_word_character() {
    assert!(capital(Some('A')));
    assert!(!capital(Some('a')));
    assert!(!capital(Some('_')));
    assert!(!capital(None));
    assert!(capital(Some('1')));
}

#[test]
fn boundary_detects_starts_case_and_separator_transitions() {
    assert!(boundary(None, Some('a')));
    assert!(boundary(Some('a'), Some('B')));
    assert!(!boundary(Some('A'), Some('B')));
    assert!(boundary(Some('_'), Some('a')));
    assert!(!boundary(Some('a'), Some('b')));
    assert!(!boundary(Some('a'), Some('_')));
}

#[test]
fn inc_vec_increments_the_given_range() {
    let mut v = vec![0, 0, 0, 0];
    inc_vec(&mut v, Some(5), Some(1), Some(3));
    assert_eq!(v, vec![0, 5, 5, 0]);
    let mut w = vec![1, 2, 3];
    inc_vec(&mut w, None, None, None);
    assert_eq!(w, vec![2, 3, 4]);
    let mut u = vec![7];
    inc_vec(&mut u, Some(-2), Some(1), None);
    assert_eq!(u, vec![7]);
}

#[test]
fn bigger_sublist_filters_strictly_bigger() {
    let source = vec![1u32, 3, 5, 7];
    let mut out: Vec<u32> = vec![9];
    bigger_sublist(&mut out, Some(&source), Some(3));
    assert_eq!(out, vec![9, 5, 7]);
    let mut all: Vec<u32> = Vec::new();
    bigger_sublist(&mut all, Some(&source), None);
    assert_eq!(all, vec![1, 3, 5, 7]);
    let mut none: Vec<u32> = Vec::new();
    bigger_sublist(&mut none, None, Some(3));
    assert!(none.is_empty());
}

#[test]
fn position_index_records_capitals_under_both_keys() {
    let mut info = StrInfo::new();
    get_hash_for_string(&mut info, "FooBar");
    assert_eq!(info.get('F').unwrap(), &vec![0u32]);
    assert_eq!(info.get('f').unwrap(), &vec![0u32]);
    assert_eq!(info.get('o').unwrap(), &vec![1u32, 2]);
    assert_eq!(info.get('B').unwrap(), &vec![3u32]);
    assert_eq!(info.get('b').unwrap(), &vec![3u32]);
    assert_eq!(info.get('r').unwrap(), &vec![5u32]);
    assert!(info.get('x').is_none());
}

#[test]
fn position_index_records_caseless_capitals_twice() {
    // a digit is its own uppercase and lowercase, so it is recorded under
    // its one key once as a capital and once as the folded character
    let mut info = StrInfo::new();
    get_hash_for_string(&mut info, "1");
    assert_eq!(info.get('1').unwrap(), &vec![0u32, 0]);
}

#[test]
fn heatmap_of_ab() {
    let mut scores: Vec<i32> = Vec::new();
    get_heatmap_str(&mut scores, "ab", None);
    assert_eq!(scores, vec![84, -1]);
}

#[test]
fn heatmap_of_hello_world() {
    let mut scores: Vec<i32> = Vec::new();
    get_heatmap_str(&mut scores, "hello_world", None);
    assert_eq!(scores, vec![83, -3, -4, -5, -6, -7, 80, -6, -7, -8, -8]);
}

#[test]
fn heatmap_penalizes_extension_characters() {
    let mut scores: Vec<i32> = Vec::new();
    get_heatmap_str(&mut scores, "a.b", None);
    assert_eq!(scores, vec![83, -3, 36]);
}

#[test]
fn heatmap_prefers_the_basepath_group() {
    let mut scores: Vec<i32> = Vec::new();
    get_heatmap_str(&mut scores, "foo/bar/baz", Some('/'));
    assert_eq!(scores, vec![41, -45, -46, -47, 39, -47, -48, -49, 79, -7, -7]);
    // the final path segment's first character is the best anchor
    assert!(scores[8] > scores[4]);
    assert!(scores[8] > scores[0]);
}

#[test]
fn heatmap_handles_a_trailing_separator() {
    let mut scores: Vec<i32> = Vec::new();
    get_heatmap_str(&mut scores, "foo/", Some('/'));
    assert_eq!(scores, vec![80, -6, -7, -7]);
}

#[test]
fn heatmap_is_a_pure_function_of_its_inputs() {
    let mut a: Vec<i32> = Vec::new();
    let mut b: Vec<i32> = Vec::new();
    get_heatmap_str(&mut a, "src/main.rs", Some('/'));
    get_heatmap_str(&mut b, "src/main.rs", Some('/'));
    assert_eq!(a, b);
    get_heatmap_str(&mut a, "src/main.rs", None);
    get_heatmap_str(&mut b, "src/main.rs", None);
    assert_eq!(a, b);
}

#[test]
fn result_new_packs_the_fields() {
    let r = Result::new(vec![1, 4], 77, 1);
    assert_eq!(r.indices, vec![1, 4]);
    assert_eq!(r.score, 77);
    assert_eq!(r.tail, 1);
}

#[test]
fn find_best_match_agrees_with_score_before_the_boost() {
    let mut info = StrInfo::new();
    get_hash_for_string(&mut info, "hello_world");
    let mut heatmap: Vec<i32> = Vec::new();
    get_heatmap_str(&mut heatmap, "hello_world", None);
    let mut cache: HashMap<u32, Vec<Result>> = HashMap::new();
    let mut found: Vec<Result> = Vec::new();
    find_best_match(&mut found, &info, &heatmap, None, "hw", 2, 0, &mut cache);
    assert_eq!(found.len(), 1);
    assert_eq!(found[0].indices, vec![0, 6]);
    assert_eq!(found[0].score, 163);
    assert_eq!(found[0].tail, 0);

    // a second run over the same cache is served from it, unchanged
    let mut again: Vec<Result> = Vec::new();
    find_best_match(&mut again, &info, &heatmap, None, "hw", 2, 0, &mut cache);
    assert_eq!(again[0].indices, vec![0, 6]);
    assert_eq!(again[0].score, 163);
}

#[test]
fn scorer_reuses_nothing_across_calls() {
    let first = score("foo/bar/baz", "fbb").unwrap();
    let other = score("bazaar", "za").unwrap();
    let second = score("foo/bar/baz", "fbb").unwrap();
    assert_eq!(first.indices, second.indices);
    assert_eq!(first.score, second.score);
    assert_eq!(first.tail, second.tail);
    assert!(other.score != first.score || other.indices != first.indices);
}
