use flx_rs::score;

#[test]
fn empty_target_is_no_match() {
    assert!(score("", "a").is_none());
    assert!(score("", "query").is_none());
}

#[test]
fn empty_query_is_no_match() {
    assert!(score("abc", "").is_none());
    assert!(score("", "").is_none());
}

#[test]
fn absent_character_is_no_match() {
    assert!(score("abc", "x").is_none());
    assert!(score("abc", "abx").is_none());
}

#[test]
fn out_of_order_subsequence_is_no_match() {
    assert!(score("ab", "ba").is_none());
}

#[test]
fn full_match_boost_applies_to_short_full_queries() {
    let r = score("ab", "ab").unwrap();
    assert_eq!(r.indices, vec![0, 1]);
    assert_eq!(r.score, 10143);
    assert_eq!(r.tail, 1);
}

#[test]
fn full_match_boost_skips_single_character_queries() {
    let r = score("ab", "a").unwrap();
    assert_eq!(r.indices, vec![0]);
    assert_eq!(r.score, 84);
    assert_eq!(r.tail, 0);
}

#[test]
fn single_character_query_takes_first_occurrence() {
    let r = score("ab", "b").unwrap();
    assert_eq!(r.indices, vec![1]);
    assert_eq!(r.score, -1);
    assert_eq!(r.tail, 0);
}

#[test]
fn hello_world_query_anchors_on_word_starts() {
    let r = score("hello_world", "hw").unwrap();
    assert_eq!(r.indices, vec![0, 6]);
    assert_eq!(r.score, 163);
    assert_eq!(r.tail, 0);
}

#[test]
fn contiguous_occurrence_beats_scattered_one() {
    // "ab" occurs scattered at (0, 2) and contiguous at (4, 5); the
    // contiguous pair must win and carry the adjacency bonus.
    let r = score("acb_ab", "ab").unwrap();
    assert_eq!(r.indices, vec![4, 5]);
    assert_eq!(r.score, 135);
    assert_eq!(r.tail, 1);
}

#[test]
fn word_boundary_anchors_can_outweigh_contiguity() {
    // both characters of the query start words at (0, 2); that pair beats
    // the contiguous occurrence at (4, 5) on total score
    let r = score("a_b_ab", "ab").unwrap();
    assert_eq!(r.indices, vec![0, 2]);
    assert_eq!(r.score, 161);
    assert_eq!(r.tail, 0);
}

#[test]
fn indices_are_ascending_and_cover_the_query() {
    let r = score("hello_world", "hlwr").unwrap();
    assert_eq!(r.indices.len(), 4);
    for w in r.indices.windows(2) {
        assert!(w[0] < w[1]);
    }
    let target: Vec<char> = "hello_world".chars().collect();
    for (qc, &i) in "hlwr".chars().zip(r.indices.iter()) {
        assert_eq!(target[i as usize], qc);
    }
}

#[test]
fn lowercase_query_matches_capital_by_folding() {
    let r = score("FooBar", "fb").unwrap();
    assert_eq!(r.indices, vec![0, 3]);
    assert_eq!(r.score, 165);
    assert_eq!(r.tail, 0);
}

#[test]
fn exact_case_query_matches_capitals() {
    let r = score("FooBar", "FB").unwrap();
    assert_eq!(r.indices, vec![0, 3]);
    assert_eq!(r.score, 165);
}

#[test]
fn uppercase_query_never_matches_lowercase_target() {
    assert!(score("b", "B").is_none());
    assert!(score("foobar", "FB").is_none());
}

#[test]
fn positions_count_code_points_not_bytes() {
    let r = score("αβγ", "γ").unwrap();
    assert_eq!(r.indices, vec![2]);
    let r2 = score("Ö", "ö").unwrap();
    assert_eq!(r2.indices, vec![0]);
}

#[test]
fn contiguity_bonus_grows_with_the_tail() {
    let r = score("abcde", "abcd").unwrap();
    assert_eq!(r.indices, vec![0, 1, 2, 3]);
    assert_eq!(r.score, 300);
    assert_eq!(r.tail, 3);
}

#[test]
fn full_match_boost_covers_queries_up_to_four_characters() {
    let r = score("abcd", "abcd").unwrap();
    assert_eq!(r.indices, vec![0, 1, 2, 3]);
    assert_eq!(r.score, 10301);
    assert_eq!(r.tail, 3);
}

#[test]
fn full_match_boost_skips_five_character_queries() {
    let r = score("abcde", "abcde").unwrap();
    assert_eq!(r.indices, vec![0, 1, 2, 3, 4]);
    assert_eq!(r.score, 401);
    assert_eq!(r.tail, 4);
}

#[test]
fn rescoring_is_bit_identical() {
    let a = score("hello_world", "hw").unwrap();
    let b = score("hello_world", "hw").unwrap();
    assert_eq!(a.indices, b.indices);
    assert_eq!(a.score, b.score);
    assert_eq!(a.tail, b.tail);
    assert!(score("abc", "x").is_none());
    assert!(score("abc", "x").is_none());
}
