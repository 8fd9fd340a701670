use clj_pulse::handlers::matching::{is_subsequence, match_score};

#[test]
fn test_match_score_tiers() {
    assert_eq!(match_score("add", "add"), Some(0));
    assert_eq!(match_score("add-and-double", "add"), Some(1));
    assert_eq!(match_score("re-add", "add"), Some(2));
    assert_eq!(match_score("a-d-d", "add"), Some(3));
    assert_eq!(match_score("multiply", "add"), None);
}

#[test]
fn test_match_score_empty_query_matches_all() {
    assert_eq!(match_score("anything", ""), Some(3));
}

#[test]
fn test_is_subsequence() {
    assert!(is_subsequence("aad", "add-and-double"));
    assert!(!is_subsequence("xyz", "add"));
}
