//! The token-level helpers: splitting, joining, searching, and numbers.

use bernbot::text::{
    chars_to_string, chars_vec, contains_sub, join_tokens, join_words_from, parse_prob,
    str_eq, strip_prefix_str, tokenize, u8_dec_string,
};

#[test]
fn tokenize_splits_on_whitespace_runs() {
    let toks = tokenize("  hello   world\tagain\n");
    let toks: Vec<&str> = toks.iter().map(|s| s.as_str()).collect();
    assert_eq!(toks, vec!["hello", "world", "again"]);
    assert!(tokenize("").is_empty());
    assert!(tokenize("   \t \n ").is_empty());
}

#[test]
fn join_appends_one_space_per_token() {
    let toks = vec!["a".to_string(), "b".to_string(), "c".to_string()];
    assert_eq!(join_tokens(&toks), "a b c ");
    assert_eq!(join_tokens(&Vec::new()), "");
}

#[test]
fn join_words_skips_and_separates() {
    let toks = vec!["poem".to_string(), "red".to_string(), "rose".to_string()];
    assert_eq!(join_words_from(&toks, 1), "red rose");
    assert_eq!(join_words_from(&toks, 3), "");
}

#[test]
fn substring_search_is_exact() {
    assert!(contains_sub("well fuck you then", "fuck you"));
    assert!(!contains_sub("well bless you then", "fuck you"));
    assert!(contains_sub("abc", ""));
    assert!(!contains_sub("ab", "abc"));
}

#[test]
fn strip_prefix_returns_the_rest() {
    assert_eq!(strip_prefix_str("b/help me", "b/").as_deref(), Some("help me"));
    assert!(strip_prefix_str("c/help", "b/").is_none());
    assert_eq!(strip_prefix_str("b/", "b/").as_deref(), Some(""));
}

#[test]
fn probability_parsing_clamps_and_defaults() {
    assert_eq!(parse_prob("0"), 0);
    assert_eq!(parse_prob("42"), 42);
    assert_eq!(parse_prob("100"), 100);
    assert_eq!(parse_prob("150"), 100);
    assert_eq!(parse_prob("+7"), 7);
    assert_eq!(parse_prob("-7"), 0);
    assert_eq!(parse_prob("abc"), 5);
    assert_eq!(parse_prob(""), 5);
    assert_eq!(parse_prob("-"), 5);
    assert_eq!(parse_prob("12x"), 5);
    assert_eq!(parse_prob("2147483647"), 100);
    assert_eq!(parse_prob("2147483648"), 5);
    assert_eq!(parse_prob("-2147483648"), 0);
    assert_eq!(parse_prob("-2147483649"), 5);
    assert_eq!(parse_prob("99999999999999999999"), 5);
}

#[test]
fn decimal_printing_matches() {
    assert_eq!(u8_dec_string(0), "0");
    assert_eq!(u8_dec_string(5), "5");
    assert_eq!(u8_dec_string(42), "42");
    assert_eq!(u8_dec_string(100), "100");
    assert_eq!(u8_dec_string(255), "255");
}

#[test]
fn char_round_trip_through_vectors() {
    let cs = chars_vec("héllo wörld");
    assert_eq!(chars_to_string(&cs), "héllo wörld");
}

#[test]
fn string_equality_is_by_characters() {
    assert!(str_eq("abc", "abc"));
    assert!(!str_eq("abc", "abd"));
    assert!(!str_eq("abc", "abcd"));
    assert!(str_eq("", ""));
}
