//! Tests of the text layer: trimming, splitting, joining, token
//! extraction, substring search, and the tag-string rewrite passes.

use odinsource::text::contains_char;
use odinsource::text::contains_substring;
use odinsource::text::join_strings;
use odinsource::text::remove_token;
use odinsource::text::rename_token;
use odinsource::text::split_pieces;
use odinsource::text::tokens_of;
use odinsource::text::trimmed_str;

#[test]
fn trim_removes_edge_whitespace() {
    assert_eq!(trimmed_str("  a b  "), "a b");
    assert_eq!(trimmed_str("a"), "a");
    assert_eq!(trimmed_str(""), "");
    assert_eq!(trimmed_str(" \t\n"), "");
    assert_eq!(trimmed_str("\u{a0}x\u{3000}"), "x");
}

#[test]
fn split_keeps_empty_pieces() {
    assert_eq!(split_pieces("a,b"), vec!["a".to_string(), "b".to_string()]);
    assert_eq!(split_pieces(""), vec!["".to_string()]);
    assert_eq!(
        split_pieces("a,,b"),
        vec!["a".to_string(), "".to_string(), "b".to_string()]
    );
    assert_eq!(split_pieces(","), vec!["".to_string(), "".to_string()]);
    assert_eq!(split_pieces("one"), vec!["one".to_string()]);
}

#[test]
fn join_inverts_split() {
    for s in ["a,b", "", ",", "x, y ,z", "a,,b"] {
        assert_eq!(join_strings(&split_pieces(s)), s);
    }
}

#[test]
fn tokens_are_trimmed_and_nonempty() {
    assert_eq!(
        tokens_of(" ml , nlp ,,"),
        vec!["ml".to_string(), "nlp".to_string()]
    );
    assert_eq!(tokens_of(""), Vec::<String>::new());
    assert_eq!(tokens_of(" , "), Vec::<String>::new());
    assert_eq!(tokens_of("a"), vec!["a".to_string()]);
}

#[test]
fn substring_search_matches_anywhere() {
    assert!(contains_substring("html", "ml"));
    assert!(contains_substring("ml,systems", "ml"));
    assert!(contains_substring("abc", ""));
    assert!(!contains_substring("abc", "zz"));
    assert!(!contains_substring("ab", "abc"));
}

#[test]
fn char_search_finds_commas() {
    assert!(contains_char("a,b", ','));
    assert!(!contains_char("ab", ','));
}

#[test]
fn rename_rewrites_matching_tokens() {
    let (s, hit) = rename_token(
        "ml, nlp",
        &"ml".to_string(),
        &"machine-learning".to_string(),
    );
    assert_eq!(s, "machine-learning,nlp");
    assert!(hit);
    let (s, hit) = rename_token("a,b", &"x".to_string(), &"y".to_string());
    assert_eq!(s, "a,b");
    assert!(!hit);
}

#[test]
fn remove_drops_matching_tokens() {
    assert_eq!(remove_token("ml,nlp", &"ml".to_string()), "nlp");
    assert_eq!(remove_token("a, b ,c", &"b".to_string()), "a,c");
    assert_eq!(remove_token("only", &"only".to_string()), "");
    assert_eq!(remove_token("a,b", &"z".to_string()), "a,b");
}
