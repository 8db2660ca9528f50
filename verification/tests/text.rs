use context_server_store::text::{contains_text, replace_text, same_text};

#[test]
fn same_text_compares_characters() {
    assert!(same_text("", ""));
    assert!(same_text("größe", "größe"));
    assert!(!same_text("a", "b"));
    assert!(!same_text("a", "ab"));
    assert!(!same_text("ab", "a"));
}

#[test]
fn contains_text_finds_every_place() {
    assert!(contains_text("abc", "abc"));
    assert!(contains_text("abc", "a"));
    assert!(contains_text("abc", "bc"));
    assert!(contains_text("abc", ""));
    assert!(contains_text("", ""));
    assert!(contains_text("aab", "ab"));
    assert!(!contains_text("abc", "ac"));
    assert!(!contains_text("ab", "abc"));
    assert!(!contains_text("", "a"));
}

#[test]
fn replace_text_replaces_every_match() {
    assert_eq!(replace_text("this is old", "old", "new"), "this is new");
    assert_eq!(replace_text("xaxax", "x", "yy"), "yyayyayy");
    assert_eq!(replace_text("abc", "d", "e"), "abc");
    assert_eq!(replace_text("", "d", "e"), "");
    assert_eq!(replace_text("dd", "d", ""), "");
    assert_eq!(replace_text("ü-ü", "ü", "日本"), "日本-日本");
}

#[test]
fn replace_text_takes_matches_from_the_left() {
    assert_eq!(replace_text("aaa", "aa", "b"), "ba");
    assert_eq!(replace_text("aaa", "aa", "b"), "aaa".replace("aa", "b"));
    assert_eq!(replace_text("ababa", "aba", "x"), "ababa".replace("aba", "x"));
}

#[test]
fn replace_text_does_not_look_at_what_it_wrote() {
    assert_eq!(replace_text("aab", "ab", "b"), "ab");
    assert_eq!(replace_text("a", "a", "aa"), "aa");
}
