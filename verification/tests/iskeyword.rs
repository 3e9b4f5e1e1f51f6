use rofl::collections::LineRange;
use rofl::iskeyword::{transform, KeywordMatcher};

#[test]
fn test_empty_iskeyword() {
    let matcher = transform("");
    assert!(!matcher.match_char(&'a'));
}

#[test]
fn test_matches_single_char() {
    let matcher = transform("a");
    assert!(matcher.match_char(&'a'));
}

#[test]
fn test_matches_single_char_in_list() {
    let matcher = transform("a,b,c");
    assert!(matcher.match_char(&'a'));
}

#[test]
fn test_matches_single_char_in_list_as_number() {
    let matcher = transform("97,b,c");
    assert!(matcher.match_char(&'a'));
    assert!(matcher.match_char(&'b'));
    assert!(matcher.match_char(&'c'));

    assert!(!matcher.match_char(&'d'));
}

#[test]
fn test_matches_single_char_in_list_with_range() {
    let matcher = transform("90-100");
    assert!(matcher.match_char(&'a'));
    assert!(matcher.match_char(&'b'));
    assert!(matcher.match_char(&'c'));

    assert!(!matcher.match_char(&'A'));
}

#[test]
fn test_find_words() {
    let matcher = transform("65-81,91-116");

    assert!(matcher.match_char(&'a'));
    assert!(matcher.match_char(&'A'));

    assert_eq!(
        matcher.find("hello world", 7),
        LineRange {
            start: 7,
            finish: 10
        }
    );
}

#[test]
fn test_triple_comma_rejected() {
    assert!(KeywordMatcher::from_str("a,,,b").is_err());
    assert!(KeywordMatcher::from_str(",,,").is_err());
    assert!(KeywordMatcher::from_str("@,a-z,48-57,,what?").is_ok());
    assert!(KeywordMatcher::from_str("").is_ok());
    assert!(KeywordMatcher::from_str(",,").is_ok());
}

#[test]
fn test_at_class_uses_alphabetic() {
    let matcher = transform("@");
    assert!(matcher.match_char(&'x'));
    assert!(matcher.match_char(&'Z'));
    // above code point 255 everything matches
    assert!(matcher.match_char(&'\u{0416}'));
    // punctuation below 256 is not alphabetic
    assert!(!matcher.match_char(&'!'));
    assert!(!matcher.match_char(&'5'));
}

#[test]
fn test_at_dash_at_is_literal() {
    let matcher = transform("@-@");
    assert!(matcher.match_char(&'@'));
    assert!(!matcher.match_char(&'a'));
}

#[test]
fn test_unknown_sections_ignored() {
    let matcher = transform("^x,5-,!,a");
    assert!(matcher.match_char(&'a'));
    assert!(!matcher.match_char(&'^'));
    assert!(!matcher.match_char(&'x'));
    assert!(!matcher.match_char(&'!'));
}

#[test]
fn test_find_at_line_edges() {
    let matcher = transform("97-122");
    // the whole prefix matches: the start falls back to zero
    assert_eq!(matcher.find("word", 3), LineRange { start: 0, finish: 3 });
    // nothing to the right of the cursor
    assert_eq!(matcher.find("ab", 2), LineRange { start: 0, finish: 2 });
}
