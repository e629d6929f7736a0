use mini_regex::matcher::match_pattern;
use mini_regex::pattern::Matcher;

#[test]
fn literal_anywhere_in_line() {
    assert_eq!(match_pattern("apple", "a"), Ok(true));
    assert_eq!(match_pattern("apple", "p"), Ok(true));
    assert_eq!(match_pattern("apple", "z"), Ok(false));
}

#[test]
fn literal_pattern_is_substring_search() {
    assert_eq!(match_pattern("xaby", "ab"), Ok(true));
    assert_eq!(match_pattern("axb", "ab"), Ok(false));
    assert_eq!(match_pattern("hello world", "lo wo"), Ok(true));
    assert_eq!(match_pattern("hello world", "ol"), Ok(false));
}

#[test]
fn empty_pattern_always_matches() {
    assert_eq!(match_pattern("anything", ""), Ok(true));
    assert_eq!(match_pattern("", ""), Ok(true));
}

#[test]
fn start_anchor_binds_to_line_start() {
    assert_eq!(match_pattern("log: message", "^log"), Ok(true));
    assert_eq!(match_pattern("my log", "^log"), Ok(false));
}

#[test]
fn start_anchor_never_matches_past_position_zero() {
    assert_eq!(match_pattern("aab", "^a"), Ok(true));
    assert_eq!(match_pattern("baa", "^a"), Ok(false));
}

#[test]
fn end_anchor_binds_to_line_end() {
    assert_eq!(match_pattern("the end", "end$"), Ok(true));
    assert_eq!(match_pattern("end of", "end$"), Ok(false));
}

#[test]
fn one_or_more_consumes_whole_run() {
    assert_eq!(match_pattern("aaa", "a+"), Ok(true));
    // The run can be consumed up to the very end of the line in one
    // quantifier evaluation.
    assert_eq!(match_pattern("aaa", "a+$"), Ok(true));
    assert_eq!(match_pattern("aab", "a+$"), Ok(false));
    assert_eq!(match_pattern("bbb", "a+"), Ok(false));
}

#[test]
fn one_or_more_backtracks_for_later_fragments() {
    assert_eq!(match_pattern("aaab", "a+ab"), Ok(true));
    assert_eq!(match_pattern("caats", "ca+at"), Ok(true));
}

#[test]
fn zero_or_one_is_optional() {
    assert_eq!(match_pattern("ct", "ca?t"), Ok(true));
    assert_eq!(match_pattern("cat", "ca?t"), Ok(true));
    assert_eq!(match_pattern("caat", "ca?t"), Ok(false));
}

#[test]
fn optional_vowel_spelling() {
    assert_eq!(match_pattern("color", "colou?r"), Ok(true));
    assert_eq!(match_pattern("colour", "colou?r"), Ok(true));
    assert_eq!(match_pattern("colouur", "colou?r"), Ok(false));
}

#[test]
fn positive_group_matches_any_member() {
    assert_eq!(match_pattern("line with b", "[abc]"), Ok(true));
    assert_eq!(match_pattern("a", "[abc]"), Ok(true));
    assert_eq!(match_pattern("xyz", "[abc]"), Ok(false));
}

#[test]
fn negative_group_needs_a_non_member() {
    assert_eq!(match_pattern("xyz", "[^xyz]"), Ok(false));
    assert_eq!(match_pattern("xyza", "[^xyz]"), Ok(true));
}

#[test]
fn empty_groups() {
    assert_eq!(match_pattern("abc", "[]"), Ok(false));
    assert_eq!(match_pattern("abc", "[^]"), Ok(true));
    assert_eq!(match_pattern("", "[^]"), Ok(false));
}

#[test]
fn caret_not_first_in_group_is_a_member() {
    assert_eq!(match_pattern("a^b", "[x^y]"), Ok(true));
    assert_eq!(match_pattern("ab", "[x^y]"), Ok(false));
}

#[test]
fn digit_class_is_exactly_ascii_digits() {
    assert_eq!(match_pattern("5", "\\d"), Ok(true));
    assert_eq!(match_pattern("abc3", "\\d"), Ok(true));
    assert_eq!(match_pattern("abc", "\\d"), Ok(false));
    assert_eq!(match_pattern("/:", "\\d"), Ok(false));
}

#[test]
fn word_class_is_alphanumeric_without_underscore() {
    assert_eq!(match_pattern("a", "\\w"), Ok(true));
    assert_eq!(match_pattern("Z", "\\w"), Ok(true));
    assert_eq!(match_pattern("7", "\\w"), Ok(true));
    assert_eq!(match_pattern("_", "\\w"), Ok(false));
    assert_eq!(match_pattern("_-!", "\\w"), Ok(false));
    assert_eq!(match_pattern("_a_", "\\w"), Ok(true));
}

#[test]
fn wildcard_matches_any_single_character() {
    assert_eq!(match_pattern("x", "."), Ok(true));
    assert_eq!(match_pattern("", "."), Ok(false));
    assert_eq!(match_pattern("abc", "a.c"), Ok(true));
    assert_eq!(match_pattern("ac", "a.c"), Ok(false));
}

#[test]
fn compiled_matcher_can_be_reused_per_line() {
    let m = match Matcher::from_pattern("a+b") {
        Ok(m) => m,
        Err(_) => panic!("pattern should parse"),
    };
    assert!(m.match_line("xxaab"));
    assert!(!m.match_line("xxb"));
}

#[test]
fn remaining_fragments_fail_at_end_of_line() {
    // Fragments left over when the position reaches the end of the line
    // mean failure, even when the next fragment could cover an empty span.
    assert_eq!(match_pattern("", "a?"), Ok(false));
    assert_eq!(match_pattern("", "a+"), Ok(false));
    assert_eq!(match_pattern("x", "xa?"), Ok(false));
    assert_eq!(match_pattern("xz", "xa?"), Ok(true));
    assert_eq!(match_pattern("b", "a?$"), Ok(false));
}

#[test]
fn patterns_work_on_multibyte_characters() {
    assert_eq!(match_pattern("h\u{e9}llo", "\u{e9}"), Ok(true));
    assert_eq!(match_pattern("h\u{e9}llo", "h.l"), Ok(true));
    assert_eq!(match_pattern("h\u{e9}llo", "\\w"), Ok(true));
    assert_eq!(match_pattern("\u{e9}", "\\w"), Ok(false));
}
