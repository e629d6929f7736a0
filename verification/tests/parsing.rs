use mini_regex::matcher::match_pattern;
use mini_regex::parser::ParseError;
use mini_regex::pattern::Match;
use mini_regex::pattern::Matcher;

#[test]
fn trailing_backslash_is_unterminated_escape() {
    assert_eq!(match_pattern("anything", "\\"), Err(ParseError::UnterminatedEscape));
    assert_eq!(match_pattern("anything", "ab\\"), Err(ParseError::UnterminatedEscape));
}

#[test]
fn unknown_escape_letter_is_unsupported() {
    assert_eq!(match_pattern("anything", "\\q"), Err(ParseError::UnsupportedEscape('q')));
    assert_eq!(match_pattern("anything", "\\\\"), Err(ParseError::UnsupportedEscape('\\')));
}

#[test]
fn unclosed_group_is_unterminated() {
    assert_eq!(match_pattern("anything", "[abc"), Err(ParseError::UnterminatedGroup));
    assert_eq!(match_pattern("anything", "["), Err(ParseError::UnterminatedGroup));
}

#[test]
fn operators_with_nothing_to_wrap_are_dangling() {
    assert_eq!(match_pattern("anything", "+a"), Err(ParseError::DanglingQuantifier));
    assert_eq!(match_pattern("anything", "?a"), Err(ParseError::DanglingQuantifier));
    assert_eq!(match_pattern("anything", "$a"), Err(ParseError::DanglingQuantifier));
    assert_eq!(match_pattern("anything", "^"), Err(ParseError::DanglingQuantifier));
    assert_eq!(match_pattern("anything", "^+"), Err(ParseError::DanglingQuantifier));
}

#[test]
fn start_anchor_binds_only_one_unit() {
    // `^` consumes exactly the one character after it; `\` alone is an
    // unterminated escape, so the class escape cannot be anchored.
    assert_eq!(match_pattern("5a", "^\\d"), Err(ParseError::UnterminatedEscape));
    assert_eq!(match_pattern("[a]", "^["), Err(ParseError::UnterminatedGroup));
}

#[test]
fn parse_builds_one_fragment_per_token() {
    let frags = match Matcher::parse_pattern("a[bc]\\d.x+") {
        Ok(frags) => frags,
        Err(_) => panic!("pattern should parse"),
    };
    assert_eq!(frags.len(), 5);
    assert!(matches!(frags[0], Match::Literal(_)));
    assert!(matches!(frags[1], Match::PositiveGroup(_)));
    assert!(matches!(frags[2], Match::CharClass(_)));
    assert!(matches!(frags[3], Match::AnyChar));
    assert!(matches!(frags[4], Match::OneOrMore(_)));
}

#[test]
fn quantifier_wraps_only_the_preceding_fragment() {
    let frags = match Matcher::parse_pattern("ab+") {
        Ok(frags) => frags,
        Err(_) => panic!("pattern should parse"),
    };
    assert_eq!(frags.len(), 2);
    assert!(matches!(frags[0], Match::Literal(_)));
    assert!(matches!(frags[1], Match::OneOrMore(_)));
}

#[test]
fn closing_bracket_alone_is_a_literal() {
    assert_eq!(match_pattern("a]b", "]"), Ok(true));
    assert_eq!(match_pattern("ab", "]"), Ok(false));
}

#[test]
fn fragment_evaluation_reports_span_lengths() {
    let line: Vec<char> = vec!['a', 'b', 'a', 'b'];
    let lit = Match::Literal(vec!['a', 'b']);
    assert!(lit.match_at(&line, 0, 2));
    assert!(lit.match_at(&line, 2, 2));
    assert!(!lit.match_at(&line, 1, 2));
    assert!(!lit.match_at(&line, 0, 1));
    assert!(!lit.match_at(&line, 3, 2));
}

#[test]
fn one_or_more_spans_are_all_run_lengths() {
    let line: Vec<char> = vec!['a', 'a', 'a', 'b'];
    let plus = Match::OneOrMore(Box::new(Match::Literal(vec!['a'])));
    assert!(plus.match_at(&line, 0, 1));
    assert!(plus.match_at(&line, 0, 2));
    assert!(plus.match_at(&line, 0, 3));
    assert!(!plus.match_at(&line, 0, 0));
    assert!(!plus.match_at(&line, 0, 4));
}

#[test]
fn negative_group_consumes_exactly_one_character() {
    let line: Vec<char> = vec!['x', 'q'];
    let neg = Match::NegativeGroup(vec!['x', 'y', 'z']);
    assert!(!neg.match_at(&line, 0, 1));
    assert!(neg.match_at(&line, 1, 1));
    assert!(!neg.match_at(&line, 1, 2));
}
