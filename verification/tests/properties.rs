use simple_text_pattern::{Parser, Pattern};

#[test]
fn compile_succeeds_on_any_nonempty_pattern() {
    assert!(Pattern::new("a").is_ok());
    assert!(Pattern::new("*").is_ok());
    assert!(Pattern::new("***").is_ok());
    assert!(Pattern::new("some*text").is_ok());
    assert!(Pattern::new(" ").is_ok());
    assert!(Pattern::new("").is_err());
}

#[test]
fn empty_pattern_error_message() {
    let err = Pattern::new("").err().expect("empty pattern must be rejected");
    assert_eq!(err.message(), "Input pattern is empty");
}

#[test]
fn parser_parse_matches_pattern_new() {
    let parser = Parser::new();
    let pattern = parser.parse("a*c").expect("non-empty pattern must compile");
    assert_eq!(true, pattern.is_match("abc"));
    assert_eq!(true, pattern.is_match("ac"));
    assert_eq!(false, pattern.is_match("ab"));
    assert!(Parser::new().parse("").is_err());
}

#[test]
fn literal_pattern_is_exact_equality() {
    let pattern = Pattern::new("a").expect("pattern must compile");
    assert_eq!(true, pattern.is_match("a"));
    assert_eq!(false, pattern.is_match(""));
    assert_eq!(false, pattern.is_match("aa"));
}

#[test]
fn consecutive_wildcards_collapse() {
    let doubled = Pattern::new("a**b").expect("pattern must compile");
    let single = Pattern::new("a*b").expect("pattern must compile");
    for input in ["ab", "axxb", "a", "b", "ba", "", "aXbYb"] {
        assert_eq!(single.is_match(input), doubled.is_match(input));
    }
    assert_eq!(true, doubled.is_match("ab"));
    assert_eq!(true, doubled.is_match("axxb"));
    assert_eq!(false, doubled.is_match("a"));
    assert_eq!(false, doubled.is_match("ba"));

    let stars = Pattern::new("**").expect("pattern must compile");
    assert_eq!(true, stars.is_match(""));
    assert_eq!(true, stars.is_match("anything"));
}

#[test]
fn repeated_matching_is_deterministic() {
    let pattern = Pattern::new("abc*def").expect("pattern must compile");
    let first = pattern.is_match("abcabcdefdef");
    for _ in 0..5 {
        assert_eq!(first, pattern.is_match("abcabcdefdef"));
    }
    let cloned = pattern.clone();
    assert_eq!(first, cloned.is_match("abcabcdefdef"));
}

#[test]
fn overlapping_occurrences_are_all_considered() {
    let pattern = Pattern::new("*aa").expect("pattern must compile");
    assert_eq!(true, pattern.is_match("aaa"));
    assert_eq!(true, pattern.is_match("aa"));
    assert_eq!(false, pattern.is_match("a"));

    let pattern = Pattern::new("a*aa").expect("pattern must compile");
    assert_eq!(true, pattern.is_match("aaa"));
    assert_eq!(false, pattern.is_match("aa"));
}

#[test]
fn several_wildcards_and_literals() {
    let pattern = Pattern::new("a*b*c").expect("pattern must compile");
    assert_eq!(true, pattern.is_match("abc"));
    assert_eq!(true, pattern.is_match("aXbYc"));
    assert_eq!(true, pattern.is_match("abbcc"));
    assert_eq!(false, pattern.is_match("acb"));
    assert_eq!(false, pattern.is_match("ab"));
    assert_eq!(false, pattern.is_match("cba"));
}

#[test]
fn wildcard_matches_zero_characters() {
    let pattern = Pattern::new("some*text").expect("pattern must compile");
    assert_eq!(true, pattern.is_match("sometext"));
    assert_eq!(true, pattern.is_match("some text"));
    assert_eq!(false, pattern.is_match("not some text"));
}
