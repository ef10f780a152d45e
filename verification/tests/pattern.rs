use simple_text_pattern::Pattern;

#[test]
fn test_empty_pattern() {
    assert_eq!(true, Pattern::new("").is_err());
}

#[test]
fn test_text_pattern() {
    let pattern = Pattern::new("abcdef").expect("Unable to build text pattern");
    assert_eq!(false, pattern.is_match(""));
    assert_eq!(true, pattern.is_match("abcdef"));
    assert_eq!(false, pattern.is_match("1abcdef"));
    assert_eq!(false, pattern.is_match("abcdef1"));
    assert_eq!(false, pattern.is_match("abc"));
}

#[test]
fn test_any_pattern() {
    let pattern = Pattern::new("*").expect("Unable to build any pattern");
    assert_eq!(true, pattern.is_match(""));
    assert_eq!(true, pattern.is_match("abcdef"));
    assert_eq!(true, pattern.is_match("1abcdef"));
    assert_eq!(true, pattern.is_match("abcdef1"));
    assert_eq!(true, pattern.is_match("abc"));
}

#[test]
fn test_text_n_any_pattern() {
    let pattern = Pattern::new("abc*").expect("Unable to build any pattern with text pattern");
    assert_eq!(false, pattern.is_match(""));
    assert_eq!(true, pattern.is_match("abcdef"));
    assert_eq!(false, pattern.is_match("1abcdef"));
    assert_eq!(true, pattern.is_match("abcdef1"));
    assert_eq!(true, pattern.is_match("abc"));
    assert_eq!(false, pattern.is_match("q"));
    assert_eq!(false, pattern.is_match("qwe"));

    let pattern = Pattern::new("*abc").expect("Unable to build any pattern with text pattern");
    assert_eq!(false, pattern.is_match(""));
    assert_eq!(false, pattern.is_match("abcdef"));
    assert_eq!(false, pattern.is_match("1abcdef"));
    assert_eq!(false, pattern.is_match("abcdef1"));
    assert_eq!(true, pattern.is_match("abc"));
    assert_eq!(true, pattern.is_match("svsdfvsdfabc"));

    let pattern = Pattern::new("abc*def").expect("Unable to build any pattern with text pattern");
    assert_eq!(false, pattern.is_match(""));
    assert_eq!(true, pattern.is_match("abcdef"));
    assert_eq!(false, pattern.is_match("1abcdef"));
    assert_eq!(false, pattern.is_match("abcdef1"));
    assert_eq!(false, pattern.is_match("abc"));
    assert_eq!(true, pattern.is_match("abcabcdefdef"));
    assert_eq!(true, pattern.is_match("abc1def"));
    assert_eq!(true, pattern.is_match("abc1sdfvsdvdef"));
}
