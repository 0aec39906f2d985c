use fakefmt::parse;

#[test]
fn test_parse_simple_text() {
    assert_eq!(parse("Hello"), "Hello");
}

#[test]
fn test_parse_text_with_token() {
    let result = parse("Hi %name!");
    assert!(result.starts_with("Hi "));
    assert!(result.ends_with("!"));
}

#[test]
fn test_parse_multiple_tokens() {
    let result = parse("%name%u32");
    assert!(result.contains(char::is_numeric));
}

#[test]
fn test_parse_token_with_punctuation() {
    let result = parse("Hello, %name.");
    assert!(result.starts_with("Hello, "));
    assert!(result.ends_with("."));
}

#[test]
fn test_parse_no_tokens() {
    assert_eq!(parse("This is a test."), "This is a test.");
}

#[test]
fn test_parse_unknown_token() {
    assert_eq!(
        parse("This is a %unknown token."),
        "This is a %unknown token."
    );
}

#[test]
fn parse_of_u32_alone_is_a_number() {
    for _ in 0..200 {
        let result = parse("%u32");
        assert!(!result.is_empty());
        assert!(result.chars().all(|c| c.is_ascii_digit()));
        assert!(result.parse::<u32>().is_ok());
    }
}

#[test]
fn parse_puts_the_value_right_before_the_punctuation() {
    let result = parse("Hello, %u32.");
    let number = &result["Hello, ".len()..result.len() - 1];
    assert!(!number.is_empty());
    assert!(number.chars().all(|c| c.is_ascii_digit()));
    assert_eq!(result, format!("Hello, {}.", number));
}

#[test]
fn parse_replaces_a_name_by_some_text() {
    let result = parse("%name");
    assert!(!result.is_empty());
    assert!(!result.contains('%'));
}

#[test]
fn parse_leaves_malformed_input_alone() {
    assert_eq!(parse(""), "");
    assert_eq!(parse("%"), "%");
    assert_eq!(parse("%%%"), "%%%");
    assert_eq!(parse("100%"), "100%");
    assert_eq!(parse("%."), "%.");
    assert_eq!(parse("% name"), "% name");
    assert_eq!(parse("%names %u3 %U32"), "%names %u3 %U32");
}

#[test]
fn parse_returns_text_without_sentinel_unchanged() {
    let inputs = vec!["", "Hello", "name u32", "a, b.\n\tc!", "\u{8d8a} \u{a0}x"];
    for input in inputs {
        assert_eq!(parse(input), input);
    }
}
