use fakefmt::lexer;

#[test]
fn test_lexer_simple_text() {
    assert_eq!(lexer("Hello"), vec!["Hello"]);
}

#[test]
fn test_lexer_single_token() {
    assert_eq!(lexer("%name"), vec!["%name"]);
}

#[test]
fn test_lexer_text_with_token() {
    assert_eq!(lexer("Hi %name!"), vec!["Hi ", "%name!"]);
}

#[test]
fn test_lexer_multiple_tokens() {
    assert_eq!(lexer("%name%u32"), vec!["%name", "%u32"]);
}

#[test]
fn test_lexer_token_with_punctuation() {
    assert_eq!(lexer("Hello, %name."), vec!["Hello, ", "%name."]);
}

#[test]
fn lexer_leaves_plain_text_in_one_piece() {
    assert_eq!(lexer("Hello"), vec!["Hello"]);
    assert_eq!(lexer("a, b.\n c!"), vec!["a, b.\n c!"]);
    assert!(lexer("").is_empty());
}

#[test]
fn lexer_cuts_adjacent_directives_apart() {
    assert_eq!(lexer("%name%u32"), vec!["%name", "%u32"]);
    assert_eq!(lexer("%%"), vec!["%", "%"]);
    assert_eq!(lexer("a%%b"), vec!["a", "%", "%b"]);
}

#[test]
fn lexer_attaches_the_punctuation_that_ends_a_name() {
    assert_eq!(lexer("Hi %name!"), vec!["Hi ", "%name!"]);
    assert_eq!(lexer("Hello, %name."), vec!["Hello, ", "%name."]);
    assert_eq!(lexer("%name, %u32;"), vec!["%name,", " ", "%u32;"]);
}

#[test]
fn lexer_attaches_one_mark_only() {
    assert_eq!(lexer("%name..."), vec!["%name.", ".."]);
    assert_eq!(lexer("%name?!"), vec!["%name?", "!"]);
    assert_eq!(lexer("%name.foo"), vec!["%name.", "foo"]);
    assert_eq!(lexer("%name.%u32"), vec!["%name.", "%u32"]);
}

#[test]
fn lexer_leaves_whitespace_to_the_next_literal() {
    assert_eq!(lexer("%name %u32"), vec!["%name", " ", "%u32"]);
    assert_eq!(lexer("%name\t1"), vec!["%name", "\t1"]);
    assert_eq!(lexer("%name\n."), vec!["%name", "\n."]);
    assert_eq!(lexer("%name\u{a0}x"), vec!["%name", "\u{a0}x"]);
}

#[test]
fn lexer_keeps_directives_without_a_name() {
    assert_eq!(lexer("%"), vec!["%"]);
    assert_eq!(lexer("100%"), vec!["100", "%"]);
    assert_eq!(lexer("%."), vec!["%."]);
    assert_eq!(lexer("% x"), vec!["%", " x"]);
    assert_eq!(lexer("%.x"), vec!["%.", "x"]);
}

#[test]
fn lexer_keeps_an_unterminated_directive() {
    assert_eq!(lexer("to %na"), vec!["to ", "%na"]);
}

#[test]
fn lexer_takes_other_punctuation_for_part_of_the_name() {
    assert_eq!(lexer("%name\u{3002}x y"), vec!["%name\u{3002}x", " y"]);
    assert_eq!(lexer("%na\u{a1}me"), vec!["%na\u{a1}me"]);
}

#[test]
fn lexer_tokens_concatenate_to_the_input() {
    let inputs = vec![
        "",
        "%",
        "%%",
        "Hello",
        "Hi %name!",
        "%name%u32",
        "Hello, %name.",
        "This is a %unknown token.",
        "100% of %u32%% and %name\t%\n%.",
        "gr\u{fc}\u{df}e %name\u{3002} \u{8d8a}",
    ];
    for input in inputs {
        assert_eq!(lexer(input).concat(), input);
    }
}

#[test]
fn lexer_gives_no_empty_token() {
    for token in lexer("%%a. %b..%  %.") {
        assert!(!token.is_empty());
    }
}
