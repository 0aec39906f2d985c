use fakefmt::charclass::{is_punctuation, is_whitespace, SENTINEL};

#[test]
fn punctuation_is_the_ascii_punctuation_of_std() {
    for code in 0..=0x10ffffu32 {
        if let Some(c) = char::from_u32(code) {
            assert_eq!(is_punctuation(c), c.is_ascii_punctuation(), "U+{:04X}", code);
        }
    }
}

#[test]
fn whitespace_is_the_whitespace_of_std() {
    for code in 0..=0x10ffffu32 {
        if let Some(c) = char::from_u32(code) {
            assert_eq!(is_whitespace(c), c.is_whitespace(), "U+{:04X}", code);
        }
    }
}

#[test]
fn punctuation_holds_the_listed_characters() {
    let listed = "!\"#$%&'()*+,-./:;<=>?@[\\]^_`{|}~";
    assert_eq!(listed.chars().count(), 32);
    for c in listed.chars() {
        assert!(is_punctuation(c));
    }
    for c in "aZ09 \t\n\u{a1}\u{3002}".chars() {
        assert!(!is_punctuation(c));
    }
}

#[test]
fn whitespace_holds_space_tab_and_newline() {
    for c in " \t\n\r\u{b}\u{c}\u{85}\u{a0}\u{2028}\u{3000}".chars() {
        assert!(is_whitespace(c));
    }
    for c in "a0%.\u{0}\u{8}\u{e}\u{200b}\u{8d8a}".chars() {
        assert!(!is_whitespace(c));
    }
}

#[test]
fn the_sentinel_is_a_percent_sign() {
    assert_eq!(SENTINEL, '%');
    assert!(is_punctuation(SENTINEL));
    assert!(!is_whitespace(SENTINEL));
}
