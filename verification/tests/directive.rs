use fakefmt::directive::parse_directive;

fn parts(token: &str) -> Option<(String, String)> {
    parse_directive(token).map(|d| (d.name, d.trailing))
}

fn pair(name: &str, trailing: &str) -> Option<(String, String)> {
    Some((name.to_string(), trailing.to_string()))
}

#[test]
fn directive_needs_a_leading_sentinel() {
    assert_eq!(parts(""), None);
    assert_eq!(parts("name"), None);
    assert_eq!(parts(" %name"), None);
    assert_eq!(parts("."), None);
}

#[test]
fn directive_without_punctuation_is_all_name() {
    assert_eq!(parts("%name"), pair("name", ""));
    assert_eq!(parts("%u32"), pair("u32", ""));
    assert_eq!(parts("%"), pair("", ""));
}

#[test]
fn directive_gives_up_its_trailing_punctuation() {
    assert_eq!(parts("%name."), pair("name", "."));
    assert_eq!(parts("%name?!"), pair("name", "?!"));
    assert_eq!(parts("%."), pair("", "."));
    assert_eq!(parts("%%"), pair("", "%"));
    assert_eq!(parts("%..."), pair("", "..."));
}

#[test]
fn directive_keeps_punctuation_inside_the_name() {
    assert_eq!(parts("%na.me"), pair("na.me", ""));
    assert_eq!(parts("%na.me.."), pair("na.me", ".."));
    assert_eq!(parts("%%name"), pair("%name", ""));
    assert_eq!(parts("%.a."), pair(".a", "."));
}

#[test]
fn directive_takes_only_ascii_punctuation_for_trailing() {
    assert_eq!(parts("%name\u{3002}"), pair("name\u{3002}", ""));
    assert_eq!(parts("%name "), pair("name ", ""));
    assert_eq!(parts("%name .") , pair("name ", "."));
}
