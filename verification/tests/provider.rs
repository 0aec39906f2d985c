use fakefmt::strings::same_text;
use fakefmt::{ContentProvider, FakeData};

#[test]
fn fake_data_recognizes_name_and_u32_only() {
    assert!(FakeData.recognizes("name"));
    assert!(FakeData.recognizes("u32"));
    assert!(!FakeData.recognizes(""));
    assert!(!FakeData.recognizes("unknown"));
    assert!(!FakeData.recognizes("Name"));
    assert!(!FakeData.recognizes("u64"));
    assert!(!FakeData.recognizes("name "));
}

#[test]
fn fake_data_gives_a_number_for_u32() {
    for _ in 0..200 {
        let value = FakeData.generate("u32");
        assert!(!value.is_empty());
        assert!(value.chars().all(|c| c.is_ascii_digit()));
        let n: u32 = value.parse().unwrap();
        assert_eq!(n.to_string(), value);
    }
}

#[test]
fn fake_data_gives_different_numbers() {
    let first = FakeData.generate("u32");
    let mut differs = false;
    for _ in 0..64 {
        differs = differs || FakeData.generate("u32") != first;
    }
    assert!(differs);
}

#[test]
fn fake_data_gives_a_first_and_a_last_name() {
    for _ in 0..50 {
        let value = FakeData.generate("name");
        let words: Vec<&str> = value.split(' ').collect();
        assert!(words.len() >= 2);
        assert!(words.iter().all(|word| !word.is_empty()));
    }
}

#[test]
fn same_text_compares_character_by_character() {
    assert!(same_text("", ""));
    assert!(same_text("name", "name"));
    assert!(!same_text("name", "names"));
    assert!(!same_text("name", "Name"));
    assert!(!same_text("", " "));
}
