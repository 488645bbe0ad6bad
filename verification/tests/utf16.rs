use slidge_style_parser::text::{append_chars, chars_of, concat_chars, string_of};
use slidge_style_parser::utf16::utf8_to_utf16_length;

#[test]
fn running_lengths() {
    assert_eq!(utf8_to_utf16_length(""), vec![0]);
    assert_eq!(utf8_to_utf16_length("abc"), vec![0, 1, 2, 3]);
    assert_eq!(utf8_to_utf16_length("a\u{1F600}b"), vec![0, 1, 3, 4]);
    assert_eq!(utf8_to_utf16_length("é越\u{10000}"), vec![0, 1, 2, 4]);
}

#[test]
fn last_length_is_utf16_length() {
    for s in ["", "hello", "a\u{1F600}b\u{1F601}", "\u{FFFF}\u{10000}"] {
        let lengths = utf8_to_utf16_length(s);
        assert_eq!(lengths.len(), s.chars().count() + 1);
        assert_eq!(lengths[lengths.len() - 1], s.encode_utf16().count());
    }
}

#[test]
fn chars_and_back() {
    for s in ["", "abc", "h\u{E9}llo \u{1F600}", "a\nb\\c"] {
        let chars = chars_of(s);
        assert_eq!(chars, s.chars().collect::<Vec<char>>());
        assert_eq!(string_of(&chars), s);
    }
}

#[test]
fn joining_chars() {
    let a: Vec<char> = "ab".chars().collect();
    let b: Vec<char> = "cd".chars().collect();
    assert_eq!(concat_chars(&a, &b), "abcd".chars().collect::<Vec<char>>());
    let mut out = a.clone();
    append_chars(&mut out, &b);
    append_chars(&mut out, &Vec::new());
    assert_eq!(out, "abcd".chars().collect::<Vec<char>>());
}
