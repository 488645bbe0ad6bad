use slidge_style_parser::escape::{remove_non_escaped_backslashes, unescape};

fn norm(s: &str) -> String {
    remove_non_escaped_backslashes(s.to_string())
}

#[test]
fn single_backslash_is_removed() {
    assert_eq!(norm("\\"), "");
    assert_eq!(norm("a\\b"), "ab");
    assert_eq!(norm("\\*x\\*"), "*x*");
}

#[test]
fn double_backslash_leaves_a_backslash() {
    assert_eq!(norm("\\\\"), "\\");
    assert_eq!(norm("a\\\\b"), "a\\b");
}

#[test]
fn runs_are_halved() {
    assert_eq!(norm("\\\\\\"), "\\");
    assert_eq!(norm("\\\\\\\\"), "\\\\");
    assert_eq!(norm("\\\\\\\\\\x"), "\\\\x");
    assert_eq!(norm("\\a\\\\b\\\\\\c"), "a\\b\\c");
}

#[test]
fn text_without_backslash_is_unchanged() {
    assert_eq!(norm(""), "");
    assert_eq!(norm("plain *text*"), "plain *text*");
    let spaces = "\u{200B}".repeat(10);
    assert_eq!(norm(&spaces), spaces);
}

#[test]
fn unescape_on_chars() {
    let chars: Vec<char> = "\\\\n\\é".chars().collect();
    let expected: Vec<char> = "\\né".chars().collect();
    assert_eq!(unescape(&chars), expected);
}
