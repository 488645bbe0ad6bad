use slidge_style_parser::chars::{char_utf16_width, inline_delimiter, whitespace};

#[test]
fn whitespace_agrees_with_std_on_every_char() {
    for n in 0..=0x10FFFFu32 {
        if let Some(c) = char::from_u32(n) {
            assert_eq!(whitespace(c), c.is_whitespace(), "U+{:04X}", n);
        }
    }
}

#[test]
fn whitespace_examples() {
    assert!(whitespace(' '));
    assert!(whitespace('\n'));
    assert!(whitespace('\t'));
    assert!(whitespace('\u{A0}'));
    assert!(whitespace('\u{3000}'));
    assert!(!whitespace('a'));
    assert!(!whitespace('*'));
    assert!(!whitespace('\u{200B}'));
}

#[test]
fn inline_delimiters() {
    for c in ['*', '_', '~', '`'] {
        assert!(inline_delimiter(c));
    }
    for c in ['|', '>', 'a', ' ', '\\'] {
        assert!(!inline_delimiter(c));
    }
}

#[test]
fn utf16_width_of_chars() {
    assert_eq!(char_utf16_width('a'), 1);
    assert_eq!(char_utf16_width('\u{FFFF}'), 1);
    assert_eq!(char_utf16_width('\u{10000}'), 2);
    assert_eq!(char_utf16_width('\u{1F600}'), 2);
    for c in ['a', 'é', '越', '\u{1F600}', '\u{10FFFF}'] {
        assert_eq!(char_utf16_width(c), c.len_utf16());
    }
}
