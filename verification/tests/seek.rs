use slidge_style_parser::seek::{
    follows_odd_backslashes, followed_by_whitespace, is_char_repeating, markers_only, is_nested_quote, preceeded_by_backslash,
    preceeded_by_whitespace, is_quote_start, seek_end, seek_end_block, seek_end_of_line,
    seek_end_of_quote, seek_higher_order_end,
};

fn chars(s: &str) -> Vec<char> {
    s.chars().collect()
}

#[test]
fn backslash_before() {
    assert!(preceeded_by_backslash(&chars("\\*"), 1, 0));
    assert!(!preceeded_by_backslash(&chars("\\\\*"), 2, 0));
    assert!(preceeded_by_backslash(&chars("\\\\\\*"), 3, 0));
    assert!(!preceeded_by_backslash(&chars("a*"), 1, 0));
    assert!(!preceeded_by_backslash(&chars("*"), 0, 0));
}

#[test]
fn first_position_of_range_is_never_escaped() {
    assert!(!preceeded_by_backslash(&chars("\\*"), 1, 1));
}

#[test]
fn quote_starts_at_line_start() {
    assert!(is_quote_start(&chars(">a"), 0, 0));
    assert!(!is_quote_start(&chars("a>"), 1, 0));
    assert!(is_quote_start(&chars("a\n>"), 2, 0));
    assert!(is_quote_start(&chars(">>"), 1, 1));
    assert!(!is_quote_start(&chars(">>"), 0, 1));
    assert!(is_quote_start(&chars(">a\n>>b"), 4, 1));
}

#[test]
fn nested_quote_marker() {
    assert!(is_nested_quote(&chars(">a\n>b"), 3, 1));
    assert!(!is_nested_quote(&chars(">a\n>b"), 3, 0));
    assert!(!is_nested_quote(&chars(">a\n>>b"), 4, 1));
    assert!(is_nested_quote(&chars(">a\n>>b"), 4, 2));
    assert!(!is_nested_quote(&chars(">a\nx>b"), 4, 3));
}

#[test]
fn repeated_chars() {
    assert!(is_char_repeating(&chars("```"), '`', 2, 1, 2));
    assert!(!is_char_repeating(&chars("```"), '`', 2, 2, 2));
    assert!(!is_char_repeating(&chars("``a"), '`', 2, 1, 2));
    assert!(is_char_repeating(&chars("abc"), '`', 0, 1, 2));
    assert!(is_char_repeating(&chars("||"), '|', 1, 1, 1));
}

#[test]
fn whitespace_around() {
    let text = chars("a *b* c");
    assert!(preceeded_by_whitespace(&text, 2, 0));
    assert!(!preceeded_by_whitespace(&text, 4, 0));
    assert!(preceeded_by_whitespace(&text, 4, 4));
    assert!(followed_by_whitespace(&text, 4, 6));
    assert!(!followed_by_whitespace(&text, 2, 6));
    assert!(followed_by_whitespace(&text, 6, 6));
}

#[test]
fn end_of_line() {
    let text = chars("ab\ncd");
    assert_eq!(seek_end_of_line(&text, 0, 4), 2);
    assert_eq!(seek_end_of_line(&text, 2, 4), 2);
    assert_eq!(seek_end_of_line(&text, 3, 4), 5);
    assert_eq!(seek_end_of_line(&text, 0, 1), 2);
}

#[test]
fn markers_in_range() {
    let text = chars(">>a>");
    assert!(markers_only(&text, 0, 2));
    assert!(!markers_only(&text, 0, 3));
    assert!(markers_only(&text, 2, 2));
}

#[test]
fn end_of_quote() {
    assert_eq!(seek_end_of_quote(&chars(">a\n>b\nc"), 0, 6, 0), 5);
    assert_eq!(seek_end_of_quote(&chars(">a\n>b"), 0, 4, 0), 5);
    assert_eq!(seek_end_of_quote(&chars(">a\n"), 0, 2, 0), 2);
    assert_eq!(seek_end_of_quote(&chars(">a\n>>b\n>c"), 4, 8, 1), 6);
}

#[test]
fn closing_delimiter() {
    assert_eq!(seek_end(&chars("*a*"), '*', 1, 0, 2), Some(2));
    assert_eq!(seek_end(&chars("*a b"), '*', 1, 0, 3), None);
    assert_eq!(seek_end(&chars("*a*b*"), '*', 1, 0, 4), Some(4));
    assert_eq!(seek_end(&chars("*a* *b*"), '*', 1, 0, 6), Some(2));
    assert_eq!(seek_end(&chars("*a\nb*"), '*', 1, 0, 4), None);
    assert_eq!(seek_end(&chars("*a *"), '*', 1, 0, 3), None);
    assert_eq!(seek_end(&chars("*a\\*"), '*', 1, 0, 3), None);
    assert_eq!(seek_end(&chars("||a||"), '|', 2, 1, 4), Some(3));
}

#[test]
fn later_closing_delimiter() {
    assert_eq!(seek_higher_order_end(&chars("*a*b*"), '*', 3, 0, 4), Some(4));
    assert_eq!(seek_higher_order_end(&chars("*a* *b*"), '*', 3, 0, 6), None);
    assert_eq!(seek_higher_order_end(&chars("*a*b"), '*', 3, 0, 3), None);
    assert_eq!(seek_higher_order_end(&chars("*a*\nb*"), '*', 3, 0, 5), None);
}

#[test]
fn end_of_code_block() {
    assert_eq!(seek_end_block(&chars("```\ncode\n```"), '`', 3, 11, 0), 8);
    assert_eq!(seek_end_block(&chars("```\ncode\n```\nmore"), '`', 3, 16, 0), 8);
    assert_eq!(seek_end_block(&chars(">```\n>code\n>```"), '`', 4, 14, 1), 10);
}

#[test]
fn end_of_code_block_without_fence() {
    assert_eq!(seek_end_block(&chars("```\ncode"), '`', 3, 7, 0), 8);
    assert_eq!(seek_end_block(&chars("```\ncode\n``"), '`', 3, 10, 0), 11);
    assert_eq!(seek_end_block(&chars("```\ncode\n```x"), '`', 3, 12, 0), 13);
    assert_eq!(seek_end_block(&chars("```\ncode\n"), '`', 3, 8, 0), 9);
    assert_eq!(seek_end_block(&chars(">```\n>code"), '`', 4, 9, 1), 10);
    assert_eq!(seek_end_block(&chars(">```\n>code\n>"), '`', 4, 11, 1), 12);
    assert_eq!(seek_end_block(&chars(">```\n>code\nx"), '`', 4, 10, 1), 10);
}

#[test]
fn closing_delimiter_is_followed_by_space_or_ends_the_range() {
    assert_eq!(seek_end(&chars("*bold*text"), '*', 1, 0, 9), None);
    assert_eq!(seek_end(&chars("*bold* text"), '*', 1, 0, 10), Some(5));
    assert_eq!(seek_end(&chars("*bold*\ntext"), '*', 1, 0, 10), Some(5));
    assert_eq!(seek_end(&chars("*bold*text"), '*', 1, 0, 5), Some(5));
    assert_eq!(seek_end(&chars("*a*b *c*"), '*', 1, 0, 7), None);
    assert_eq!(seek_end(&chars("_a_b_c d_"), '_', 1, 0, 8), Some(8));
}

#[test]
fn closing_bars_are_followed_by_space_or_end_the_range() {
    assert_eq!(seek_end(&chars("||a||b"), '|', 2, 1, 5), None);
    assert_eq!(seek_end(&chars("||a|| b"), '|', 2, 1, 6), Some(3));
    assert_eq!(seek_end(&chars("||a|| b||"), '|', 2, 1, 8), Some(7));
    assert_eq!(seek_end(&chars("||a|| ||b||"), '|', 2, 1, 10), Some(3));
    assert_eq!(seek_higher_order_end(&chars("||a||b||"), '|', 4, 1, 7), Some(6));
    assert_eq!(seek_higher_order_end(&chars("||a|| ||b"), '|', 4, 1, 8), None);
}

#[test]
fn closing_delimiter_is_not_escaped() {
    assert_eq!(seek_end(&chars("*a\\\\*"), '*', 1, 0, 4), Some(4));
    assert_eq!(seek_end(&chars("*a\\\\\\*"), '*', 1, 0, 5), None);
    assert_eq!(seek_end(&chars("\\*"), '*', 1, 0, 1), None);
    assert_eq!(seek_higher_order_end(&chars("*a*\\*"), '*', 3, 0, 4), None);
}

#[test]
fn odd_runs_of_backslashes() {
    assert!(follows_odd_backslashes(&chars("\\*"), 1));
    assert!(!follows_odd_backslashes(&chars("\\\\*"), 2));
    assert!(!follows_odd_backslashes(&chars("*"), 0));
    assert!(follows_odd_backslashes(&chars("a\\"), 2));
}
