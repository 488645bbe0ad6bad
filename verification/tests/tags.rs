use slidge_style_parser::tags::{same_chars, TagTable};

fn chars(s: &str) -> Vec<char> {
    s.chars().collect()
}

#[test]
fn empty_table_has_no_entry() {
    let tags = TagTable::new();
    assert!(!tags.contains_key("*"));
    assert!(tags.get(&chars("*")).is_none());
}

#[test]
fn inserted_entry_is_found() {
    let mut tags = TagTable::new();
    tags.insert("*", "<b>", "</b>");
    tags.insert("```language", "<pre {}>", "</pre>");
    assert!(tags.contains_key("*"));
    assert!(tags.contains_key("```language"));
    assert!(!tags.contains_key("```"));
    let entry = tags.get(&chars("*")).unwrap();
    assert_eq!(entry.open, chars("<b>"));
    assert_eq!(entry.close, chars("</b>"));
}

#[test]
fn last_insert_counts() {
    let mut tags = TagTable::new();
    tags.insert("_", "<i>", "</i>");
    tags.insert("_", "<em>", "</em>");
    let entry = tags.get(&chars("_")).unwrap();
    assert_eq!(entry.open, chars("<em>"));
    assert_eq!(entry.close, chars("</em>"));
}

#[test]
fn comparing_chars() {
    assert!(same_chars(&chars(""), &chars("")));
    assert!(same_chars(&chars("ab"), &chars("ab")));
    assert!(!same_chars(&chars("ab"), &chars("ac")));
    assert!(!same_chars(&chars("ab"), &chars("abc")));
}
