use slidge_style_parser::cover::delimiter_mask;
use slidge_style_parser::span::{Keyword, Span};
use slidge_style_parser::telegram::{parse_for_telegram, strip, style_of, stripped_keyword};

fn entity(style: &str, start: usize, end: usize, language: &str) -> (String, usize, usize, String) {
    (style.to_string(), start, end, language.to_string())
}

#[test]
fn italics_entity() {
    let (text, entities) = parse_for_telegram("_hi_".to_string());
    assert_eq!(text, "hi");
    assert_eq!(entities, vec![entity("italics", 0, 2, "")]);
}

#[test]
fn code_block_with_language() {
    let (text, entities) = parse_for_telegram("```python\ncode\n```".to_string());
    assert_eq!(text, "code");
    assert_eq!(entities, vec![entity("pre", 0, 4, "python")]);
}

#[test]
fn surrogate_pair_counts_twice() {
    let (text, entities) = parse_for_telegram("*a\u{1F600}b* _c_".to_string());
    assert_eq!(text, "a\u{1F600}b c");
    assert_eq!(entities, vec![entity("bold", 0, 4, ""), entity("italics", 5, 6, "")]);
}

#[test]
fn empty_body_has_no_entities() {
    let (text, entities) = parse_for_telegram(String::new());
    assert_eq!(text, "");
    assert!(entities.is_empty());
}

fn extract(body: &str) -> (String, Vec<(String, usize, usize, String)>) {
    parse_for_telegram(body.to_string())
}

#[test]
fn every_style_has_its_name() {
    assert_eq!(extract("*b*"), ("b".to_string(), vec![entity("bold", 0, 1, "")]));
    assert_eq!(extract("~s~"), ("s".to_string(), vec![entity("strikethrough", 0, 1, "")]));
    assert_eq!(extract("||s||"), ("s".to_string(), vec![entity("spoiler", 0, 1, "")]));
    assert_eq!(extract("`c`"), ("c".to_string(), vec![entity("code", 0, 1, "")]));
    assert_eq!(extract("```\nc\n```"), ("c".to_string(), vec![entity("pre", 0, 1, "")]));
}

#[test]
fn plain_text_is_unchanged() {
    for s in ["plain text", "a\\b", "line\nbreak", "1 + 1 = 2", "\u{1F600}"] {
        assert_eq!(extract(s), (s.to_string(), vec![]));
    }
}

#[test]
fn nested_entities() {
    assert_eq!(
        extract("*_~`code span`~_*"),
        (
            "code span".to_string(),
            vec![
                entity("bold", 0, 9, ""),
                entity("italics", 0, 9, ""),
                entity("strikethrough", 0, 9, ""),
                entity("code", 0, 9, ""),
            ]
        )
    );
    assert_eq!(
        extract("a *b _c_ d* e"),
        ("a b c d e".to_string(), vec![entity("bold", 2, 7, ""), entity("italics", 4, 5, "")])
    );
}

#[test]
fn quotes_stay_in_the_text() {
    assert_eq!(extract("> quote\n> continued"), ("> quote\n> continued".to_string(), vec![]));
    assert_eq!(
        extract(">*b*\n>c"),
        (">b\n>c".to_string(), vec![entity("bold", 1, 2, "")])
    );
}

#[test]
fn markers_in_code_blocks_are_stripped() {
    assert_eq!(
        extract(">```py\n>x\n>>y\n>```"),
        (">x\n>y".to_string(), vec![entity("pre", 1, 5, "py")])
    );
    assert_eq!(
        extract("*bold*\n>```\n>code\n>```\n>_q_\nlast ~s~"),
        (
            "bold\n>code\n>_q_\nlast s".to_string(),
            vec![
                entity("bold", 0, 4, ""),
                entity("pre", 6, 10, ""),
                entity("strikethrough", 21, 22, ""),
            ]
        )
    );
}

#[test]
fn escaping_backslashes_stay() {
    assert_eq!(extract("\\*a*"), ("\\*a*".to_string(), vec![]));
}

#[test]
fn offsets_count_utf16_units() {
    assert_eq!(
        extract("\u{1F600} *\u{1F600}\u{E9}* `\u{10000}`"),
        (
            "\u{1F600} \u{1F600}\u{E9} \u{10000}".to_string(),
            vec![entity("bold", 3, 6, ""), entity("code", 7, 9, "")]
        )
    );
}

#[test]
fn entities_lie_in_the_text_and_nest() {
    for s in [
        "*bold _both_ ~x~* `c` ||s p||",
        ">a\n>>b *c*\n>```\n>code\n>```\n>d\n\n```py\n\u{1F600}\n```\n_e_",
        "*\u{1F600} _b_* ~\u{1F600}~",
        "*a _b* c_",
    ] {
        let (text, entities) = extract(s);
        let len = text.encode_utf16().count();
        for e in &entities {
            assert!(e.1 <= e.2 && e.2 <= len, "{:?} in {:?}", e, s);
        }
        for (i, a) in entities.iter().enumerate() {
            for b in &entities[i + 1..] {
                let disjoint = a.2 <= b.1 || b.2 <= a.1;
                let a_in_b = b.1 <= a.1 && a.2 <= b.2;
                let b_in_a = a.1 <= b.1 && b.2 <= a.2;
                assert!(disjoint || a_in_b || b_in_a, "{:?} {:?} in {:?}", a, b, s);
                assert!(a.1 <= b.1);
            }
        }
    }
}

#[test]
fn deep_nesting_ends_without_failure() {
    let deep = 500;
    let mut body = String::new();
    for i in 0..deep {
        body.push(if i % 2 == 0 { '*' } else { '_' });
    }
    body.push('x');
    for i in (0..deep).rev() {
        body.push(if i % 2 == 0 { '*' } else { '_' });
    }
    let (text, entities) = extract(&body);
    assert_eq!(entities.len(), 101);
    assert_eq!(text.chars().count(), 2 * deep + 1 - 2 * 101);
    assert_eq!(entities[0], entity("bold", 0, 2 * (deep - 101) + 1, ""));
}

#[test]
fn style_names() {
    assert_eq!(style_of(Keyword::Italics), "italics");
    assert_eq!(style_of(Keyword::Bold), "bold");
    assert_eq!(style_of(Keyword::Strikethrough), "strikethrough");
    assert_eq!(style_of(Keyword::Spoiler), "spoiler");
    assert_eq!(style_of(Keyword::Code), "code");
    assert_eq!(style_of(Keyword::Fence), "pre");
    assert_eq!(style_of(Keyword::FenceLanguage), "pre");
    assert!(stripped_keyword(Keyword::FenceQuote));
    assert!(!stripped_keyword(Keyword::Quote));
    assert!(!stripped_keyword(Keyword::NestedQuote));
}

#[test]
fn stripping_by_mask() {
    let chars: Vec<char> = "*ab* c".chars().collect();
    let spans = vec![Span {
        keyword: Keyword::Bold,
        start: 0,
        content_start: 1,
        content_end: 3,
        delimiter_end: 4,
    }];
    let mask = delimiter_mask(chars.len(), &spans, &vec![true]);
    assert_eq!(mask, vec![true, false, false, true, false, false]);
    let (left, positions) = strip(&chars, &mask);
    assert_eq!(left, "ab c".chars().collect::<Vec<char>>());
    assert_eq!(positions, vec![0, 0, 1, 2, 2, 3, 4]);
    let unmarked = delimiter_mask(chars.len(), &spans, &vec![false]);
    assert_eq!(unmarked, vec![false; 6]);
}

#[test]
fn code_block_without_end_is_an_entity() {
    assert_eq!(extract("```\ncode"), ("code".to_string(), vec![entity("pre", 0, 4, "")]));
    assert_eq!(
        extract("a\n```rs\nb\nc"),
        ("a\nb\nc".to_string(), vec![entity("pre", 2, 5, "rs")])
    );
    assert_eq!(extract("```code"), ("```code".to_string(), vec![]));
}

#[test]
fn closer_before_text_gives_no_entity() {
    assert_eq!(extract("*bold*text"), ("*bold*text".to_string(), vec![]));
    assert_eq!(extract("|| a||"), ("|| a||".to_string(), vec![]));
    assert_eq!(extract("*bold*\ntext"), ("bold\ntext".to_string(), vec![entity("bold", 0, 4, "")]));
}
