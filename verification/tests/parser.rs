use slidge_style_parser::parser::{
    fence_at, inline_at, parse_level, parse_quotes_in_code_block, parse_with_limits, quote_at,
    scan, spoiler_at, MAX_NESTING,
};
use slidge_style_parser::span::{language_of, Keyword, Span};

fn chars(s: &str) -> Vec<char> {
    s.chars().collect()
}

fn span(
    keyword: Keyword,
    start: usize,
    content_start: usize,
    content_end: usize,
    delimiter_end: usize,
) -> Span {
    Span { keyword, start, content_start, content_end, delimiter_end }
}

fn parse(s: &str) -> Vec<Span> {
    let text = chars(s);
    parse_with_limits(&text, 0, text.len().saturating_sub(1), 0)
}

#[test]
fn no_spans_in_plain_text() {
    assert_eq!(parse("plain text"), vec![]);
    assert_eq!(parse(""), vec![]);
    assert_eq!(parse("a * b"), vec![]);
    assert_eq!(parse("*a"), vec![]);
    assert_eq!(parse("a*b*"), vec![]);
}

#[test]
fn inline_spans() {
    assert_eq!(parse("*bold*"), vec![span(Keyword::Bold, 0, 1, 5, 6)]);
    assert_eq!(parse("_hi_"), vec![span(Keyword::Italics, 0, 1, 3, 4)]);
    assert_eq!(parse("a ~b~"), vec![span(Keyword::Strikethrough, 2, 3, 4, 5)]);
    assert_eq!(parse("`c`"), vec![span(Keyword::Code, 0, 1, 2, 3)]);
    assert_eq!(parse("||a|| b"), vec![span(Keyword::Spoiler, 0, 2, 3, 5)]);
}

#[test]
fn spans_in_order_with_their_content() {
    assert_eq!(
        parse("*_~`code span`~_*"),
        vec![
            span(Keyword::Bold, 0, 1, 16, 17),
            span(Keyword::Italics, 1, 2, 15, 16),
            span(Keyword::Strikethrough, 2, 3, 14, 15),
            span(Keyword::Code, 3, 4, 13, 14),
        ]
    );
    assert_eq!(
        parse("_a_\n_b_"),
        vec![span(Keyword::Italics, 0, 1, 2, 3), span(Keyword::Italics, 4, 5, 6, 7)]
    );
}

#[test]
fn code_is_not_scanned() {
    assert_eq!(parse("`*~_code span_~*`"), vec![span(Keyword::Code, 0, 1, 16, 17)]);
}

#[test]
fn ambiguous_closers() {
    assert_eq!(parse("*a* b*"), vec![span(Keyword::Bold, 0, 1, 5, 6)]);
    assert_eq!(
        parse("*a* *b*"),
        vec![span(Keyword::Bold, 0, 1, 2, 3), span(Keyword::Bold, 4, 5, 6, 7)]
    );
}

#[test]
fn escaped_delimiters_open_nothing() {
    assert_eq!(parse("\\*a*"), vec![]);
    assert_eq!(parse("\\\\_underline_"), vec![]);
    assert_eq!(parse("*a\\* b*"), vec![span(Keyword::Bold, 0, 1, 6, 7)]);
}

#[test]
fn quotes() {
    assert_eq!(parse(">q"), vec![span(Keyword::Quote, 0, 1, 2, 2)]);
    assert_eq!(
        parse("> quote\n> continued\n\nafter"),
        vec![span(Keyword::Quote, 0, 1, 19, 19), span(Keyword::NestedQuote, 8, 9, 9, 9)]
    );
    assert_eq!(
        parse(">>> nested"),
        vec![
            span(Keyword::Quote, 0, 1, 10, 10),
            span(Keyword::Quote, 1, 2, 10, 10),
            span(Keyword::Quote, 2, 3, 10, 10),
        ]
    );
    assert_eq!(
        parse(">a\n>>b\n>c"),
        vec![
            span(Keyword::Quote, 0, 1, 9, 9),
            span(Keyword::NestedQuote, 3, 4, 4, 4),
            span(Keyword::Quote, 4, 5, 6, 6),
            span(Keyword::NestedQuote, 7, 8, 8, 8),
        ]
    );
}

#[test]
fn code_blocks() {
    assert_eq!(parse("```\ncode\n```"), vec![span(Keyword::Fence, 0, 4, 8, 12)]);
    assert_eq!(
        parse("```python\ncode\n```"),
        vec![span(Keyword::FenceLanguage, 0, 10, 14, 18)]
    );
    assert_eq!(
        parse("```\ncode\n```\n*b*"),
        vec![span(Keyword::Fence, 0, 4, 8, 12), span(Keyword::Bold, 13, 14, 15, 16)]
    );
    assert_eq!(parse("```\na\n```x\n```"), vec![span(Keyword::Fence, 0, 4, 10, 14)]);
}

#[test]
fn code_block_without_end() {
    assert_eq!(parse("```\ncode"), vec![span(Keyword::Fence, 0, 4, 8, 8)]);
    assert_eq!(parse("```rs\ncode\n"), vec![span(Keyword::FenceLanguage, 0, 6, 11, 11)]);
}

#[test]
fn code_blocks_that_are_none() {
    assert_eq!(parse("```code```"), vec![]);
    assert_eq!(parse("```\n"), vec![]);
    assert_eq!(parse("```\n```"), vec![]);
    assert_eq!(parse("```py\n```"), vec![]);
    assert_eq!(parse("a ```\ncode\n```"), vec![]);
}

#[test]
fn code_blocks_in_quotes() {
    assert_eq!(
        parse(">```\n>code\n>```\n>more"),
        vec![
            span(Keyword::Quote, 0, 1, 21, 21),
            span(Keyword::Fence, 1, 5, 10, 15),
            span(Keyword::FenceQuote, 5, 6, 6, 6),
            span(Keyword::NestedQuote, 16, 17, 17, 17),
        ]
    );
    assert_eq!(
        parse(">```\n>code"),
        vec![
            span(Keyword::Quote, 0, 1, 10, 10),
            span(Keyword::Fence, 1, 5, 10, 10),
            span(Keyword::FenceQuote, 5, 6, 6, 6),
        ]
    );
    assert_eq!(
        parse(">```py\n>x\n>>y\n>```"),
        vec![
            span(Keyword::Quote, 0, 1, 18, 18),
            span(Keyword::FenceLanguage, 1, 7, 13, 18),
            span(Keyword::FenceQuote, 7, 8, 8, 8),
            span(Keyword::FenceQuote, 10, 11, 11, 11),
        ]
    );
}

#[test]
fn range_is_cut_to_the_text() {
    let text = chars("*a* _b_");
    assert_eq!(
        parse_with_limits(&text, 0, 1000, 0),
        vec![span(Keyword::Bold, 0, 1, 2, 3), span(Keyword::Italics, 4, 5, 6, 7)]
    );
    assert_eq!(parse_with_limits(&text, 4, 6, 0), vec![span(Keyword::Italics, 4, 5, 6, 7)]);
    assert_eq!(parse_with_limits(&text, 0, 2, 0), vec![span(Keyword::Bold, 0, 1, 2, 3)]);
    assert_eq!(parse_with_limits(&text, 5, 3, 0), vec![]);
    assert_eq!(parse_with_limits(&text, 100, 200, 0), vec![]);
}

#[test]
fn spans_nest_or_are_disjoint() {
    for s in [
        "*bold _both_ ~x~* `c` ||s p||",
        ">a\n>>b *c*\n>```\n>code\n>```\n>d\n\n```py\nx\n```\n_e_",
        "*a _b* c_",
        ">```\n>code\n>",
    ] {
        let spans = parse(s);
        let len = s.chars().count();
        for a in &spans {
            assert!(a.start < a.content_start);
            assert!(a.content_start <= a.content_end);
            assert!(a.content_end <= a.delimiter_end);
            assert!(a.delimiter_end <= len);
        }
        for (i, a) in spans.iter().enumerate() {
            for b in &spans[i + 1..] {
                let inside = a.content_start <= b.start && b.delimiter_end <= a.content_end;
                let behind = a.delimiter_end <= b.start;
                assert!(inside || behind, "{:?} {:?} in {:?}", a, b, s);
            }
        }
    }
}

#[test]
fn nesting_beyond_the_ceiling_is_plain_text() {
    let deep = MAX_NESTING + 50;
    let mut text = String::new();
    for i in 0..deep {
        text.push(if i % 2 == 0 { '*' } else { '_' });
    }
    text.push('x');
    for i in (0..deep).rev() {
        text.push(if i % 2 == 0 { '*' } else { '_' });
    }
    let spans = parse(&text);
    assert_eq!(spans.len(), MAX_NESTING + 1);
    for (i, s) in spans.iter().enumerate() {
        assert_eq!(s.start, i);
        assert_eq!(s.delimiter_end, 2 * deep + 1 - i);
    }
    let quotes = ">".repeat(deep) + "x";
    assert_eq!(parse(&quotes).len(), MAX_NESTING + 1);
}

#[test]
fn levels_limit_the_nesting() {
    let text = chars("*a _b ~c~_*");
    assert_eq!(parse_level(&text, 0, 10, 0, 0), vec![span(Keyword::Bold, 0, 1, 10, 11)]);
    assert_eq!(
        parse_level(&text, 0, 10, 0, 1),
        vec![span(Keyword::Bold, 0, 1, 10, 11), span(Keyword::Italics, 3, 4, 9, 10)]
    );
    assert_eq!(parse_level(&text, 0, 10, 0, 2).len(), 3);
}

#[test]
fn markers_inside_code_block() {
    let text = chars(">```\n>a\n>>b\n>```");
    assert_eq!(
        parse_quotes_in_code_block(&text, 5, 10, 1),
        vec![span(Keyword::FenceQuote, 5, 6, 6, 6), span(Keyword::FenceQuote, 8, 9, 9, 9)]
    );
    assert_eq!(parse_quotes_in_code_block(&text, 5, 10, 0), vec![]);
}

#[test]
fn single_scans() {
    let text = chars("a *b* ||c|| >d");
    let none = scan(&text, 0, 0, 13, 0);
    assert_eq!(none.span, None);
    assert_eq!(none.next, 1);
    let bold = scan(&text, 2, 0, 13, 0);
    assert_eq!(bold.span, Some(span(Keyword::Bold, 2, 3, 4, 5)));
    assert_eq!(bold.next, 5);
    assert_eq!(inline_at(&text, 2, 13).span, Some(span(Keyword::Bold, 2, 3, 4, 5)));
    let spoiler = spoiler_at(&text, 6, 13);
    assert_eq!(spoiler.span, Some(span(Keyword::Spoiler, 6, 8, 9, 11)));
    assert_eq!(spoiler.next, 11);
    let quote = quote_at(&text, 12, 13, 0);
    assert_eq!(quote.span, None);
    assert_eq!(quote.next, 13);
    let fenced = chars("```\nx\n```");
    let block = fence_at(&fenced, 0, 8, 0);
    assert_eq!(block.span, Some(span(Keyword::Fence, 0, 4, 5, 9)));
    assert_eq!(block.next, 9);
}

#[test]
fn language_of_code_block() {
    let text = chars("```python\ncode\n```");
    assert_eq!(language_of(&text, span(Keyword::FenceLanguage, 0, 10, 14, 18)), "python");
    assert_eq!(language_of(&text, span(Keyword::Fence, 0, 10, 14, 18)), "");
    assert_eq!(language_of(&text, span(Keyword::FenceLanguage, 0, 4, 14, 18)), "");
}

#[test]
fn keyword_names() {
    assert_eq!(Keyword::Bold.as_str(), "*");
    assert_eq!(Keyword::Italics.as_str(), "_");
    assert_eq!(Keyword::Strikethrough.as_str(), "~");
    assert_eq!(Keyword::Spoiler.as_str(), "||");
    assert_eq!(Keyword::Code.as_str(), "`");
    assert_eq!(Keyword::Fence.as_str(), "```");
    assert_eq!(Keyword::FenceLanguage.as_str(), "```language");
    assert_eq!(Keyword::Quote.as_str(), ">");
    assert_eq!(Keyword::NestedQuote.as_str(), ">>");
    assert_eq!(Keyword::FenceQuote.as_str(), "```>");
}

#[test]
fn inline_spans_obey_their_rules() {
    for s in [
        "*bold _both_ ~x~* `c` ||s p|| *a*b* _x_y ||z||w",
        ">a *b*\n>>c _d_\n\n```\n*e*\n```\n~f~ || g|| ||h|| i||",
        "*a\n* _b\n_ `c` \\*d* *e\\* f*",
    ] {
        let text = chars(s);
        let spans = parse(s);
        for (i, span) in spans.iter().enumerate() {
            let (delimiter, width) = match span.keyword {
                Keyword::Bold => ('*', 1),
                Keyword::Italics => ('_', 1),
                Keyword::Strikethrough => ('~', 1),
                Keyword::Code => ('`', 1),
                Keyword::Spoiler => ('|', 2),
                _ => continue,
            };
            assert_eq!(span.content_start - span.start, width);
            assert_eq!(span.delimiter_end - span.content_end, width);
            assert!(span.content_start < span.content_end);
            for k in (span.start..span.content_start).chain(span.content_end..span.delimiter_end) {
                assert_eq!(text[k], delimiter);
            }
            assert!(!text[span.content_start].is_whitespace());
            assert!(!text[span.content_end - 1].is_whitespace());
            assert!(!text[span.start..span.delimiter_end].contains(&'\n'));
            let ends_text = span.delimiter_end == text.len();
            let before_space = !ends_text && text[span.delimiter_end].is_whitespace();
            let ends_content = spans[..i].iter().any(|outer| outer.content_end == span.delimiter_end);
            assert!(ends_text || before_space || ends_content, "{:?} in {:?}", span, s);
        }
    }
}

#[test]
fn closer_before_text_closes_nothing() {
    assert_eq!(parse("*bold*text"), vec![]);
    assert_eq!(parse("_x_y"), vec![]);
    assert_eq!(parse("`a`b"), vec![]);
    assert_eq!(parse("||a||b"), vec![]);
    assert_eq!(parse("*a*b *c*"), vec![span(Keyword::Bold, 5, 6, 7, 8)]);
    assert_eq!(parse("*a*, b"), vec![]);
}

#[test]
fn bars_before_space_open_nothing() {
    assert_eq!(parse("|| a||"), vec![]);
    assert_eq!(parse("||\na||"), vec![]);
    assert_eq!(parse("||"), vec![]);
    assert_eq!(parse("||a ||"), vec![]);
    assert_eq!(parse("a ||b|| c"), vec![span(Keyword::Spoiler, 2, 4, 5, 7)]);
}

#[test]
fn later_bars_are_preferred() {
    assert_eq!(parse("||a|| b||"), vec![span(Keyword::Spoiler, 0, 2, 7, 9)]);
    assert_eq!(
        parse("||a|| ||b||"),
        vec![span(Keyword::Spoiler, 0, 2, 3, 5), span(Keyword::Spoiler, 6, 8, 9, 11)]
    );
}

#[test]
fn markers_of_code_block_in_any_range() {
    let text = chars(">```\n>a\n>>b\n>```");
    assert_eq!(parse_quotes_in_code_block(&text, 5, 1000, 0), vec![]);
    assert_eq!(parse_quotes_in_code_block(&text, 0, usize::MAX, 0), vec![]);
    assert_eq!(parse_quotes_in_code_block(&Vec::new(), 0, 10, 3), vec![]);
    assert_eq!(
        parse_quotes_in_code_block(&text, 5, 1000, 1),
        vec![
            span(Keyword::FenceQuote, 5, 6, 6, 6),
            span(Keyword::FenceQuote, 8, 9, 9, 9),
            span(Keyword::FenceQuote, 12, 13, 13, 13),
        ]
    );
    assert_eq!(parse_quotes_in_code_block(&text, 12, 3, 1), vec![]);
}
