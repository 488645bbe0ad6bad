//! The rules that every span of an inline style obeys: where it may open,
//! where it may close, and that it stays on its line.

use vstd::prelude::*;
use crate::chars::{is_inline_delimiter, is_whitespace};
use crate::nesting::lemma_fence_markers_nested;
use crate::parser::{
    advance, content_depth, content_spans, lemma_scan_in_range, range_end, scan_at, spans_from,
    spans_of, MAX_NESTING,
};
use crate::seek::{
    backslashes_before, is_escaped, lemma_closing_rules, opens_after_space, repeats, space_follows,
};
use crate::span::{Keyword, SpanView};

verus! {

/// The keyword of an inline style: a span of it lies on one line between
/// two equal delimiters.
pub open spec fn is_inline(keyword: Keyword) -> bool {
    keyword == Keyword::Bold || keyword == Keyword::Italics || keyword == Keyword::Strikethrough
        || keyword == Keyword::Code || keyword == Keyword::Spoiler
}

/// The character that the delimiters of an inline style are made of.
pub open spec fn delimiter_char(keyword: Keyword) -> char {
    match keyword {
        Keyword::Bold => '*',
        Keyword::Italics => '_',
        Keyword::Strikethrough => '~',
        Keyword::Spoiler => '|',
        _ => '`',
    }
}

/// The shape of a span of an inline style, wherever it was found: its two
/// delimiters are equally long and made of the character of its keyword;
/// white space neither follows the opening delimiter nor precedes the
/// closing delimiter; the closing delimiter is not escaped; the content is
/// not empty; and no line break lies in the span.
pub open spec fn inline_shape(chars: Seq<char>, span: SpanView) -> bool {
    is_inline(span.keyword) ==> {
        let width = span.content_start - span.start;
        &&& width == (if span.keyword == Keyword::Spoiler {
            2int
        } else {
            1int
        })
        &&& span.delimiter_end - span.content_end == width
        &&& span.content_start < span.content_end
        &&& forall|k: int|
            span.start <= k < span.content_start || span.content_end <= k < span.delimiter_end
                ==> #[trigger] chars[k] == delimiter_char(span.keyword)
        &&& !is_whitespace(chars[span.content_start])
        &&& !is_whitespace(chars[span.content_end - 1])
        &&& backslashes_before(chars, span.content_end) % 2 == 0
        &&& forall|k: int| span.start <= k < span.delimiter_end ==> #[trigger] chars[k] != '\n'
    }
}

/// The closing delimiter of `span`, found in a range that ends at `end`,
/// is followed by white space or ends the range.
pub open spec fn closes_in_range(chars: Seq<char>, span: SpanView, end: int) -> bool {
    span.delimiter_end == end + 1 || is_whitespace(chars[span.delimiter_end])
}

/// What follows the closing delimiter of the span at `i` of a list found
/// in a range that ends at `end`: white space, or the end of the range, or
/// the end of the content of an earlier span, in which it lies.
pub open spec fn closes_by_rule(chars: Seq<char>, spans: Seq<SpanView>, i: int, end: int) -> bool {
    ||| closes_in_range(chars, spans[i], end)
    ||| exists|j: int| 0 <= j < i && (#[trigger] spans[j]).content_end == spans[i].delimiter_end
}

/// A span of an inline style that the scanner finds at `index` opens by
/// the rule: its delimiter is not escaped, stands first in the range or
/// behind white space, and is not followed by white space. It closes by
/// the rule: white space or the end of the range follows its closing
/// delimiter. And it obeys the rules of every such span.
pub proof fn lemma_inline_scan_rules(chars: Seq<char>, index: int, start: int, end: int, depth: int)
    requires
        start <= index <= end,
        0 <= depth,
    ensures
        scan_at(chars, index, start, end, depth).span matches Some(span) ==> {
            &&& inline_shape(chars, span)
            &&& is_inline(span.keyword) ==> {
                &&& !is_escaped(chars, index, start)
                &&& opens_after_space(chars, index, start)
                &&& closes_in_range(chars, span, end)
            }
        },
{
    let c = chars[index];
    lemma_scan_in_range(chars, index, start, end, depth);
    if is_escaped(chars, index, start) {
    } else if c == '>' {
    } else if c == '`' && repeats(chars, '`', 2, index + 1, end) {
    } else if !opens_after_space(chars, index, start) || space_follows(chars, index, end) {
    } else if c == '|' && repeats(chars, '|', 1, index + 1, end) {
        lemma_closing_rules(chars, '|', index + 2, 1, end);
        assert(chars[index + 1] == '|');
    } else if !is_inline_delimiter(c) {
    } else {
        lemma_closing_rules(chars, c, index + 1, 0, end);
    }
}

/// The span at `i` of a list found in a range that ends at `end` obeys the
/// rules of the inline styles: it has the shape of such a span, and white
/// space follows its closing delimiter, or the range ends with it, or the
/// content of the span in which it lies.
pub open spec fn obeys_inline_rules(chars: Seq<char>, spans: Seq<SpanView>, i: int, end: int) -> bool {
    &&& inline_shape(chars, spans[i])
    &&& is_inline(spans[i].keyword) ==> closes_by_rule(chars, spans, i, end)
}

/// Every span among `spans`, found in a range that ends at `end`, obeys
/// the rules of the inline styles.
pub open spec fn all_obey_inline_rules(chars: Seq<char>, spans: Seq<SpanView>, end: int) -> bool {
    forall|i: int| 0 <= i < spans.len() ==> #[trigger] obeys_inline_rules(chars, spans, i, end)
}

/// Spans that obey the rules, followed by spans that obey them in the same
/// range, obey them.
proof fn lemma_rules_concat(chars: Seq<char>, a: Seq<SpanView>, b: Seq<SpanView>, end: int)
    requires
        all_obey_inline_rules(chars, a, end),
        all_obey_inline_rules(chars, b, end),
    ensures
        all_obey_inline_rules(chars, a + b, end),
{
    let c = a + b;
    assert forall|i: int| 0 <= i < c.len() implies #[trigger] obeys_inline_rules(
        chars,
        c,
        i,
        end,
    ) by {
        if i < a.len() {
            assert(c[i] == a[i]);
            assert(obeys_inline_rules(chars, a, i, end));
            if is_inline(a[i].keyword) && !closes_in_range(chars, a[i], end) {
                let j = choose|j: int|
                    0 <= j < i && (#[trigger] a[j]).content_end == a[i].delimiter_end;
                assert(c[j] == a[j]);
            }
        } else {
            let k = i - a.len();
            assert(c[i] == b[k]);
            assert(obeys_inline_rules(chars, b, k, end));
            if is_inline(b[k].keyword) && !closes_in_range(chars, b[k], end) {
                let j = choose|j: int|
                    0 <= j < k && (#[trigger] b[j]).content_end == b[k].delimiter_end;
                assert(c[j + a.len()] == b[j]);
            }
        }
    }
}

/// A span that obeys the rules in its range, followed by spans that obey
/// them in its content, obeys them with these.
proof fn lemma_rules_parent(chars: Seq<char>, span: SpanView, inner: Seq<SpanView>, end: int)
    requires
        inline_shape(chars, span),
        is_inline(span.keyword) ==> closes_in_range(chars, span, end),
        all_obey_inline_rules(chars, inner, span.content_end - 1),
    ensures
        all_obey_inline_rules(chars, seq![span] + inner, end),
{
    let c = seq![span] + inner;
    assert forall|i: int| 0 <= i < c.len() implies #[trigger] obeys_inline_rules(
        chars,
        c,
        i,
        end,
    ) by {
        if i > 0 {
            let k = i - 1;
            assert(c[i] == inner[k]);
            assert(obeys_inline_rules(chars, inner, k, span.content_end - 1));
            if is_inline(inner[k].keyword) {
                if closes_in_range(chars, inner[k], span.content_end - 1) {
                    if !is_whitespace(chars[inner[k].delimiter_end]) {
                        assert(c[0].content_end == c[i].delimiter_end);
                    }
                } else {
                    let j = choose|j: int|
                        0 <= j < k && (#[trigger] inner[j]).content_end == inner[k].delimiter_end;
                    assert(c[j + 1] == inner[j]);
                }
            }
        }
    }
}

proof fn lemma_content_spans_rules(chars: Seq<char>, span: SpanView, depth: int, level: nat)
    requires
        0 <= span.start < span.content_start,
        0 <= depth,
    ensures
        all_obey_inline_rules(chars, content_spans(chars, span, depth, level), span.content_end - 1),
    decreases level, 0int, 0int,
{
    if span.keyword.is_fence() {
        lemma_fence_markers_nested(chars, span.content_start, span.content_end - 1, depth);
    } else if span.keyword.has_styled_content() && level > 0 {
        lemma_spans_rules(
            chars,
            span.content_start,
            span.content_start,
            span.content_end - 1,
            content_depth(span.keyword, depth),
            (level - 1) as nat,
        );
    }
}

/// Every span that the scanner finds from `index` on obeys the rules of
/// the inline styles.
pub proof fn lemma_spans_rules(
    chars: Seq<char>,
    index: int,
    start: int,
    end: int,
    depth: int,
    level: nat,
)
    requires
        0 <= start <= index,
        0 <= depth,
    ensures
        all_obey_inline_rules(chars, spans_from(chars, index, start, end, depth, level), end),
    decreases level, 1int, end + 1 - index,
{
    if index <= end {
        let scan = scan_at(chars, index, start, end, depth);
        lemma_scan_in_range(chars, index, start, end, depth);
        lemma_inline_scan_rules(chars, index, start, end, depth);
        let next = advance(scan.next, index, end);
        let rest = spans_from(chars, next, start, end, depth, level);
        lemma_spans_rules(chars, next, start, end, depth, level);
        match scan.span {
            Some(span) => {
                let inner = content_spans(chars, span, depth, level);
                lemma_content_spans_rules(chars, span, depth, level);
                lemma_rules_parent(chars, span, inner, end);
                lemma_rules_concat(chars, seq![span] + inner, rest, end);
            },
            None => {
                assert(Seq::<SpanView>::empty() + rest =~= rest);
            },
        }
    }
}

/// Every span of an inline style in a text lies on one line, between two
/// delimiters of its keyword, around content that is not empty and that
/// white space neither begins nor ends; its closing delimiter is not
/// escaped, and white space follows it, or the range ends with it, or the
/// content of the span in which it lies.
pub proof fn lemma_spans_of_rules(chars: Seq<char>, start: int, end: int, depth: int)
    requires
        0 <= start,
        0 <= depth,
    ensures
        all_obey_inline_rules(chars, spans_of(chars, start, end, depth), range_end(chars, end)),
{
    if chars.len() > 0 {
        lemma_spans_rules(chars, start, start, range_end(chars, end), depth, MAX_NESTING as nat);
    }
}

} // verus!
