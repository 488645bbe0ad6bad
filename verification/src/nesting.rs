//! The nesting of the spans that the scanner returns: any two of them are
//! disjoint or one lies inside the content of the other.

use vstd::prelude::*;
use crate::parser::{
    advance, content_depth, content_spans, fence_markers, lemma_scan_in_range, scan_at, spans_from,
    spans_of, MAX_NESTING,
};
use crate::seek::continues_quote;
use crate::span::{marker_at, Keyword, SpanView};

verus! {

/// The spans lie from `low` up to, not including, `high`, and stand in the
/// order of their first positions, each one before the spans inside its
/// content and before the spans behind it.
pub open spec fn nested(spans: Seq<SpanView>, low: int, high: int) -> bool {
    &&& forall|i: int| 0 <= i < spans.len() ==> (#[trigger] spans[i]).within(low, high)
    &&& forall|i: int, j: int|
        0 <= i < j < spans.len() ==> (#[trigger] spans[i]).encloses(#[trigger] spans[j])
            || spans[i].precedes(spans[j])
}

/// Spans nested in a part of a range are nested in the range.
pub proof fn lemma_nested_widen(spans: Seq<SpanView>, low: int, high: int, lower: int, higher: int)
    requires
        nested(spans, low, high),
        lower <= low,
        high <= higher,
    ensures
        nested(spans, lower, higher),
{
}

/// Spans nested before a position, followed by spans nested behind it, are
/// nested.
pub proof fn lemma_nested_concat(
    a: Seq<SpanView>,
    b: Seq<SpanView>,
    low: int,
    mid: int,
    high: int,
)
    requires
        nested(a, low, mid),
        nested(b, mid, high),
        low <= mid <= high,
    ensures
        nested(a + b, low, high),
{
    let c = a + b;
    assert forall|i: int| 0 <= i < c.len() implies (#[trigger] c[i]).within(low, high) by {
        if i < a.len() {
            assert(c[i] == a[i]);
        } else {
            assert(c[i] == b[i - a.len()]);
        }
    }
    assert forall|i: int, j: int| 0 <= i < j < c.len() implies (#[trigger] c[i]).encloses(
        #[trigger] c[j],
    ) || c[i].precedes(c[j]) by {
        if j < a.len() {
            assert(c[i] == a[i] && c[j] == a[j]);
        } else if i < a.len() {
            assert(c[i] == a[i] && c[j] == b[j - a.len()]);
        } else {
            assert(c[i] == b[i - a.len()] && c[j] == b[j - a.len()]);
        }
    }
}

/// A span followed by spans nested in its content is nested.
pub proof fn lemma_nested_parent(span: SpanView, inner: Seq<SpanView>, low: int)
    requires
        span.within(low, span.delimiter_end),
        nested(inner, span.content_start, span.content_end),
    ensures
        nested(seq![span] + inner, low, span.delimiter_end),
{
    let c = seq![span] + inner;
    assert forall|i: int| 0 <= i < c.len() implies (#[trigger] c[i]).within(
        low,
        span.delimiter_end,
    ) by {
        if i > 0 {
            assert(c[i] == inner[i - 1]);
        }
    }
    assert forall|i: int, j: int| 0 <= i < j < c.len() implies (#[trigger] c[i]).encloses(
        #[trigger] c[j],
    ) || c[i].precedes(c[j]) by {
        assert(c[j] == inner[j - 1]);
        if i > 0 {
            assert(c[i] == inner[i - 1]);
        }
    }
}

/// The quote markers of a code block are nested in its content.
pub proof fn lemma_fence_markers_nested(chars: Seq<char>, from: int, end: int, depth: int)
    requires
        0 <= from,
    ensures
        nested(fence_markers(chars, from, end, depth), from, end + 1),
        forall|i: int|
            0 <= i < fence_markers(chars, from, end, depth).len() ==> (#[trigger] fence_markers(
                chars,
                from,
                end,
                depth,
            )[i]).keyword == Keyword::FenceQuote,
    decreases end + 1 - from,
{
    if from > end || depth < 1 {
    } else {
        lemma_fence_markers_nested(chars, from + 1, end, depth);
        let rest = fence_markers(chars, from + 1, end, depth);
        if chars[from] == '>' && continues_quote(chars, from, depth) {
            let marker = marker_at(Keyword::FenceQuote, from);
            assert(nested(Seq::<SpanView>::empty(), from + 1, from + 1));
            lemma_nested_parent(marker, Seq::empty(), from);
            assert(seq![marker] + Seq::<SpanView>::empty() =~= seq![marker]);
            lemma_nested_concat(seq![marker], rest, from, from + 1, end + 1);
        } else {
            lemma_nested_widen(rest, from + 1, end + 1, from, end + 1);
        }
    }
}

/// The spans inside the content of a span are nested in it.
pub proof fn lemma_content_spans_nested(chars: Seq<char>, span: SpanView, depth: int, level: nat)
    requires
        0 <= span.start < span.content_start <= span.content_end,
        0 <= depth,
    ensures
        nested(content_spans(chars, span, depth, level), span.content_start, span.content_end),
    decreases level, 0int, 0int,
{
    if span.keyword.is_fence() {
        lemma_fence_markers_nested(chars, span.content_start, span.content_end - 1, depth);
    } else if span.keyword.has_styled_content() && level > 0 {
        lemma_spans_nested(
            chars,
            span.content_start,
            span.content_start,
            span.content_end - 1,
            content_depth(span.keyword, depth),
            (level - 1) as nat,
        );
    }
}

/// The spans that the scanner finds from `index` on are nested in what is
/// left of the range.
pub proof fn lemma_spans_nested(
    chars: Seq<char>,
    index: int,
    start: int,
    end: int,
    depth: int,
    level: nat,
)
    requires
        0 <= start <= index,
        0 <= depth,
    ensures
        nested(spans_from(chars, index, start, end, depth, level), index, end + 1),
    decreases level, 1int, end + 1 - index,
{
    if index <= end {
        let scan = scan_at(chars, index, start, end, depth);
        lemma_scan_in_range(chars, index, start, end, depth);
        let next = advance(scan.next, index, end);
        let rest = spans_from(chars, next, start, end, depth, level);
        lemma_spans_nested(chars, next, start, end, depth, level);
        match scan.span {
            Some(span) => {
                let inner = content_spans(chars, span, depth, level);
                lemma_content_spans_nested(chars, span, depth, level);
                lemma_nested_parent(span, inner, index);
                lemma_nested_concat(seq![span] + inner, rest, index, next, end + 1);
            },
            None => {
                assert(Seq::<SpanView>::empty() + rest =~= rest);
                lemma_nested_widen(rest, next, end + 1, index, end + 1);
            },
        }
    }
}

/// Nesting: the spans of a text lie within it, and any two of them are
/// disjoint or the later one lies inside the content of the earlier one.
pub proof fn lemma_spans_of_nested(chars: Seq<char>, start: int, end: int, depth: int)
    requires
        0 <= start,
        0 <= depth,
    ensures
        nested(spans_of(chars, start, end, depth), start, chars.len() as int),
{
    if chars.len() > 0 {
        let last = if end < chars.len() {
            end
        } else {
            chars.len() - 1
        };
        lemma_spans_nested(chars, start, start, last, depth, MAX_NESTING as nat);
        lemma_nested_widen(
            spans_of(chars, start, end, depth),
            start,
            last + 1,
            start,
            chars.len() as int,
        );
    }
}

} // verus!
