//! Rendering with a table that maps each keyword to its own delimiters
//! gives the text back.

use vstd::prelude::*;
use crate::cover::covered;
use crate::escape::unescaped;
use crate::nesting::{lemma_spans_of_nested, nested};
use crate::parser::text_spans;
use crate::plain::lemma_rendered_without_spans;
use crate::render::{
    close_tag, closes_at, edit_flags, formatted, is_deleted, is_rendered, open_tag, opens_at, piece,
    rendered, with_breaks,
};
use crate::span::SpanView;
use crate::written::{
    lemma_covered_last, lemma_no_closes, lemma_no_opens, lemma_not_covered,
    lemma_written_behind_head, lemma_written_chars, lemma_written_from_start, lemma_written_nothing,
    lemma_written_same, lemma_written_split, written,
};

verus! {

/// Every span that the table renders is given its own delimiters as tags,
/// and no marker is deleted.
pub open spec fn renders_own_delimiters(
    text: Seq<char>,
    spans: Seq<SpanView>,
    tags: Map<Seq<char>, (Seq<char>, Seq<char>)>,
) -> bool {
    forall|i: int|
        0 <= i < spans.len() ==> {
            let span = #[trigger] spans[i];
            &&& !is_deleted(span, tags)
            &&& is_rendered(span, tags) ==> {
                &&& open_tag(text, span, tags) == text.subrange(span.start, span.content_start)
                &&& close_tag(span, tags) == text.subrange(span.content_end, span.delimiter_end)
            }
        }
}

/// How the spans before the last one lie to it: each begins before it and
/// ends before it or encloses it.
proof fn lemma_front_of_last(spans: Seq<SpanView>, len: int)
    requires
        spans.len() > 0,
        nested(spans, 0, len),
    ensures
        spans.last().within(0, len),
        forall|i: int|
            0 <= i < spans.len() - 1 ==> {
                let x = #[trigger] spans.drop_last()[i];
                &&& x.start < spans.last().start
                &&& x.content_start <= spans.last().start
                &&& x.content_end <= x.delimiter_end
                &&& x.delimiter_end <= spans.last().start || spans.last().delimiter_end
                    <= x.content_end
            },
{
    let last = spans.last();
    assert(last == spans[spans.len() - 1]);
    assert forall|i: int| 0 <= i < spans.len() - 1 implies {
        let x = #[trigger] spans.drop_last()[i];
        &&& x.start < last.start
        &&& x.content_start <= last.start
        &&& x.content_end <= x.delimiter_end
        &&& x.delimiter_end <= last.start || last.delimiter_end <= x.content_end
    } by {
        assert(spans.drop_last()[i] == spans[i]);
        assert(spans[i].within(0, len));
        assert(spans[i].encloses(spans[spans.len() - 1]) || spans[i].precedes(
            spans[spans.len() - 1],
        ));
    }
}

/// At a position that the last span holds, the spans before it open
/// nothing and cover nothing, and close nothing but at its beginning.
proof fn lemma_front_clear(
    text: Seq<char>,
    spans: Seq<SpanView>,
    tags: Map<Seq<char>, (Seq<char>, Seq<char>)>,
    p: int,
)
    requires
        spans.len() > 0,
        nested(spans, 0, text.len() as int),
        spans.last().start <= p < spans.last().delimiter_end,
    ensures
        opens_at(text, spans.drop_last(), tags, p) == Seq::<char>::empty(),
        !covered(spans.drop_last(), edit_flags(spans.drop_last(), tags), p),
        p > spans.last().start ==> closes_at(spans.drop_last(), tags, p) == Seq::<char>::empty(),
{
    let front = spans.drop_last();
    lemma_front_of_last(spans, text.len() as int);
    lemma_no_opens(text, front, tags, p);
    lemma_not_covered(front, tags, p);
    if p > spans.last().start {
        lemma_no_closes(front, tags, p);
    }
}

/// What a rendered span that is given its own delimiters writes at a
/// position that it holds, together with the spans before it: its opening
/// delimiter at its beginning, behind what the others close there; its
/// content as it is; its closing delimiter where the content ends.
spec fn own_piece(text: Seq<char>, last: SpanView, closed: Seq<char>, p: int) -> Seq<char> {
    if p == last.start {
        closed + text.subrange(last.start, last.content_start)
    } else if p < last.content_start {
        Seq::empty()
    } else if p < last.content_end {
        seq![text[p]]
    } else if p == last.content_end {
        text.subrange(last.content_end, last.delimiter_end)
    } else {
        Seq::empty()
    }
}

proof fn lemma_piece_inside(
    text: Seq<char>,
    spans: Seq<SpanView>,
    tags: Map<Seq<char>, (Seq<char>, Seq<char>)>,
    p: int,
)
    requires
        spans.len() > 0,
        nested(spans, 0, text.len() as int),
        renders_own_delimiters(text, spans, tags),
        is_rendered(spans.last(), tags),
        spans.last().start <= p < spans.last().delimiter_end,
    ensures
        piece(text, spans, tags, p) == own_piece(
            text,
            spans.last(),
            closes_at(spans.drop_last(), tags, spans.last().start),
            p,
        ),
        piece(text, spans.drop_last(), tags, p) == (if p == spans.last().start {
            closes_at(spans.drop_last(), tags, p).push(text[p])
        } else {
            seq![text[p]]
        }),
{
    let front = spans.drop_last();
    let last = spans.last();
    assert(last == spans[spans.len() - 1]);
    assert(last.within(0, text.len() as int));
    lemma_front_clear(text, spans, tags, p);
    lemma_covered_last(spans, tags, p);
    let closed = closes_at(front, tags, last.start);
    assert(piece(text, spans, tags, p) =~= own_piece(text, last, closed, p));
    assert(piece(text, front, tags, p) =~= (if p == last.start {
        closed.push(text[p])
    } else {
        seq![text[p]]
    }));
}

proof fn lemma_piece_outside(
    text: Seq<char>,
    spans: Seq<SpanView>,
    tags: Map<Seq<char>, (Seq<char>, Seq<char>)>,
    p: int,
)
    requires
        spans.len() > 0,
        nested(spans, 0, text.len() as int),
        renders_own_delimiters(text, spans, tags),
        !is_rendered(spans.last(), tags) || p < spans.last().start || spans.last().delimiter_end
            <= p,
    ensures
        piece(text, spans, tags, p) == piece(text, spans.drop_last(), tags, p),
{
    let front = spans.drop_last();
    let last = spans.last();
    assert(last == spans[spans.len() - 1]);
    assert(last.within(0, text.len() as int));
    lemma_covered_last(spans, tags, p);
    if is_rendered(last, tags) && last.content_end == p {
        assert(close_tag(last, tags) =~= Seq::<char>::empty());
        assert(Seq::<char>::empty() + closes_at(front, tags, p) =~= closes_at(front, tags, p));
    }
}

/// The spans before the last one write the text that the last one holds,
/// behind what they close at its beginning.
proof fn lemma_written_by_front(
    text: Seq<char>,
    spans: Seq<SpanView>,
    tags: Map<Seq<char>, (Seq<char>, Seq<char>)>,
)
    requires
        spans.len() > 0,
        nested(spans, 0, text.len() as int),
        renders_own_delimiters(text, spans, tags),
        is_rendered(spans.last(), tags),
    ensures
        written(
            text,
            spans.drop_last(),
            tags,
            spans.last().start,
            spans.last().delimiter_end,
        ) == closes_at(spans.drop_last(), tags, spans.last().start) + text.subrange(
            spans.last().start,
            spans.last().delimiter_end,
        ),
{
    let front = spans.drop_last();
    let last = spans.last();
    let a = last.start;
    let d = last.delimiter_end;
    assert(last == spans[spans.len() - 1]);
    assert(last.within(0, text.len() as int));
    assert forall|p: int| a + 1 <= p < d implies piece(text, front, tags, p) == seq![text[p]] by {
        lemma_piece_inside(text, spans, tags, p);
    }
    lemma_piece_inside(text, spans, tags, a);
    lemma_written_behind_head(text, front, tags, a, d, closes_at(front, tags, a));
}

/// So do all the spans together.
#[verifier::rlimit(40)]
proof fn lemma_written_by_all(
    text: Seq<char>,
    spans: Seq<SpanView>,
    tags: Map<Seq<char>, (Seq<char>, Seq<char>)>,
)
    requires
        spans.len() > 0,
        nested(spans, 0, text.len() as int),
        renders_own_delimiters(text, spans, tags),
        is_rendered(spans.last(), tags),
    ensures
        written(text, spans, tags, spans.last().start, spans.last().delimiter_end) == closes_at(
            spans.drop_last(),
            tags,
            spans.last().start,
        ) + text.subrange(spans.last().start, spans.last().delimiter_end),
{
    let front = spans.drop_last();
    let last = spans.last();
    let a = last.start;
    let b = last.content_start;
    let c = last.content_end;
    let d = last.delimiter_end;
    let closed = closes_at(front, tags, a);
    assert(last == spans[spans.len() - 1]);
    assert(last.within(0, text.len() as int));
    assert forall|p: int| a <= p < d implies piece(text, spans, tags, p) == own_piece(
        text,
        last,
        closed,
        p,
    ) by {
        lemma_piece_inside(text, spans, tags, p);
    }
    assert(written(text, spans, tags, a, a) =~= Seq::<char>::empty());
    assert(written(text, spans, tags, a, a + 1) =~= closed + text.subrange(a, b));
    lemma_written_nothing(text, spans, tags, a + 1, b);
    lemma_written_chars(text, spans, tags, b, c);
    if c < d {
        assert(written(text, spans, tags, c, c) =~= Seq::<char>::empty());
        assert(written(text, spans, tags, c, c + 1) =~= text.subrange(c, d));
        lemma_written_nothing(text, spans, tags, c + 1, d);
        lemma_written_split(text, spans, tags, c, c + 1, d);
        assert(text.subrange(c, d) + Seq::<char>::empty() =~= text.subrange(c, d));
    } else {
        assert(text.subrange(c, d) =~= Seq::<char>::empty());
    }
    assert(written(text, spans, tags, c, d) == text.subrange(c, d));
    lemma_written_split(text, spans, tags, a, a + 1, d);
    lemma_written_split(text, spans, tags, a + 1, b, d);
    lemma_written_split(text, spans, tags, b, c, d);
    assert((closed + text.subrange(a, b)) + (Seq::<char>::empty() + (text.subrange(b, c)
        + text.subrange(c, d))) =~= closed + text.subrange(a, d));
}

/// A span that is given its own delimiters as tags, or none, added behind
/// nested spans, changes nothing in what is written.
proof fn lemma_own_delimiters_step(
    text: Seq<char>,
    spans: Seq<SpanView>,
    tags: Map<Seq<char>, (Seq<char>, Seq<char>)>,
)
    requires
        spans.len() > 0,
        nested(spans, 0, text.len() as int),
        renders_own_delimiters(text, spans, tags),
    ensures
        rendered(text, spans, tags) == rendered(text, spans.drop_last(), tags),
{
    let front = spans.drop_last();
    let last = spans.last();
    let len = text.len() as int;
    assert(last == spans[spans.len() - 1]);
    assert(last.within(0, len));
    lemma_written_from_start(text, spans, tags, len + 1);
    lemma_written_from_start(text, front, tags, len + 1);
    if !is_rendered(last, tags) {
        assert forall|p: int| 0 <= p < len + 1 implies piece(text, spans, tags, p) == piece(
            text,
            front,
            tags,
            p,
        ) by {
            lemma_piece_outside(text, spans, tags, p);
        }
        lemma_written_same(text, spans, front, tags, 0, len + 1);
    } else {
        let a = last.start;
        let d = last.delimiter_end;
        assert forall|p: int| 0 <= p < a implies piece(text, spans, tags, p) == piece(
            text,
            front,
            tags,
            p,
        ) by {
            lemma_piece_outside(text, spans, tags, p);
        }
        assert forall|p: int| d <= p < len + 1 implies piece(text, spans, tags, p) == piece(
            text,
            front,
            tags,
            p,
        ) by {
            lemma_piece_outside(text, spans, tags, p);
        }
        lemma_written_same(text, spans, front, tags, 0, a);
        lemma_written_same(text, spans, front, tags, d, len + 1);
        lemma_written_by_front(text, spans, tags);
        lemma_written_by_all(text, spans, tags);
        lemma_written_split(text, spans, tags, 0, a, len + 1);
        lemma_written_split(text, spans, tags, a, d, len + 1);
        lemma_written_split(text, front, tags, 0, a, len + 1);
        lemma_written_split(text, front, tags, a, d, len + 1);
    }
}

/// Nested spans that are given their own delimiters as tags are rendered
/// as the text itself.
pub proof fn lemma_rendered_own_delimiters(
    text: Seq<char>,
    spans: Seq<SpanView>,
    tags: Map<Seq<char>, (Seq<char>, Seq<char>)>,
)
    requires
        nested(spans, 0, text.len() as int),
        renders_own_delimiters(text, spans, tags),
    ensures
        rendered(text, spans, tags) == text,
    decreases spans.len(),
{
    if spans.len() == 0 {
        assert(spans =~= Seq::<SpanView>::empty());
        lemma_rendered_without_spans(text, tags);
    } else {
        let front = spans.drop_last();
        assert forall|i: int| 0 <= i < front.len() implies front[i] == spans[i] by {}
        assert(nested(front, 0, text.len() as int));
        assert(renders_own_delimiters(text, front, tags));
        lemma_rendered_own_delimiters(text, front, tags);
        lemma_own_delimiters_step(text, spans, tags);
    }
}

/// The table maps each keyword that it holds to the keyword's own
/// delimiters: every span of the text that it renders gets back what it is
/// written with, no marker is deleted, and a line break is replaced by
/// nothing but a line break.
pub open spec fn keeps_delimiters(
    text: Seq<char>,
    tags: Map<Seq<char>, (Seq<char>, Seq<char>)>,
) -> bool {
    &&& renders_own_delimiters(text, text_spans(text), tags)
    &&& tags.contains_key("\n"@) ==> tags["\n"@].0 == seq!['\n']
}

/// Where the table gives every span that it renders the span's own
/// delimiters as tags, deletes no marker, and replaces a line break by
/// nothing but a line break, the renderer only takes the escaping
/// backslashes out of the text.
pub proof fn lemma_own_delimiters_formatted(
    text: Seq<char>,
    tags: Map<Seq<char>, (Seq<char>, Seq<char>)>,
)
    requires
        keeps_delimiters(text, tags),
    ensures
        formatted(text, tags) == unescaped(text),
{
    lemma_spans_of_nested(text, 0, text.len() - 1, 0);
    lemma_rendered_own_delimiters(text, text_spans(text), tags);
    if tags.contains_key("\n"@) {
        lemma_breaks_by_break(text);
    }
}

/// Replacing each line break by a line break changes nothing.
pub proof fn lemma_breaks_by_break(s: Seq<char>)
    ensures
        with_breaks(s, seq!['\n']) == s,
    decreases s.len(),
{
    if s.len() > 0 {
        lemma_breaks_by_break(s.skip(1));
        assert(seq![s[0]] + s.skip(1) =~= s);
    }
}

} // verus!
