//! What the renderer writes for a range of positions.

use vstd::prelude::*;
use crate::cover::{covered, hits};
use crate::render::{closes_at, edit_flags, is_deleted, is_rendered, opens_at, piece, rendered_upto};
use crate::span::SpanView;

verus! {

/// What is written for the positions from `from` up to, not including,
/// `to`.
pub open spec fn written(
    text: Seq<char>,
    spans: Seq<SpanView>,
    tags: Map<Seq<char>, (Seq<char>, Seq<char>)>,
    from: int,
    to: int,
) -> Seq<char>
    decreases to - from,
{
    if to <= from {
        Seq::empty()
    } else {
        written(text, spans, tags, from, to - 1) + piece(text, spans, tags, to - 1)
    }
}

/// What is written before a position is what is written from the beginning
/// of the text up to it.
pub proof fn lemma_written_from_start(
    text: Seq<char>,
    spans: Seq<SpanView>,
    tags: Map<Seq<char>, (Seq<char>, Seq<char>)>,
    n: int,
)
    ensures
        written(text, spans, tags, 0, n) == rendered_upto(text, spans, tags, n),
    decreases n,
{
    if n > 0 {
        lemma_written_from_start(text, spans, tags, n - 1);
    }
}

/// What is written for a range is what is written for its two parts.
pub proof fn lemma_written_split(
    text: Seq<char>,
    spans: Seq<SpanView>,
    tags: Map<Seq<char>, (Seq<char>, Seq<char>)>,
    from: int,
    mid: int,
    to: int,
)
    requires
        from <= mid <= to,
    ensures
        written(text, spans, tags, from, to) == written(text, spans, tags, from, mid) + written(
            text,
            spans,
            tags,
            mid,
            to,
        ),
    decreases to - mid,
{
    if mid == to {
        assert(written(text, spans, tags, from, mid) + Seq::<char>::empty() =~= written(
            text,
            spans,
            tags,
            from,
            mid,
        ));
    } else {
        lemma_written_split(text, spans, tags, from, mid, to - 1);
        assert((written(text, spans, tags, from, mid) + written(text, spans, tags, mid, to - 1))
            + piece(text, spans, tags, to - 1) =~= written(text, spans, tags, from, mid) + (
            written(text, spans, tags, mid, to - 1) + piece(text, spans, tags, to - 1)));
    }
}

/// Two lists of spans that write the same at each position of a range
/// write the same for the range.
pub proof fn lemma_written_same(
    text: Seq<char>,
    a: Seq<SpanView>,
    b: Seq<SpanView>,
    tags: Map<Seq<char>, (Seq<char>, Seq<char>)>,
    from: int,
    to: int,
)
    requires
        forall|p: int| from <= p < to ==> piece(text, a, tags, p) == piece(text, b, tags, p),
    ensures
        written(text, a, tags, from, to) == written(text, b, tags, from, to),
    decreases to - from,
{
    if from < to {
        lemma_written_same(text, a, b, tags, from, to - 1);
    }
}

/// Where nothing is written at any position of a range, nothing is written
/// for the range.
pub proof fn lemma_written_nothing(
    text: Seq<char>,
    spans: Seq<SpanView>,
    tags: Map<Seq<char>, (Seq<char>, Seq<char>)>,
    from: int,
    to: int,
)
    requires
        forall|p: int| from <= p < to ==> piece(text, spans, tags, p) == Seq::<char>::empty(),
    ensures
        written(text, spans, tags, from, to) == Seq::<char>::empty(),
    decreases to - from,
{
    if from < to {
        lemma_written_nothing(text, spans, tags, from, to - 1);
        assert(Seq::<char>::empty() + Seq::<char>::empty() =~= Seq::<char>::empty());
    }
}

/// Where each position of a range writes its own character, the range
/// writes the text that it holds.
pub proof fn lemma_written_chars(
    text: Seq<char>,
    spans: Seq<SpanView>,
    tags: Map<Seq<char>, (Seq<char>, Seq<char>)>,
    from: int,
    to: int,
)
    requires
        0 <= from <= to <= text.len(),
        forall|p: int| from <= p < to ==> piece(text, spans, tags, p) == seq![text[p]],
    ensures
        written(text, spans, tags, from, to) == text.subrange(from, to),
    decreases to - from,
{
    if from < to {
        lemma_written_chars(text, spans, tags, from, to - 1);
        assert(text.subrange(from, to - 1) + seq![text[to - 1]] =~= text.subrange(from, to));
    } else {
        assert(text.subrange(from, to) =~= Seq::<char>::empty());
    }
}

/// No closing tag is written where no content ends.
pub proof fn lemma_no_closes(
    spans: Seq<SpanView>,
    tags: Map<Seq<char>, (Seq<char>, Seq<char>)>,
    p: int,
)
    requires
        forall|i: int| 0 <= i < spans.len() ==> (#[trigger] spans[i]).content_end != p,
    ensures
        closes_at(spans, tags, p) == Seq::<char>::empty(),
    decreases spans.len(),
{
    if spans.len() > 0 {
        assert(spans.last() == spans[spans.len() - 1]);
        assert forall|i: int| 0 <= i < spans.drop_last().len() implies (
        #[trigger] spans.drop_last()[i]).content_end != p by {
            assert(spans.drop_last()[i] == spans[i]);
        }
        lemma_no_closes(spans.drop_last(), tags, p);
    }
}

/// No opening tag is written where no span begins.
pub proof fn lemma_no_opens(
    text: Seq<char>,
    spans: Seq<SpanView>,
    tags: Map<Seq<char>, (Seq<char>, Seq<char>)>,
    p: int,
)
    requires
        forall|i: int| 0 <= i < spans.len() ==> (#[trigger] spans[i]).start != p,
    ensures
        opens_at(text, spans, tags, p) == Seq::<char>::empty(),
    decreases spans.len(),
{
    if spans.len() > 0 {
        assert(spans.last() == spans[spans.len() - 1]);
        assert forall|i: int| 0 <= i < spans.drop_last().len() implies (
        #[trigger] spans.drop_last()[i]).start != p by {
            assert(spans.drop_last()[i] == spans[i]);
        }
        lemma_no_opens(text, spans.drop_last(), tags, p);
    }
}

/// A position is covered by a list of spans where it is covered by all but
/// the last of them or by the last.
pub proof fn lemma_covered_last(
    spans: Seq<SpanView>,
    tags: Map<Seq<char>, (Seq<char>, Seq<char>)>,
    p: int,
)
    requires
        spans.len() > 0,
    ensures
        covered(spans, edit_flags(spans, tags), p) == (covered(
            spans.drop_last(),
            edit_flags(spans.drop_last(), tags),
            p,
        ) || ((is_rendered(spans.last(), tags) || is_deleted(spans.last(), tags))
            && spans.last().covers(p))),
{
    let front = spans.drop_last();
    let flags = edit_flags(spans, tags);
    let front_flags = edit_flags(front, tags);
    let n = spans.len() - 1;
    assert forall|i: int| 0 <= i < n implies hits(spans, flags, i, p) == hits(
        front,
        front_flags,
        i,
        p,
    ) by {
        assert(front[i] == spans[i]);
    }
    if covered(spans, flags, p) {
        let i = choose|i: int| 0 <= i < spans.len() && #[trigger] hits(spans, flags, i, p);
        if i < n {
            assert(hits(front, front_flags, i, p));
        }
    }
    if covered(front, front_flags, p) {
        let i = choose|i: int| 0 <= i < front.len() && #[trigger] hits(front, front_flags, i, p);
        assert(hits(spans, flags, i, p));
    }
    if (is_rendered(spans.last(), tags) || is_deleted(spans.last(), tags)) && spans.last().covers(
        p,
    ) {
        assert(hits(spans, flags, n, p));
    }
}

/// No position is covered that no span holds with a delimiter.
pub proof fn lemma_not_covered(
    spans: Seq<SpanView>,
    tags: Map<Seq<char>, (Seq<char>, Seq<char>)>,
    p: int,
)
    requires
        forall|i: int| 0 <= i < spans.len() ==> !(#[trigger] spans[i]).covers(p),
    ensures
        !covered(spans, edit_flags(spans, tags), p),
{
    let flags = edit_flags(spans, tags);
    if covered(spans, flags, p) {
        let i = choose|i: int| 0 <= i < spans.len() && #[trigger] hits(spans, flags, i, p);
        assert(spans[i].covers(p));
    }
}

/// Where the first position of a range writes `head` and its character,
/// and each further position its own character, the range writes `head`
/// and the text that it holds.
pub proof fn lemma_written_behind_head(
    text: Seq<char>,
    spans: Seq<SpanView>,
    tags: Map<Seq<char>, (Seq<char>, Seq<char>)>,
    from: int,
    to: int,
    head: Seq<char>,
)
    requires
        0 <= from < to <= text.len(),
        piece(text, spans, tags, from) == head.push(text[from]),
        forall|p: int| from + 1 <= p < to ==> piece(text, spans, tags, p) == seq![text[p]],
    ensures
        written(text, spans, tags, from, to) == head + text.subrange(from, to),
{
    lemma_written_chars(text, spans, tags, from + 1, to);
    lemma_written_split(text, spans, tags, from, from + 1, to);
    assert(written(text, spans, tags, from, from) =~= Seq::<char>::empty());
    assert(written(text, spans, tags, from, from + 1) =~= piece(text, spans, tags, from));
    assert(head.push(text[from]) + text.subrange(from + 1, to) =~= head + text.subrange(from, to));
}

} // verus!
