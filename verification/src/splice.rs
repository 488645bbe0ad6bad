//! Rendering one span is replacing its two delimiters, and stripping one
//! span is taking them out.

use vstd::prelude::*;
use crate::cover::{covered, hits};
use crate::render::{close_tag, closes_at, is_rendered, open_tag, opens_at, piece, rendered};
use crate::span::SpanView;
use crate::telegram::{is_stripped, kept, strip_flags, stripped, stripped_positions};
use crate::written::{
    lemma_covered_last, lemma_written_chars, lemma_written_from_start, lemma_written_nothing,
    lemma_written_split, written,
};

verus! {

/// `text` with the characters from `from` up to, not including, `to`
/// replaced by `by`.
pub open spec fn spliced(text: Seq<char>, from: int, to: int, by: Seq<char>) -> Seq<char> {
    text.subrange(0, from) + by + text.subrange(to, text.len() as int)
}

/// What the renderer writes at each position for a single rendered span.
proof fn lemma_piece_of_one(
    text: Seq<char>,
    span: SpanView,
    tags: Map<Seq<char>, (Seq<char>, Seq<char>)>,
    p: int,
)
    requires
        span.within(0, text.len() as int),
        is_rendered(span, tags),
        0 <= p <= text.len(),
    ensures
        piece(text, seq![span], tags, p) == (if p == span.start {
            open_tag(text, span, tags)
        } else {
            Seq::<char>::empty()
        }) + (if p == span.content_end {
            close_tag(span, tags)
        } else {
            Seq::<char>::empty()
        }) + (if p < text.len() && !span.covers(p) {
            seq![text[p]]
        } else {
            Seq::<char>::empty()
        }),
{
    let one = seq![span];
    let none = Seq::<SpanView>::empty();
    assert(one.drop_last() =~= none);
    assert(one.last() == span);
    lemma_covered_last(one, tags, p);
    assert(closes_at(none, tags, p) =~= Seq::<char>::empty());
    assert(opens_at(text, none, tags, p) =~= Seq::<char>::empty());
    assert(piece(text, one, tags, p) =~= (if p == span.start {
        open_tag(text, span, tags)
    } else {
        Seq::<char>::empty()
    }) + (if p == span.content_end {
        close_tag(span, tags)
    } else {
        Seq::<char>::empty()
    }) + (if p < text.len() && !span.covers(p) {
        seq![text[p]]
    } else {
        Seq::<char>::empty()
    }));
}

/// What is written for a range that holds neither the beginning of the
/// span nor the end of its content nor a delimiter is the text of the
/// range.
proof fn lemma_written_beside_one(
    text: Seq<char>,
    span: SpanView,
    tags: Map<Seq<char>, (Seq<char>, Seq<char>)>,
    from: int,
    to: int,
)
    requires
        span.within(0, text.len() as int),
        is_rendered(span, tags),
        0 <= from <= to <= text.len(),
        forall|p: int|
            from <= p < to ==> p != span.start && p != span.content_end && !span.covers(p),
    ensures
        written(text, seq![span], tags, from, to) == text.subrange(from, to),
{
    assert forall|p: int| from <= p < to implies piece(text, seq![span], tags, p) == seq![
        text[p],
    ] by {
        lemma_piece_of_one(text, span, tags, p);
        assert(Seq::<char>::empty() + Seq::<char>::empty() + seq![text[p]] =~= seq![text[p]]);
    }
    lemma_written_chars(text, seq![span], tags, from, to);
}

/// What is written for the positions of a delimiter is the tag that is
/// written at its first position, if one is.
proof fn lemma_written_delimiter_of_one(
    text: Seq<char>,
    span: SpanView,
    tags: Map<Seq<char>, (Seq<char>, Seq<char>)>,
    from: int,
    to: int,
)
    requires
        span.within(0, text.len() as int),
        is_rendered(span, tags),
        from < to,
        (from == span.start && to == span.content_start) || (from == span.content_end && to
            == span.delimiter_end),
    ensures
        written(text, seq![span], tags, from, to) == piece(text, seq![span], tags, from),
{
    let one = seq![span];
    assert forall|p: int| from + 1 <= p < to implies piece(text, one, tags, p) == Seq::<
        char,
    >::empty() by {
        lemma_piece_of_one(text, span, tags, p);
        assert(Seq::<char>::empty() + Seq::<char>::empty() + Seq::<char>::empty() =~= Seq::<
            char,
        >::empty());
    }
    lemma_written_nothing(text, one, tags, from + 1, to);
    lemma_written_split(text, one, tags, from, from + 1, to);
    assert(written(text, one, tags, from, from) =~= Seq::<char>::empty());
    assert(written(text, one, tags, from, from + 1) =~= piece(text, one, tags, from));
    assert(piece(text, one, tags, from) + Seq::<char>::empty() =~= piece(text, one, tags, from));
}

/// From the end of the content of a single span on, the closing tag is
/// written and then the text behind the closing delimiter.
proof fn lemma_written_tail_of_one(
    text: Seq<char>,
    span: SpanView,
    tags: Map<Seq<char>, (Seq<char>, Seq<char>)>,
)
    requires
        span.within(0, text.len() as int),
        is_rendered(span, tags),
    ensures
        written(text, seq![span], tags, span.content_end, text.len() as int + 1) == close_tag(span, tags)
            + text.subrange(span.delimiter_end, text.len() as int),
{
    let one = seq![span];
    let len = text.len() as int;
    let c = span.content_end;
    let d = span.delimiter_end;
    let close = close_tag(span, tags);
    let nothing = Seq::<char>::empty();
    lemma_piece_of_one(text, span, tags, c);
    lemma_piece_of_one(text, span, tags, len);
    if c < d {
        lemma_written_delimiter_of_one(text, span, tags, c, d);
        assert(written(text, one, tags, c, d) =~= close);
        lemma_written_beside_one(text, span, tags, d, len);
        assert(piece(text, one, tags, len) =~= nothing);
        assert(written(text, one, tags, d, len + 1) =~= text.subrange(d, len));
        lemma_written_split(text, one, tags, c, d, len + 1);
    } else if c < len {
        lemma_written_beside_one(text, span, tags, c + 1, len);
        assert(piece(text, one, tags, len) =~= nothing);
        assert(written(text, one, tags, c + 1, len + 1) =~= text.subrange(c + 1, len));
        assert(written(text, one, tags, c, c) =~= nothing);
        assert(written(text, one, tags, c, c + 1) =~= close + seq![text[c]]);
        lemma_written_split(text, one, tags, c, c + 1, len + 1);
        assert((close + seq![text[c]]) + text.subrange(c + 1, len) =~= close + text.subrange(
            d,
            len,
        ));
    } else {
        assert(written(text, one, tags, c, c) =~= nothing);
        assert(written(text, one, tags, c, len + 1) =~= close);
        assert(close + text.subrange(d, len) =~= close);
    }
}

/// Up to the end of the content of a single span, the text before the span
/// is written, then the opening tag, then the content.
proof fn lemma_written_head_of_one(
    text: Seq<char>,
    span: SpanView,
    tags: Map<Seq<char>, (Seq<char>, Seq<char>)>,
)
    requires
        span.within(0, text.len() as int),
        is_rendered(span, tags),
    ensures
        written(text, seq![span], tags, 0, span.content_end) == text.subrange(0, span.start)
            + open_tag(text, span, tags) + text.subrange(span.content_start, span.content_end),
{
    let one = seq![span];
    let a = span.start;
    let b = span.content_start;
    let c = span.content_end;
    lemma_written_beside_one(text, span, tags, 0, a);
    lemma_written_delimiter_of_one(text, span, tags, a, b);
    lemma_piece_of_one(text, span, tags, a);
    assert(written(text, one, tags, a, b) =~= open_tag(text, span, tags));
    lemma_written_beside_one(text, span, tags, b, c);
    lemma_written_split(text, one, tags, 0, a, c);
    lemma_written_split(text, one, tags, a, b, c);
    assert(text.subrange(0, a) + (open_tag(text, span, tags) + text.subrange(b, c))
        =~= text.subrange(0, a) + open_tag(text, span, tags) + text.subrange(b, c));
}

/// Rendering a single span replaces its closing delimiter by the closing
/// tag and its opening delimiter by the opening tag.
pub proof fn lemma_rendered_one(
    text: Seq<char>,
    span: SpanView,
    tags: Map<Seq<char>, (Seq<char>, Seq<char>)>,
)
    requires
        span.within(0, text.len() as int),
        is_rendered(span, tags),
    ensures
        rendered(text, seq![span], tags) == spliced(
            spliced(text, span.content_end, span.delimiter_end, close_tag(span, tags)),
            span.start,
            span.content_start,
            open_tag(text, span, tags),
        ),
{
    let one = seq![span];
    let len = text.len() as int;
    let a = span.start;
    let b = span.content_start;
    let c = span.content_end;
    let d = span.delimiter_end;
    let open = open_tag(text, span, tags);
    let close = close_tag(span, tags);
    lemma_written_from_start(text, one, tags, len + 1);
    lemma_written_head_of_one(text, span, tags);
    lemma_written_tail_of_one(text, span, tags);
    lemma_written_split(text, one, tags, 0, c, len + 1);
    let closed = spliced(text, c, d, close);
    assert(closed.subrange(0, a) =~= text.subrange(0, a));
    assert(closed.subrange(b, closed.len() as int) =~= text.subrange(b, c) + close
        + text.subrange(d, len));
    assert((text.subrange(0, a) + open + text.subrange(b, c)) + (close + text.subrange(d, len))
        =~= spliced(closed, a, b, open));
}

/// What is left of the first `n` characters when the delimiters of a
/// single span are taken out.
spec fn left_of_one(text: Seq<char>, span: SpanView, n: int) -> Seq<char> {
    text.subrange(
        0,
        if n < span.start {
            n
        } else {
            span.start
        },
    ) + (if n > span.content_start {
        text.subrange(
            span.content_start,
            if n < span.content_end {
                n
            } else {
                span.content_end
            },
        )
    } else {
        Seq::empty()
    }) + (if n > span.delimiter_end {
        text.subrange(span.delimiter_end, n)
    } else {
        Seq::empty()
    })
}

proof fn lemma_kept_of_one(text: Seq<char>, span: SpanView, n: int)
    requires
        span.within(0, text.len() as int),
        is_stripped(span.keyword),
        0 <= n <= text.len(),
    ensures
        kept(text, stripped_positions(text, seq![span]), n) == left_of_one(text, span, n),
    decreases n,
{
    let one = seq![span];
    let flags = strip_flags(one);
    let mask = stripped_positions(text, one);
    if n > 0 {
        lemma_kept_of_one(text, span, n - 1);
        let p = n - 1;
        assert(mask[p] == span.covers(p)) by {
            if covered(one, flags, p) {
                let i = choose|i: int| 0 <= i < one.len() && #[trigger] hits(one, flags, i, p);
                assert(one[i] == span);
            }
            if span.covers(p) {
                assert(hits(one, flags, 0, p));
            }
        }
        assert(kept(text, mask, n) =~= left_of_one(text, span, n));
    } else {
        assert(left_of_one(text, span, 0) =~= Seq::<char>::empty());
    }
}

/// Stripping a single span takes its closing delimiter and its opening
/// delimiter out of the text.
pub proof fn lemma_stripped_one(text: Seq<char>, span: SpanView)
    requires
        span.within(0, text.len() as int),
        is_stripped(span.keyword),
    ensures
        stripped(text, seq![span]) == spliced(
            spliced(text, span.content_end, span.delimiter_end, Seq::empty()),
            span.start,
            span.content_start,
            Seq::empty(),
        ),
{
    let len = text.len() as int;
    lemma_kept_of_one(text, span, len);
    let closed = spliced(text, span.content_end, span.delimiter_end, Seq::empty());
    assert(closed.subrange(0, span.start) =~= text.subrange(0, span.start));
    assert(closed.subrange(span.content_start, closed.len() as int) =~= text.subrange(
        span.content_start,
        span.content_end,
    ) + text.subrange(span.delimiter_end, len));
    assert(left_of_one(text, span, len) =~= spliced(
        closed,
        span.start,
        span.content_start,
        Seq::empty(),
    ));
}

} // verus!
