//! The tag renderer: the text with the delimiters of chosen styles
//! replaced by the tags that a table gives for them.

use vstd::prelude::*;
use crate::cover::{all_within, cover, delimiter_mask};
use crate::escape::{unescape, unescaped};
use crate::identity::{keeps_delimiters, lemma_own_delimiters_formatted};
use crate::nesting::lemma_spans_of_nested;
use crate::parser::{parse_with_limits, text_spans};
use crate::plain::{is_plain, lemma_plain_text_formatted};
use crate::span::{language, language_of, views, Keyword, Span, SpanView};
use crate::tags::TagTable;
use crate::text::{append_chars, chars_of, concat_chars, string_of};

verus! {

/// The table has an entry for the keyword of the span, which is no marker:
/// its delimiters are replaced by tags.
pub open spec fn is_rendered(span: SpanView, tags: Map<Seq<char>, (Seq<char>, Seq<char>)>) -> bool {
    !span.keyword.is_marker() && tags.contains_key(span.keyword.text())
}

/// The span is a marker that is taken out of the text: one inside a code
/// block always, one outside only where the table renders quotes.
pub open spec fn is_deleted(span: SpanView, tags: Map<Seq<char>, (Seq<char>, Seq<char>)>) -> bool {
    span.keyword == Keyword::FenceQuote || (span.keyword == Keyword::NestedQuote
        && tags.contains_key(Keyword::Quote.text()))
}

/// For each span, whether its delimiters leave the text.
pub open spec fn edit_flags(
    spans: Seq<SpanView>,
    tags: Map<Seq<char>, (Seq<char>, Seq<char>)>,
) -> Seq<bool> {
    Seq::new(spans.len(), |i: int| is_rendered(spans[i], tags) || is_deleted(spans[i], tags))
}

/// `pattern` with each `{}` in it, read from the left, replaced by `name`.
pub open spec fn substituted(pattern: Seq<char>, name: Seq<char>) -> Seq<char>
    decreases pattern.len(),
{
    if pattern.len() == 0 {
        pattern
    } else if pattern.len() >= 2 && pattern[0] == '{' && pattern[1] == '}' {
        name + substituted(pattern.skip(2), name)
    } else {
        seq![pattern[0]] + substituted(pattern.skip(1), name)
    }
}

/// The tag that replaces the opening delimiter of a rendered span. For a
/// code block that names a language, the language stands in the tag where
/// the table's entry has `{}`.
pub open spec fn open_tag(
    text: Seq<char>,
    span: SpanView,
    tags: Map<Seq<char>, (Seq<char>, Seq<char>)>,
) -> Seq<char> {
    if span.keyword == Keyword::FenceLanguage {
        substituted(tags[span.keyword.text()].0, language(text, span))
    } else {
        tags[span.keyword.text()].0
    }
}

/// The tag that replaces the closing delimiter of a rendered span.
pub open spec fn close_tag(span: SpanView, tags: Map<Seq<char>, (Seq<char>, Seq<char>)>) -> Seq<
    char,
> {
    tags[span.keyword.text()].1
}

/// The closing tags that are written at position `p`: those of the rendered
/// spans whose content ends there, the innermost first.
pub open spec fn closes_at(
    spans: Seq<SpanView>,
    tags: Map<Seq<char>, (Seq<char>, Seq<char>)>,
    p: int,
) -> Seq<char>
    decreases spans.len(),
{
    if spans.len() == 0 {
        Seq::empty()
    } else if is_rendered(spans.last(), tags) && spans.last().content_end == p {
        close_tag(spans.last(), tags) + closes_at(spans.drop_last(), tags, p)
    } else {
        closes_at(spans.drop_last(), tags, p)
    }
}

/// The opening tags that are written at position `p`: those of the rendered
/// spans that begin there.
pub open spec fn opens_at(
    text: Seq<char>,
    spans: Seq<SpanView>,
    tags: Map<Seq<char>, (Seq<char>, Seq<char>)>,
    p: int,
) -> Seq<char>
    decreases spans.len(),
{
    if spans.len() == 0 {
        Seq::empty()
    } else if is_rendered(spans.last(), tags) && spans.last().start == p {
        opens_at(text, spans.drop_last(), tags, p) + open_tag(text, spans.last(), tags)
    } else {
        opens_at(text, spans.drop_last(), tags, p)
    }
}

/// What is written for position `p`: the closing tags, the opening tags,
/// and the character unless a delimiter that leaves the text holds it.
pub open spec fn piece(
    text: Seq<char>,
    spans: Seq<SpanView>,
    tags: Map<Seq<char>, (Seq<char>, Seq<char>)>,
    p: int,
) -> Seq<char> {
    let tagged = closes_at(spans, tags, p) + opens_at(text, spans, tags, p);
    if 0 <= p < text.len() && !cover(spans, edit_flags(spans, tags), text.len())[p] {
        tagged.push(text[p])
    } else {
        tagged
    }
}

/// What is written for the positions before `n`.
pub open spec fn rendered_upto(
    text: Seq<char>,
    spans: Seq<SpanView>,
    tags: Map<Seq<char>, (Seq<char>, Seq<char>)>,
    n: int,
) -> Seq<char>
    decreases n,
{
    if n <= 0 {
        Seq::empty()
    } else {
        rendered_upto(text, spans, tags, n - 1) + piece(text, spans, tags, n - 1)
    }
}

/// The text with the delimiters of the rendered spans replaced by their
/// tags and without the deleted markers.
pub open spec fn rendered(
    text: Seq<char>,
    spans: Seq<SpanView>,
    tags: Map<Seq<char>, (Seq<char>, Seq<char>)>,
) -> Seq<char> {
    rendered_upto(text, spans, tags, text.len() as int + 1)
}

/// `s` with each line break replaced by `by`.
pub open spec fn with_breaks(s: Seq<char>, by: Seq<char>) -> Seq<char>
    decreases s.len(),
{
    if s.len() == 0 {
        s
    } else if s[0] == '\n' {
        by + with_breaks(s.skip(1), by)
    } else {
        seq![s[0]] + with_breaks(s.skip(1), by)
    }
}

/// `s` with its line breaks replaced as the table says, if it says so.
pub open spec fn broken(s: Seq<char>, tags: Map<Seq<char>, (Seq<char>, Seq<char>)>) -> Seq<char> {
    if tags.contains_key("\n"@) {
        with_breaks(s, tags["\n"@].0)
    } else {
        s
    }
}

/// The text that the renderer returns for `text` and a table: the spans
/// are rendered, then the line breaks replaced, then the escaping
/// backslashes taken out.
pub open spec fn formatted(text: Seq<char>, tags: Map<Seq<char>, (Seq<char>, Seq<char>)>) -> Seq<
    char,
> {
    unescaped(broken(rendered(text, text_spans(text), tags), tags))
}

/// Replaces each `{}` in `pattern` by `name`.
pub fn substitute(pattern: &Vec<char>, name: &Vec<char>) -> (out: Vec<char>)
    ensures
        out@ == substituted(pattern@, name@),
{
    let mut out: Vec<char> = Vec::new();
    let mut i: usize = 0;
    assert(pattern@.skip(0) =~= pattern@);
    assert(out@ + substituted(pattern@, name@) =~= substituted(pattern@, name@));
    while i < pattern.len()
        invariant
            i <= pattern.len(),
            out@ + substituted(pattern@.skip(i as int), name@) == substituted(pattern@, name@),
        decreases pattern.len() - i,
    {
        let ghost tail = pattern@.skip(i as int);
        let ghost before = out@;
        if pattern[i] == '{' && i + 1 < pattern.len() && pattern[i + 1] == '}' {
            append_chars(&mut out, name);
            assert(tail.skip(2) =~= pattern@.skip(i + 2));
            assert(before + (name@ + substituted(tail.skip(2), name@)) =~= (before + name@)
                + substituted(tail.skip(2), name@));
            i += 2;
        } else {
            out.push(pattern[i]);
            assert(tail.skip(1) =~= pattern@.skip(i + 1));
            assert(before + (seq![tail[0]] + substituted(tail.skip(1), name@)) =~= before.push(
                tail[0],
            ) + substituted(tail.skip(1), name@));
            i += 1;
        }
    }
    assert(out@ + Seq::<char>::empty() =~= out@);
    out
}

/// Replaces each line break in `chars` by `by`.
pub fn replace_breaks(chars: &Vec<char>, by: &Vec<char>) -> (out: Vec<char>)
    ensures
        out@ == with_breaks(chars@, by@),
{
    let mut out: Vec<char> = Vec::new();
    let mut i: usize = 0;
    assert(chars@.skip(0) =~= chars@);
    assert(out@ + with_breaks(chars@, by@) =~= with_breaks(chars@, by@));
    while i < chars.len()
        invariant
            i <= chars.len(),
            out@ + with_breaks(chars@.skip(i as int), by@) == with_breaks(chars@, by@),
        decreases chars.len() - i,
    {
        let ghost tail = chars@.skip(i as int);
        let ghost before = out@;
        assert(tail.skip(1) =~= chars@.skip(i + 1));
        if chars[i] == '\n' {
            append_chars(&mut out, by);
            assert(before + (by@ + with_breaks(tail.skip(1), by@)) =~= (before + by@)
                + with_breaks(tail.skip(1), by@));
        } else {
            out.push(chars[i]);
            assert(before + (seq![tail[0]] + with_breaks(tail.skip(1), by@)) =~= before.push(
                tail[0],
            ) + with_breaks(tail.skip(1), by@));
        }
        i += 1;
    }
    assert(out@ + Seq::<char>::empty() =~= out@);
    out
}

/// Collects what the spans write at each position. Returns, for each
/// position of `chars` and for the one behind its last, the closing tags
/// and the opening tags that are written there, and for each span whether
/// its delimiters leave the text.
pub fn tag_layers(chars: &Vec<char>, spans: &Vec<Span>, tags: &TagTable) -> (out: (
    Vec<Vec<char>>,
    Vec<Vec<char>>,
    Vec<bool>,
))
    requires
        all_within(views(spans@), chars.len() as int),
    ensures
        out.0.len() == chars.len() + 1,
        out.1.len() == chars.len() + 1,
        forall|p: int|
            0 <= p <= chars.len() ==> (#[trigger] out.0@[p])@ == closes_at(
                views(spans@),
                tags@,
                p,
            ),
        forall|p: int|
            0 <= p <= chars.len() ==> (#[trigger] out.1@[p])@ == opens_at(
                chars@,
                views(spans@),
                tags@,
                p,
            ),
        out.2@ == edit_flags(views(spans@), tags@),
{
    let ghost model = views(spans@);
    let mut closing: Vec<Vec<char>> = Vec::new();
    let mut opening: Vec<Vec<char>> = Vec::new();
    let mut flags: Vec<bool> = Vec::new();
    let mut n: usize = 0;
    while n < chars.len()
        invariant
            n <= chars.len(),
            closing.len() == n,
            opening.len() == n,
            forall|p: int| 0 <= p < n ==> (#[trigger] closing@[p])@ == Seq::<char>::empty(),
            forall|p: int| 0 <= p < n ==> (#[trigger] opening@[p])@ == Seq::<char>::empty(),
        decreases chars.len() - n,
    {
        closing.push(Vec::new());
        opening.push(Vec::new());
        n += 1;
    }
    closing.push(Vec::new());
    opening.push(Vec::new());
    let quotes = tags.contains_key(Keyword::Quote.as_str());
    let mut k: usize = 0;
    assert(model.take(0) =~= Seq::<SpanView>::empty());
    while k < spans.len()
        invariant
            k <= spans.len(),
            model == views(spans@),
            all_within(model, chars.len() as int),
            quotes == tags@.contains_key(Keyword::Quote.text()),
            closing.len() == chars.len() + 1,
            opening.len() == chars.len() + 1,
            flags.len() == k,
            forall|p: int|
                0 <= p <= chars.len() ==> (#[trigger] closing@[p])@ == closes_at(
                    model.take(k as int),
                    tags@,
                    p,
                ),
            forall|p: int|
                0 <= p <= chars.len() ==> (#[trigger] opening@[p])@ == opens_at(
                    chars@,
                    model.take(k as int),
                    tags@,
                    p,
                ),
            forall|i: int|
                0 <= i < k ==> #[trigger] flags@[i] == (is_rendered(model[i], tags@) || is_deleted(
                    model[i],
                    tags@,
                )),
        decreases spans.len() - k,
    {
        let span = spans[k];
        let ghost held_closing = closing@;
        let ghost held_opening = opening@;
        proof {
            assert(model[k as int] == span@);
            assert(model[k as int].within(0, chars.len() as int));
            assert(model.take(k + 1).drop_last() =~= model.take(k as int));
            assert(model.take(k + 1).last() == span@);
        }
        if span.keyword == Keyword::NestedQuote || span.keyword == Keyword::FenceQuote {
            flags.push(span.keyword == Keyword::FenceQuote || quotes);
        } else {
            let key = chars_of(span.keyword.as_str());
            match tags.get(&key) {
                Some(entry) => {
                    let open = if span.keyword == Keyword::FenceLanguage {
                        let name = chars_of(language_of(chars, span).as_str());
                        substitute(&entry.open, &name)
                    } else {
                        concat_chars(&entry.open, &Vec::new())
                    };
                    assert(open@ =~= open_tag(chars@, span@, tags@));
                    let opened = concat_chars(&opening[span.start], &open);
                    opening[span.start] = opened;
                    let closed = concat_chars(&entry.close, &closing[span.content_end]);
                    closing[span.content_end] = closed;
                    flags.push(true);
                },
                None => {
                    flags.push(false);
                },
            }
        }
        proof {
            assert forall|p: int| 0 <= p <= chars.len() implies (#[trigger] closing@[p])@
                == closes_at(model.take(k + 1), tags@, p) by {
                assert(held_closing[p]@ == closes_at(model.take(k as int), tags@, p));
            }
            assert forall|p: int| 0 <= p <= chars.len() implies (#[trigger] opening@[p])@
                == opens_at(chars@, model.take(k + 1), tags@, p) by {
                assert(held_opening[p]@ == opens_at(chars@, model.take(k as int), tags@, p));
            }
        }
        k += 1;
    }
    assert(model.take(spans.len() as int) =~= model);
    assert(flags@ =~= edit_flags(model, tags@));
    (closing, opening, flags)
}

/// Renders the markup of `body` with the tags of `new_tags`: the
/// delimiters of each span whose keyword the table holds are replaced by
/// the entry's opening and closing string, spans of other keywords stay as
/// they are written. The markers that continue a quote leave the text where
/// the table renders quotes, and inside code blocks always. Then each line
/// break is replaced where the table has an entry for it, and the escaping
/// backslashes are taken out.
pub fn format_body(body: String, new_tags: &TagTable) -> (out: String)
    ensures
        out@ == formatted(body@, new_tags@),
        is_plain(body@, new_tags@) ==> out@ == body@,
        keeps_delimiters(body@, new_tags@) ==> out@ == unescaped(body@),
{
    proof {
        if is_plain(body@, new_tags@) {
            lemma_plain_text_formatted(body@, new_tags@);
        }
        if keeps_delimiters(body@, new_tags@) {
            lemma_own_delimiters_formatted(body@, new_tags@);
        }
    }
    let chars = chars_of(body.as_str());
    if chars.len() < 1 {
        proof {
            let none = text_spans(body@);
            assert(body@ =~= Seq::<char>::empty());
            assert(rendered_upto(body@, none, new_tags@, 0) =~= Seq::<char>::empty());
            assert(rendered(body@, none, new_tags@) =~= Seq::<char>::empty());
        }
        return body;
    }
    let len: usize = chars.len();
    let spans = parse_with_limits(&chars, 0, len - 1, 0);
    let ghost model = views(spans@);
    proof {
        lemma_spans_of_nested(chars@, 0, len - 1, 0);
    }
    let (closing, opening, flags) = tag_layers(&chars, &spans, new_tags);
    let mask = delimiter_mask(len, &spans, &flags);
    let mut text: Vec<char> = Vec::new();
    let mut p: usize = 0;
    while p < len
        invariant
            p <= len,
            len == chars.len(),
            model == views(spans@),
            closing.len() == len + 1,
            opening.len() == len + 1,
            forall|q: int|
                0 <= q <= len ==> (#[trigger] closing@[q])@ == closes_at(model, new_tags@, q),
            forall|q: int|
                0 <= q <= len ==> (#[trigger] opening@[q])@ == opens_at(
                    chars@,
                    model,
                    new_tags@,
                    q,
                ),
            mask@ == cover(model, edit_flags(model, new_tags@), len as nat),
            text@ == rendered_upto(chars@, model, new_tags@, p as int),
        decreases len - p,
    {
        let ghost before = text@;
        append_chars(&mut text, &closing[p]);
        append_chars(&mut text, &opening[p]);
        if !mask[p] {
            text.push(chars[p]);
        }
        assert(text@ =~= before + piece(chars@, model, new_tags@, p as int));
        p += 1;
    }
    let ghost before = text@;
    append_chars(&mut text, &closing[len]);
    append_chars(&mut text, &opening[len]);
    assert(text@ =~= before + piece(chars@, model, new_tags@, len as int));
    let breaks = chars_of("\n");
    let text = match new_tags.get(&breaks) {
        Some(entry) => replace_breaks(&text, &entry.open),
        None => text,
    };
    string_of(&unescape(&text))
}

} // verus!
