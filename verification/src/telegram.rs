//! The entity extractor: the text without the delimiters of its styles, and
//! the styled regions as entities with UTF-16 offsets into that text.

use vstd::prelude::*;
use crate::chars::markup_free;
use crate::cover::{all_within, cover, delimiter_mask};
use crate::nesting::{lemma_spans_of_nested, nested};
use crate::parser::{parse_with_limits, text_spans};
use crate::plain::lemma_plain_text_extracted;
use crate::span::{language, language_of, views, Keyword, SpanView};
use crate::text::{chars_of, string_of};
use crate::utf16::{lemma_utf16_len_prefix, utf16_len, utf8_to_utf16_length};

verus! {

/// The delimiters of such a span are taken out of the text. Quotes stay as
/// they are written; the markers that continue them inside a code block do
/// not.
pub open spec fn is_stripped(keyword: Keyword) -> bool {
    keyword != Keyword::Quote && keyword != Keyword::NestedQuote
}

/// Such a span becomes an entity.
pub open spec fn is_styled(keyword: Keyword) -> bool {
    is_stripped(keyword) && keyword != Keyword::FenceQuote
}

/// The name of the style of an entity.
pub open spec fn style_name(keyword: Keyword) -> Seq<char> {
    match keyword {
        Keyword::Italics => "italics"@,
        Keyword::Bold => "bold"@,
        Keyword::Strikethrough => "strikethrough"@,
        Keyword::Spoiler => "spoiler"@,
        Keyword::Code => "code"@,
        Keyword::Fence => "pre"@,
        Keyword::FenceLanguage => "pre"@,
        _ => ""@,
    }
}

/// For each span, whether its delimiters are taken out of the text.
pub open spec fn strip_flags(spans: Seq<SpanView>) -> Seq<bool> {
    Seq::new(spans.len(), |i: int| is_stripped(spans[i].keyword))
}

/// The first `n` characters of `text` without those that `mask` marks.
pub open spec fn kept(text: Seq<char>, mask: Seq<bool>, n: int) -> Seq<char>
    decreases n,
{
    if n <= 0 {
        Seq::empty()
    } else if mask[n - 1] {
        kept(text, mask, n - 1)
    } else {
        kept(text, mask, n - 1).push(text[n - 1])
    }
}

/// The positions of `text` that the delimiters of stripped spans hold.
pub open spec fn stripped_positions(text: Seq<char>, spans: Seq<SpanView>) -> Seq<bool> {
    cover(spans, strip_flags(spans), text.len())
}

/// The text without the delimiters of the stripped spans.
pub open spec fn stripped(text: Seq<char>, spans: Seq<SpanView>) -> Seq<char> {
    kept(text, stripped_positions(text, spans), text.len() as int)
}

/// The mathematical model of an entity: a style, the UTF-16 offsets of its
/// first code unit and of the one behind its last, and a language.
pub struct EntityView {
    pub style: Seq<char>,
    pub start: int,
    pub end: int,
    pub language: Seq<char>,
}

/// The UTF-16 offset, in the text without the marked characters, of what
/// stood at position `p`.
pub open spec fn offset(text: Seq<char>, mask: Seq<bool>, p: int) -> int {
    utf16_len(kept(text, mask, p)) as int
}

/// The entity of a styled span: it reaches from the span's first position
/// to the end of its content, both taken in the stripped text.
pub open spec fn entity_of(text: Seq<char>, mask: Seq<bool>, span: SpanView) -> EntityView {
    EntityView {
        style: style_name(span.keyword),
        start: offset(text, mask, span.start),
        end: offset(text, mask, span.content_end),
        language: language(text, span),
    }
}

/// The entities of the styled spans among `spans`, in their order.
pub open spec fn entity_list(text: Seq<char>, mask: Seq<bool>, spans: Seq<SpanView>) -> Seq<
    EntityView,
>
    decreases spans.len(),
{
    if spans.len() == 0 {
        Seq::empty()
    } else if is_styled(spans.last().keyword) {
        entity_list(text, mask, spans.drop_last()).push(entity_of(text, mask, spans.last()))
    } else {
        entity_list(text, mask, spans.drop_last())
    }
}

/// The text that the extractor returns for `text`.
pub open spec fn telegram_text(text: Seq<char>) -> Seq<char> {
    stripped(text, text_spans(text))
}

/// The entities that the extractor returns for `text`.
pub open spec fn telegram_entities(text: Seq<char>) -> Seq<EntityView> {
    entity_list(text, stripped_positions(text, text_spans(text)), text_spans(text))
}

/// What is kept of a shorter prefix begins what is kept of a longer one.
pub proof fn lemma_kept_prefix(text: Seq<char>, mask: Seq<bool>, p: int, q: int)
    requires
        0 <= p <= q,
    ensures
        kept(text, mask, p).len() <= kept(text, mask, q).len(),
        kept(text, mask, q).take(kept(text, mask, p).len() as int) == kept(text, mask, p),
        kept(text, mask, q).len() <= q,
    decreases q,
{
    if p == q {
        assert(kept(text, mask, q).take(kept(text, mask, q).len() as int) =~= kept(text, mask, q));
        if q > 0 {
            lemma_kept_prefix(text, mask, p - 1, q - 1);
        }
    } else {
        lemma_kept_prefix(text, mask, p, q - 1);
        let shorter = kept(text, mask, q - 1);
        let n = kept(text, mask, p).len() as int;
        if !mask[q - 1] {
            assert(shorter.push(text[q - 1]).take(n) =~= shorter.take(n));
        }
    }
}

/// Offsets grow with positions.
pub proof fn lemma_offset_monotone(text: Seq<char>, mask: Seq<bool>, p: int, q: int)
    requires
        0 <= p <= q,
    ensures
        0 <= offset(text, mask, p) <= offset(text, mask, q),
{
    lemma_kept_prefix(text, mask, p, q);
    lemma_utf16_len_prefix(kept(text, mask, q), kept(text, mask, p).len() as int);
}

/// Takes the marked characters out of `chars`. Returns what is left and,
/// for each position of `chars` and for the one behind its last, how many
/// characters before that position are left.
pub fn strip(chars: &Vec<char>, mask: &Vec<bool>) -> (out: (Vec<char>, Vec<usize>))
    requires
        mask.len() == chars.len(),
    ensures
        out.0@ == kept(chars@, mask@, chars.len() as int),
        out.1.len() == chars.len() + 1,
        forall|p: int|
            0 <= p <= chars.len() ==> #[trigger] out.1@[p] as int == kept(chars@, mask@, p).len(),
{
    let mut left: Vec<char> = Vec::new();
    let mut positions: Vec<usize> = Vec::new();
    let mut p: usize = 0;
    while p < chars.len()
        invariant
            p <= chars.len(),
            mask.len() == chars.len(),
            left@ == kept(chars@, mask@, p as int),
            left.len() <= p,
            positions.len() == p,
            forall|q: int|
                0 <= q < p ==> #[trigger] positions@[q] as int == kept(chars@, mask@, q).len(),
        decreases chars.len() - p,
    {
        positions.push(left.len());
        if !mask[p] {
            left.push(chars[p]);
        }
        p += 1;
    }
    positions.push(left.len());
    (left, positions)
}

/// Whether the delimiters of a span with this keyword are taken out of the
/// text.
pub fn stripped_keyword(keyword: Keyword) -> (r: bool)
    ensures
        r == is_stripped(keyword),
{
    keyword != Keyword::Quote && keyword != Keyword::NestedQuote
}

/// The name of the style of an entity.
pub fn style_of(keyword: Keyword) -> (r: &'static str)
    ensures
        r@ == style_name(keyword),
{
    match keyword {
        Keyword::Italics => "italics",
        Keyword::Bold => "bold",
        Keyword::Strikethrough => "strikethrough",
        Keyword::Spoiler => "spoiler",
        Keyword::Code => "code",
        Keyword::Fence => "pre",
        Keyword::FenceLanguage => "pre",
        _ => "",
    }
}

/// The model of an entity as the extractor returns it.
pub open spec fn entity_view(entity: (String, usize, usize, String)) -> EntityView {
    EntityView {
        style: entity.0@,
        start: entity.1 as int,
        end: entity.2 as int,
        language: entity.3@,
    }
}

/// The models of the entities that the extractor returns.
pub open spec fn entity_views(entities: Seq<(String, usize, usize, String)>) -> Seq<EntityView> {
    Seq::new(entities.len(), |i: int| entity_view(entities[i]))
}

/// Removes the delimiters of the styled regions of `body` and describes
/// each region by an entity: the name of its style, the UTF-16 offsets of
/// its beginning and of its end in the text that is returned, and the
/// language of a code block that names one. Quotes are left as they are.
pub fn parse_for_telegram(body: String) -> (r: (String, Vec<(String, usize, usize, String)>))
    ensures
        r.0@ == telegram_text(body@),
        entity_views(r.1@) == telegram_entities(body@),
        forall|i: int|
            0 <= i < r.1@.len() ==> 0 <= (#[trigger] r.1@[i]).1 <= r.1@[i].2 <= utf16_len(r.0@),
        forall|i: int, j: int|
            0 <= i < j < r.1@.len() ==> {
                let a = #[trigger] r.1@[i];
                let b = #[trigger] r.1@[j];
                a.1 <= b.1 && (a.2 <= b.1 || b.2 <= a.2)
            },
        markup_free(body@) ==> r.0@ == body@ && r.1@.len() == 0,
{
    proof {
        lemma_entities_nested(body@);
        lemma_entities_in_text(body@);
        if markup_free(body@) {
            lemma_plain_text_extracted(body@);
        }
    }
    let chars = chars_of(body.as_str());
    let mut entities: Vec<(String, usize, usize, String)> = Vec::new();
    if chars.len() < 1 {
        assert(body@ =~= Seq::<char>::empty());
        assert(entity_views(entities@) =~= Seq::<EntityView>::empty());
        assert(telegram_text(body@) =~= body@);
        return (body, entities);
    }
    let len: usize = chars.len();
    let spans = parse_with_limits(&chars, 0, len - 1, 0);
    let ghost model = views(spans@);
    proof {
        lemma_spans_of_nested(chars@, 0, len - 1, 0);
    }
    let mut flags: Vec<bool> = Vec::new();
    let mut k: usize = 0;
    while k < spans.len()
        invariant
            k <= spans.len(),
            model == views(spans@),
            flags.len() == k,
            forall|i: int| 0 <= i < k ==> #[trigger] flags@[i] == is_stripped(model[i].keyword),
        decreases spans.len() - k,
    {
        assert(model[k as int] == spans@[k as int]@);
        flags.push(stripped_keyword(spans[k].keyword));
        k += 1;
    }
    assert(flags@ =~= strip_flags(model));
    let mask = delimiter_mask(len, &spans, &flags);
    let (left, positions) = strip(&chars, &mask);
    let text = string_of(&left);
    let lengths = utf8_to_utf16_length(text.as_str());
    let mut k: usize = 0;
    assert(entity_views(entities@) =~= Seq::<EntityView>::empty());
    assert(model.take(0) =~= Seq::<SpanView>::empty());
    while k < spans.len()
        invariant
            k <= spans.len(),
            len == chars.len(),
            chars@ == body@,
            model == views(spans@),
            all_within(model, len as int),
            mask@ == stripped_positions(chars@, model),
            left@ == kept(chars@, mask@, len as int),
            text@ == left@,
            positions.len() == len + 1,
            forall|p: int|
                0 <= p <= len ==> #[trigger] positions@[p] as int == kept(chars@, mask@, p).len(),
            lengths.len() == left@.len() + 1,
            forall|i: int|
                0 <= i <= left@.len() ==> #[trigger] lengths@[i] as int == utf16_len(
                    left@.take(i),
                ),
            entity_views(entities@) == entity_list(chars@, mask@, model.take(k as int)),
        decreases spans.len() - k,
    {
        let span = spans[k];
        proof {
            assert(model[k as int] == span@);
            assert(model[k as int].within(0, len as int));
            assert(model.take(k + 1).drop_last() =~= model.take(k as int));
            assert(model.take(k + 1).last() == span@);
        }
        if stripped_keyword(span.keyword) && span.keyword != Keyword::FenceQuote {
            proof {
                lemma_kept_prefix(chars@, mask@, span.start as int, len as int);
                lemma_kept_prefix(chars@, mask@, span.content_end as int, len as int);
            }
            let first: usize = positions[span.start];
            let last: usize = positions[span.content_end];
            let entity = (
                style_of(span.keyword).to_owned(),
                lengths[first],
                lengths[last],
                language_of(&chars, span),
            );
            let ghost before = entity_views(entities@);
            entities.push(entity);
            assert(entity_views(entities@) =~= before.push(
                entity_of(chars@, mask@, span@),
            ));
        }
        k += 1;
    }
    assert(model.take(spans.len() as int) =~= model);
    proof {
        let found = telegram_entities(body@);
        assert(entity_views(entities@).len() == entities@.len());
        assert forall|i: int| 0 <= i < entities@.len() implies found[i] == entity_view(
            #[trigger] entities@[i],
        ) by {
            assert(entity_views(entities@)[i] == entity_view(entities@[i]));
        }
    }
    (text, entities)
}

/// Any two entities of a text are disjoint or one lies inside the other:
/// of two entities the later one begins behind the end of the earlier one,
/// or begins and ends inside it. The entities stand in the order of their
/// beginnings.
pub proof fn lemma_entities_nested(text: Seq<char>)
    ensures
        forall|i: int, j: int|
            0 <= i < j < telegram_entities(text).len() ==> {
                let a = #[trigger] telegram_entities(text)[i];
                let b = #[trigger] telegram_entities(text)[j];
                a.start <= b.start && (a.end <= b.start || b.end <= a.end)
            },
{
    let spans = text_spans(text);
    let mask = stripped_positions(text, spans);
    lemma_spans_of_nested(text, 0, text.len() - 1, 0);
    lemma_entity_list_nested(text, mask, spans);
}

/// Every entity of a text lies within the text that is returned with it:
/// its offsets are in order and do not exceed the UTF-16 length of that
/// text.
pub proof fn lemma_entities_in_text(text: Seq<char>)
    ensures
        forall|i: int|
            0 <= i < telegram_entities(text).len() ==> {
                let e = #[trigger] telegram_entities(text)[i];
                0 <= e.start <= e.end <= utf16_len(telegram_text(text))
            },
{
    let spans = text_spans(text);
    let mask = stripped_positions(text, spans);
    lemma_spans_of_nested(text, 0, text.len() - 1, 0);
    lemma_entity_list_nested(text, mask, spans);
    let es = telegram_entities(text);
    assert forall|i: int| 0 <= i < es.len() implies {
        let e = #[trigger] es[i];
        0 <= e.start <= e.end <= utf16_len(telegram_text(text))
    } by {
        let a = choose|a: int| 0 <= a < spans.len() && es[i] == entity_of(text, mask, spans[a]);
        assert(spans[a].within(0, text.len() as int));
        lemma_offset_monotone(text, mask, spans[a].start, spans[a].content_end);
        lemma_offset_monotone(text, mask, spans[a].content_end, text.len() as int);
    }
}

/// Each entity of a nested list of spans stems from one of the spans, and
/// the entities are nested as the spans are.
pub proof fn lemma_entity_list_nested(text: Seq<char>, mask: Seq<bool>, spans: Seq<SpanView>)
    requires
        nested(spans, 0, text.len() as int),
    ensures
        forall|i: int|
            0 <= i < entity_list(text, mask, spans).len() ==> exists|a: int|
                0 <= a < spans.len() && #[trigger] entity_list(text, mask, spans)[i] == entity_of(
                    text,
                    mask,
                    spans[a],
                ),
        forall|i: int, j: int|
            0 <= i < j < entity_list(text, mask, spans).len() ==> {
                let a = #[trigger] entity_list(text, mask, spans)[i];
                let b = #[trigger] entity_list(text, mask, spans)[j];
                a.start <= b.start && (a.end <= b.start || b.end <= a.end)
            },
    decreases spans.len(),
{
    if spans.len() > 0 {
        let front = spans.drop_last();
        let last = spans.last();
        assert forall|i: int| 0 <= i < front.len() implies front[i] == spans[i] by {}
        assert(nested(front, 0, text.len() as int));
        lemma_entity_list_nested(text, mask, front);
        let es = entity_list(text, mask, spans);
        let fs = entity_list(text, mask, front);
        assert forall|i: int| 0 <= i < es.len() implies exists|a: int|
            0 <= a < spans.len() && #[trigger] es[i] == entity_of(text, mask, spans[a]) by {
            if i < fs.len() {
                let a = choose|a: int| 0 <= a < front.len() && fs[i] == entity_of(text, mask, front[a]);
                assert(es[i] == entity_of(text, mask, spans[a]));
            } else {
                assert(es[i] == entity_of(text, mask, spans[spans.len() - 1]));
            }
        }
        if is_styled(last.keyword) {
            let b = entity_of(text, mask, last);
            assert forall|i: int| 0 <= i < fs.len() implies {
                let a = #[trigger] fs[i];
                a.start <= b.start && (a.end <= b.start || b.end <= a.end)
            } by {
                let x = choose|x: int| 0 <= x < front.len() && fs[i] == entity_of(text, mask, front[x]);
                let outer = spans[x];
                assert(outer.within(0, text.len() as int));
                assert(last == spans[spans.len() - 1]);
                assert(last.within(0, text.len() as int));
                assert(outer.encloses(last) || outer.precedes(last));
                lemma_offset_monotone(text, mask, outer.start, last.start);
                if outer.encloses(last) {
                    lemma_offset_monotone(text, mask, last.content_end, outer.content_end);
                } else {
                    lemma_offset_monotone(text, mask, outer.content_end, last.start);
                }
            }
        }
    }
}

} // verus!
