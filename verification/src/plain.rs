//! Texts without markup: both conversions leave them as they are.

use vstd::prelude::*;
use crate::chars::{is_markup_char, markup_free};
use crate::cover::covered_upto;
use crate::escape::{lemma_unescaped_plain, unescaped};
use crate::parser::{advance, scan_at, spans_from, text_spans, MAX_NESTING};
use crate::render::{broken, edit_flags, formatted, piece, rendered, rendered_upto, with_breaks};
use crate::span::SpanView;
use crate::telegram::{kept, stripped_positions, telegram_entities, telegram_text, EntityView};

verus! {

/// The scanner finds no span in a range that holds no markup character.
pub proof fn lemma_markup_free_spans(
    chars: Seq<char>,
    index: int,
    start: int,
    end: int,
    depth: int,
    level: nat,
)
    requires
        markup_free(chars),
        0 <= start <= index,
        end < chars.len(),
    ensures
        spans_from(chars, index, start, end, depth, level) == Seq::<SpanView>::empty(),
    decreases end + 1 - index,
{
    if index <= end {
        assert(!is_markup_char(chars[index]));
        let scan = scan_at(chars, index, start, end, depth);
        assert(scan.span is None);
        lemma_markup_free_spans(chars, advance(scan.next, index, end), start, end, depth, level);
        assert(Seq::<SpanView>::empty() + Seq::<SpanView>::empty() =~= Seq::<SpanView>::empty());
    }
}

/// A text without markup characters has no spans.
pub proof fn lemma_markup_free_text(text: Seq<char>)
    requires
        markup_free(text),
    ensures
        text_spans(text) == Seq::<SpanView>::empty(),
{
    if text.len() > 0 {
        lemma_markup_free_spans(text, 0, 0, text.len() - 1, 0, MAX_NESTING as nat);
    }
}

/// Without spans, rendering writes the characters as they are.
pub proof fn lemma_rendered_without_spans(
    text: Seq<char>,
    tags: Map<Seq<char>, (Seq<char>, Seq<char>)>,
)
    ensures
        rendered(text, Seq::empty(), tags) == text,
{
    let none = Seq::<SpanView>::empty();
    lemma_rendered_prefix_without_spans(text, tags, text.len() as int);
    assert(piece(text, none, tags, text.len() as int) =~= Seq::<char>::empty());
    assert(text.take(text.len() as int) + Seq::<char>::empty() =~= text);
}

/// Without spans, what is written for the first `n` positions is the first
/// `n` characters.
pub proof fn lemma_rendered_prefix_without_spans(
    text: Seq<char>,
    tags: Map<Seq<char>, (Seq<char>, Seq<char>)>,
    n: int,
)
    requires
        0 <= n <= text.len(),
    ensures
        rendered_upto(text, Seq::empty(), tags, n) == text.take(n),
    decreases n,
{
    let none = Seq::<SpanView>::empty();
    if n > 0 {
        lemma_rendered_prefix_without_spans(text, tags, n - 1);
        assert(!covered_upto(none, edit_flags(none, tags), 0, n - 1));
        assert(piece(text, none, tags, n - 1) =~= seq![text[n - 1]]);
        assert(text.take(n - 1) + seq![text[n - 1]] =~= text.take(n));
    } else {
        assert(text.take(0) =~= Seq::<char>::empty());
    }
}

/// A text without line breaks is left as it is when line breaks are
/// replaced.
pub proof fn lemma_with_breaks_plain(s: Seq<char>, by: Seq<char>)
    requires
        forall|i: int| 0 <= i < s.len() ==> s[i] != '\n',
    ensures
        with_breaks(s, by) == s,
    decreases s.len(),
{
    if s.len() > 0 {
        lemma_with_breaks_plain(s.skip(1), by);
        assert(seq![s[0]] + s.skip(1) =~= s);
    }
}

/// The renderer treats a text without markup characters as plain text: it
/// replaces its line breaks and takes its escaping backslashes out,
/// whatever tags the table holds.
pub proof fn lemma_markup_free_formatted(
    text: Seq<char>,
    tags: Map<Seq<char>, (Seq<char>, Seq<char>)>,
)
    requires
        markup_free(text),
    ensures
        formatted(text, tags) == unescaped(broken(text, tags)),
{
    lemma_markup_free_text(text);
    lemma_rendered_without_spans(text, tags);
}

/// The text holds no markup character and no backslash, and no line break
/// where the table replaces line breaks.
pub open spec fn is_plain(text: Seq<char>, tags: Map<Seq<char>, (Seq<char>, Seq<char>)>) -> bool {
    &&& markup_free(text)
    &&& forall|i: int| 0 <= i < text.len() ==> text[i] != '\\'
    &&& tags.contains_key("\n"@) ==> forall|i: int| 0 <= i < text.len() ==> text[i] != '\n'
}

/// The renderer returns a plain text unchanged.
pub proof fn lemma_plain_text_formatted(
    text: Seq<char>,
    tags: Map<Seq<char>, (Seq<char>, Seq<char>)>,
)
    requires
        is_plain(text, tags),
    ensures
        formatted(text, tags) == text,
{
    lemma_markup_free_formatted(text, tags);
    if tags.contains_key("\n"@) {
        lemma_with_breaks_plain(text, tags["\n"@].0);
    }
    lemma_unescaped_plain(text);
}

/// Without spans, nothing is taken out of the first `n` characters.
pub proof fn lemma_kept_without_spans(text: Seq<char>, n: int)
    requires
        0 <= n <= text.len(),
    ensures
        kept(text, stripped_positions(text, Seq::empty()), n) == text.take(n),
    decreases n,
{
    let none = Seq::<SpanView>::empty();
    if n > 0 {
        lemma_kept_without_spans(text, n - 1);
        assert(!covered_upto(none, crate::telegram::strip_flags(none), 0, n - 1));
        assert(text.take(n - 1).push(text[n - 1]) =~= text.take(n));
    } else {
        assert(text.take(0) =~= Seq::<char>::empty());
    }
}

/// The extractor returns a text without markup characters unchanged, with
/// no entities.
pub proof fn lemma_plain_text_extracted(text: Seq<char>)
    requires
        markup_free(text),
    ensures
        telegram_text(text) == text,
        telegram_entities(text) == Seq::<EntityView>::empty(),
{
    lemma_markup_free_text(text);
    lemma_kept_without_spans(text, text.len() as int);
    assert(text.take(text.len() as int) =~= text);
}

} // verus!
