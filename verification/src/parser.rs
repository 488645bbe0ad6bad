//! The span scanner: one pass over a range of characters that finds the
//! well-formed regions of markup in it.

use vstd::prelude::*;
use crate::chars::{inline_delimiter, is_inline_delimiter};
use crate::nesting::{lemma_spans_of_nested, nested};
use crate::rules::{all_obey_inline_rules, lemma_spans_of_rules};
use crate::seek::{
    begins_quote, block_end, closer_stop, closing, continues_quote, fence_closes_at,
    followed_by_whitespace, is_char_repeating, is_closer, is_escaped, is_final_closer,
    is_nested_quote, is_quote_start, is_reopener, lemma_first_match, line_end, opens_after_space,
    preceeded_by_backslash, preceeded_by_whitespace, quote_continues, quote_end, repeats, seek_end,
    seek_end_block, seek_end_of_line, seek_end_of_quote, space_follows,
};
use crate::span::{inline_keyword, marker_at, views, Keyword, Span, SpanView};

verus! {

/// What the scanner finds at one position: the span that opens there, if
/// one does, and the position at which the scan goes on.
pub struct Scan {
    pub span: Option<SpanView>,
    pub next: int,
}

/// No span opens; the scan goes on at `next`.
pub open spec fn skip(next: int) -> Scan {
    Scan { span: None, next }
}

/// `span` opens; the scan goes on behind it.
pub open spec fn found(span: SpanView) -> Scan {
    Scan { span: Some(span), next: span.delimiter_end }
}

/// A quote marker at `index`: it opens a quote one level deeper, continues
/// an open quote, or is plain text.
pub open spec fn scan_quote(chars: Seq<char>, index: int, end: int, depth: int) -> Scan {
    if begins_quote(chars, index, depth) {
        let to = quote_end(chars, index, end, depth);
        found(
            SpanView {
                keyword: Keyword::Quote,
                start: index,
                content_start: index + 1,
                content_end: to,
                delimiter_end: to,
            },
        )
    } else if continues_quote(chars, index, depth) {
        found(marker_at(Keyword::NestedQuote, index))
    } else {
        skip(index + 1)
    }
}

/// Three backticks at `index`: they open a code block where they begin
/// their line, a further line follows, and the block is not empty. The
/// closing delimiter is the line break and the fence line, or nothing where
/// the block ends with the range.
pub open spec fn scan_fence(chars: Seq<char>, index: int, end: int, depth: int) -> Scan {
    let eol = line_end(chars, index + 1, end);
    let to = block_end(chars, '`', eol, end, depth);
    if eol < end && to != eol && begins_quote(chars, index, depth) {
        found(
            SpanView {
                keyword: if eol == index + 3 {
                    Keyword::Fence
                } else {
                    Keyword::FenceLanguage
                },
                start: index,
                content_start: eol + 1,
                content_end: to,
                delimiter_end: if to + depth >= end {
                    to
                } else {
                    to + 4 + depth
                },
            },
        )
    } else {
        skip(index + 3)
    }
}

/// Two bars at `index`: they open a spoiler where no white space follows
/// them, two bars close it on the same line, and something stands between.
pub open spec fn scan_spoiler(chars: Seq<char>, index: int, end: int) -> Scan {
    if space_follows(chars, index + 1, end) {
        skip(index + 2)
    } else {
        match closing(chars, '|', index + 2, 1, end) {
            Some(to) => if to != index + 2 {
                found(
                    SpanView {
                        keyword: Keyword::Spoiler,
                        start: index,
                        content_start: index + 2,
                        content_end: to,
                        delimiter_end: to + 2,
                    },
                )
            } else {
                skip(to + 2)
            },
            None => skip(index + 2),
        }
    }
}

/// An inline delimiter at `index`: it opens a span where the same
/// delimiter closes it on the same line and something stands between.
pub open spec fn scan_inline(chars: Seq<char>, index: int, end: int) -> Scan {
    match closing(chars, chars[index], index + 1, 0, end) {
        Some(to) => if to != index + 1 {
            found(
                SpanView {
                    keyword: inline_keyword(chars[index]),
                    start: index,
                    content_start: index + 1,
                    content_end: to,
                    delimiter_end: to + 1,
                },
            )
        } else {
            skip(to + 1)
        },
        None => skip(index + 1),
    }
}

/// What the scanner finds at `index` in the range from `start` to `end`,
/// inside `depth` quotes.
pub open spec fn scan_at(chars: Seq<char>, index: int, start: int, end: int, depth: int) -> Scan {
    let c = chars[index];
    if is_escaped(chars, index, start) {
        skip(index + 1)
    } else if c == '>' {
        scan_quote(chars, index, end, depth)
    } else if c == '`' && repeats(chars, '`', 2, index + 1, end) {
        scan_fence(chars, index, end, depth)
    } else if !opens_after_space(chars, index, start) || space_follows(chars, index, end) {
        skip(index + 1)
    } else if c == '|' && repeats(chars, '|', 1, index + 1, end) {
        scan_spoiler(chars, index, end)
    } else if !is_inline_delimiter(c) {
        skip(index + 1)
    } else {
        scan_inline(chars, index, end)
    }
}

/// A closing delimiter lies in the range, behind the content's first
/// position or at it, and is complete.
pub proof fn lemma_closing_bounds(
    chars: Seq<char>,
    keyword: char,
    start: int,
    repetitions: int,
    end: int,
)
    requires
        start <= end + 1,
        0 <= repetitions,
    ensures
        closing(chars, keyword, start, repetitions, end) matches Some(to) ==> start <= to
            && to + repetitions <= end && chars[to] == keyword,
{
    let p = |i: int| chars[i] == '\n' || is_closer(chars, keyword, i, repetitions, end);
    lemma_first_match(p, start, end);
    let i = closer_stop(chars, keyword, start, repetitions, end);
    if i <= end && chars[i] != '\n' {
        let q = |j: int|
            chars[j] == '\n' || is_reopener(chars, keyword, j, repetitions, end) || is_final_closer(
                chars,
                keyword,
                j,
                repetitions,
                end,
            );
        lemma_first_match(q, i + 1, end);
    }
}

/// The end of a quote lies behind its marker and not behind the range.
pub proof fn lemma_quote_end_bounds(chars: Seq<char>, index: int, end: int, depth: int)
    requires
        index <= end,
        chars[index] != '\n',
    ensures
        index < quote_end(chars, index, end, depth) <= end + 1,
{
    let p = |i: int| chars[i] == '\n' && !quote_continues(chars, i, depth);
    lemma_first_match(p, index, end);
}

/// The content of a code block ends in the range or just behind it, and a
/// closing fence lies in the range.
pub proof fn lemma_block_end_bounds(chars: Seq<char>, start: int, end: int, depth: int)
    requires
        start <= end + 1,
        0 <= depth,
    ensures
        start <= block_end(chars, '`', start, end, depth) <= end + 1,
        block_end(chars, '`', start, end, depth) + depth < end ==> block_end(
            chars,
            '`',
            start,
            end,
            depth,
        ) + 4 + depth <= end + 1,
{
    let p = |i: int| fence_closes_at(chars, '`', i, end, depth);
    lemma_first_match(p, start, end);
    let i = block_end(chars, '`', start, end, depth);
    if i <= end && i + depth < end {
        lemma_first_match(|k: int| chars[k] == '\n', i + 1, end);
    }
}

/// What holds of every result of a scan at `index`: the scan goes on
/// behind `index` and not behind the position that follows `end`; a span
/// that was found opens at `index`, lies within the range, and the scan
/// goes on behind it.
pub open spec fn scan_in_range(scan: Scan, index: int, end: int, depth: int) -> bool {
    &&& index < scan.next <= end + 1
    &&& scan.span matches Some(span) ==> {
        &&& span.start == index
        &&& span.within(index, end + 1)
        &&& span.delimiter_end == scan.next
        &&& span.keyword != Keyword::FenceQuote
        &&& span.keyword == Keyword::Quote ==> depth <= index
        &&& span.keyword == Keyword::NestedQuote ==> span == marker_at(Keyword::NestedQuote, index)
    }
}

/// Every scan at a position of its range stays within the range.
pub proof fn lemma_scan_in_range(chars: Seq<char>, index: int, start: int, end: int, depth: int)
    requires
        start <= index <= end,
        0 <= depth,
    ensures
        scan_in_range(scan_at(chars, index, start, end, depth), index, end, depth),
{
    let c = chars[index];
    if is_escaped(chars, index, start) {
    } else if c == '>' {
        lemma_quote_end_bounds(chars, index, end, depth);
    } else if c == '`' && repeats(chars, '`', 2, index + 1, end) {
        let eol = line_end(chars, index + 1, end);
        lemma_first_match(|i: int| chars[i] == '\n', index + 1, end);
        if eol < end {
            lemma_block_end_bounds(chars, eol, end, depth);
        }
    } else if !opens_after_space(chars, index, start) || space_follows(chars, index, end) {
    } else if c == '|' && repeats(chars, '|', 1, index + 1, end) {
        lemma_closing_bounds(chars, '|', index + 2, 1, end);
    } else if !is_inline_delimiter(c) {
    } else {
        lemma_closing_bounds(chars, c, index + 1, 0, end);
    }
}

/// What the scanner found at one position.
#[derive(Clone, Copy, Debug)]
pub struct Scanned {
    pub span: Option<Span>,
    pub next: usize,
}

impl View for Scanned {
    type V = Scan;

    open spec fn view(&self) -> Scan {
        Scan {
            span: match self.span {
                Some(span) => Some(span@),
                None => None,
            },
            next: self.next as int,
        }
    }
}

/// Decides what the quote marker at `index` stands for.
pub fn quote_at(chars: &Vec<char>, index: usize, end: usize, depth: usize) -> (r: Scanned)
    requires
        index <= end < chars.len(),
        chars@[index as int] == '>',
    ensures
        r@ == scan_quote(chars@, index as int, end as int, depth as int),
        index < r.next <= end + 1,
{
    if is_quote_start(chars, index, depth) {
        let to = seek_end_of_quote(chars, index, end, depth);
        proof {
            lemma_quote_end_bounds(chars@, index as int, end as int, depth as int);
        }
        Scanned {
            span: Some(
                Span {
                    keyword: Keyword::Quote,
                    start: index,
                    content_start: index + 1,
                    content_end: to,
                    delimiter_end: to,
                },
            ),
            next: to,
        }
    } else if is_nested_quote(chars, index, depth) {
        Scanned {
            span: Some(
                Span {
                    keyword: Keyword::NestedQuote,
                    start: index,
                    content_start: index + 1,
                    content_end: index + 1,
                    delimiter_end: index + 1,
                },
            ),
            next: index + 1,
        }
    } else {
        Scanned { span: None, next: index + 1 }
    }
}

/// Decides whether the three backticks at `index` open a code block.
pub fn fence_at(chars: &Vec<char>, index: usize, end: usize, depth: usize) -> (r: Scanned)
    requires
        index + 2 <= end < chars.len(),
    ensures
        r@ == scan_fence(chars@, index as int, end as int, depth as int),
        index < r.next <= end + 1,
{
    let eol = seek_end_of_line(chars, index + 1, end);
    proof {
        lemma_first_match(|i: int| chars@[i] == '\n', index + 1, end as int);
    }
    if eol >= end {
        return Scanned { span: None, next: index + 3 };
    }
    proof {
        lemma_block_end_bounds(chars@, eol as int, end as int, depth as int);
    }
    let to = seek_end_block(chars, '`', eol, end, depth);
    if to != eol && is_quote_start(chars, index, depth) {
        let keyword = if eol == index + 3 {
            Keyword::Fence
        } else {
            Keyword::FenceLanguage
        };
        let delimiter_end = if to > end || depth >= end - to {
            to
        } else {
            to + 4 + depth
        };
        Scanned {
            span: Some(
                Span { keyword, start: index, content_start: eol + 1, content_end: to, delimiter_end },
            ),
            next: delimiter_end,
        }
    } else {
        Scanned { span: None, next: index + 3 }
    }
}

/// Decides whether the two bars at `index` open a spoiler.
pub fn spoiler_at(chars: &Vec<char>, index: usize, end: usize) -> (r: Scanned)
    requires
        index + 1 <= end < chars.len(),
    ensures
        r@ == scan_spoiler(chars@, index as int, end as int),
        index < r.next <= end + 1,
{
    proof {
        lemma_closing_bounds(chars@, '|', index + 2, 1, end as int);
    }
    if followed_by_whitespace(chars, index + 1, end) {
        return Scanned { span: None, next: index + 2 };
    }
    match seek_end(chars, '|', index + 2, 1, end) {
        Some(to) => {
            if to != index + 2 {
                Scanned {
                    span: Some(
                        Span {
                            keyword: Keyword::Spoiler,
                            start: index,
                            content_start: index + 2,
                            content_end: to,
                            delimiter_end: to + 2,
                        },
                    ),
                    next: to + 2,
                }
            } else {
                Scanned { span: None, next: to + 2 }
            }
        },
        None => Scanned { span: None, next: index + 2 },
    }
}

/// The keyword of the inline style that `c` delimits.
pub fn keyword_of(c: char) -> (r: Keyword)
    ensures
        r == inline_keyword(c),
{
    if c == '*' {
        Keyword::Bold
    } else if c == '_' {
        Keyword::Italics
    } else if c == '~' {
        Keyword::Strikethrough
    } else {
        Keyword::Code
    }
}

/// Decides whether the inline delimiter at `index` opens a span.
pub fn inline_at(chars: &Vec<char>, index: usize, end: usize) -> (r: Scanned)
    requires
        index <= end < chars.len(),
    ensures
        r@ == scan_inline(chars@, index as int, end as int),
        index < r.next <= end + 1,
{
    let c = chars[index];
    proof {
        lemma_closing_bounds(chars@, c, index + 1, 0, end as int);
    }
    match seek_end(chars, c, index + 1, 0, end) {
        Some(to) => {
            if to != index + 1 {
                Scanned {
                    span: Some(
                        Span {
                            keyword: keyword_of(c),
                            start: index,
                            content_start: index + 1,
                            content_end: to,
                            delimiter_end: to + 1,
                        },
                    ),
                    next: to + 1,
                }
            } else {
                Scanned { span: None, next: to + 1 }
            }
        },
        None => Scanned { span: None, next: index + 1 },
    }
}

/// Decides what stands at `index` in the range from `start` to `end`,
/// inside `depth` quotes.
pub fn scan(chars: &Vec<char>, index: usize, start: usize, end: usize, depth: usize) -> (r: Scanned)
    requires
        start <= index <= end < chars.len(),
    ensures
        r@ == scan_at(chars@, index as int, start as int, end as int, depth as int),
        index < r.next <= end + 1,
{
    if preceeded_by_backslash(chars, index, start) {
        return Scanned { span: None, next: index + 1 };
    }
    let c = chars[index];
    if c == '>' {
        return quote_at(chars, index, end, depth);
    }
    if c == '`' && is_char_repeating(chars, '`', 2, index + 1, end) {
        return fence_at(chars, index, end, depth);
    }
    if !preceeded_by_whitespace(chars, index, start) || followed_by_whitespace(chars, index, end) {
        return Scanned { span: None, next: index + 1 };
    }
    if c == '|' && is_char_repeating(chars, '|', 1, index + 1, end) {
        return spoiler_at(chars, index, end);
    }
    if !inline_delimiter(c) {
        return Scanned { span: None, next: index + 1 };
    }
    inline_at(chars, index, end)
}

/// The deepest nesting of spans that the scanner follows. The content of a
/// span at this level is left as plain text.
pub const MAX_NESTING: usize = 100;

/// The markers that continue the enclosing quotes inside a code block whose
/// content lies from `from` to `end`.
pub open spec fn fence_markers(chars: Seq<char>, from: int, end: int, depth: int) -> Seq<SpanView>
    decreases end + 1 - from,
{
    if from > end || depth < 1 {
        Seq::empty()
    } else if chars[from] == '>' && continues_quote(chars, from, depth) {
        seq![marker_at(Keyword::FenceQuote, from)] + fence_markers(chars, from + 1, end, depth)
    } else {
        fence_markers(chars, from + 1, end, depth)
    }
}

/// The depth of quotes inside the content of a span found at `depth`.
pub open spec fn content_depth(keyword: Keyword, depth: int) -> int {
    if keyword == Keyword::Quote {
        depth + 1
    } else {
        depth
    }
}

/// The position at which the scan goes on behind `index`: `next`, and in any
/// case a later position that is not behind the one that follows `end`.
pub open spec fn advance(next: int, index: int, end: int) -> int {
    if next <= index {
        index + 1
    } else if next > end + 1 {
        end + 1
    } else {
        next
    }
}

/// The spans inside the content of `span`: the quote markers of a code
/// block, the spans of styled content as long as `level` allows, and
/// nothing else.
pub open spec fn content_spans(chars: Seq<char>, span: SpanView, depth: int, level: nat) -> Seq<
    SpanView,
>
    decreases level, 0int, 0int,
{
    if span.keyword.is_fence() {
        fence_markers(chars, span.content_start, span.content_end - 1, depth)
    } else if span.keyword.has_styled_content() && level > 0 {
        spans_from(
            chars,
            span.content_start,
            span.content_start,
            span.content_end - 1,
            content_depth(span.keyword, depth),
            (level - 1) as nat,
        )
    } else {
        Seq::empty()
    }
}

/// The spans that the scanner finds from `index` on in the range from
/// `start` to `end`, inside `depth` quotes, following nested content for
/// `level` more levels. Each span is followed by the spans inside it, then
/// by those behind it.
pub open spec fn spans_from(
    chars: Seq<char>,
    index: int,
    start: int,
    end: int,
    depth: int,
    level: nat,
) -> Seq<SpanView>
    decreases level, 1int, end + 1 - index,
{
    if index > end {
        Seq::empty()
    } else {
        let scan = scan_at(chars, index, start, end, depth);
        let here = match scan.span {
            Some(span) => seq![span] + content_spans(chars, span, depth, level),
            None => Seq::empty(),
        };
        here + spans_from(chars, advance(scan.next, index, end), start, end, depth, level)
    }
}

/// The last position of a range of `chars` that is meant to end at `end`:
/// a range that reaches beyond the text ends with the text.
pub open spec fn range_end(chars: Seq<char>, end: int) -> int {
    if end < chars.len() {
        end
    } else {
        chars.len() - 1
    }
}

/// The spans of the range from `start` to `end` of `chars`, inside `depth`
/// quotes. A range that reaches beyond the text ends with the text.
pub open spec fn spans_of(chars: Seq<char>, start: int, end: int, depth: int) -> Seq<SpanView> {
    if chars.len() == 0 {
        Seq::empty()
    } else {
        spans_from(
            chars,
            start,
            start,
            if end < chars.len() {
                end
            } else {
                chars.len() - 1
            },
            depth,
            MAX_NESTING as nat,
        )
    }
}

/// The spans of a whole text.
pub open spec fn text_spans(text: Seq<char>) -> Seq<SpanView> {
    spans_of(text, 0, text.len() - 1, 0)
}

/// Collects the markers that continue the enclosing quotes inside the
/// content of a code block that lies from `start` to `end`. Outside a quote
/// there are none. A range that reaches beyond the text ends with the text.
pub fn parse_quotes_in_code_block(chars: &Vec<char>, start: usize, end: usize, depth: usize) -> (quotes:
    Vec<Span>)
    ensures
        views(quotes@) == fence_markers(
            chars@,
            start as int,
            range_end(chars@, end as int),
            depth as int,
        ),
        depth == 0 ==> quotes@.len() == 0,
{
    let mut quotes: Vec<Span> = Vec::new();
    if depth < 1 || chars.len() == 0 {
        assert(views(quotes@) =~= Seq::empty());
        return quotes;
    }
    let last: usize = if end < chars.len() {
        end
    } else {
        chars.len() - 1
    };
    let mut index: usize = start;
    while index <= last
        invariant
            start <= index,
            last < chars.len(),
            depth >= 1,
            views(quotes@) + fence_markers(chars@, index as int, last as int, depth as int)
                == fence_markers(chars@, start as int, last as int, depth as int),
        decreases last + 1 - index,
    {
        if chars[index] == '>' && is_nested_quote(chars, index, depth) {
            let ghost before = views(quotes@);
            let marker = Span {
                keyword: Keyword::FenceQuote,
                start: index,
                content_start: index + 1,
                content_end: index + 1,
                delimiter_end: index + 1,
            };
            quotes.push(marker);
            assert(views(quotes@) =~= before + seq![marker@]);
            assert(before + (seq![marker@] + fence_markers(
                chars@,
                index + 1,
                last as int,
                depth as int,
            )) =~= (before + seq![marker@]) + fence_markers(
                chars@,
                index + 1,
                last as int,
                depth as int,
            ));
        }
        index += 1;
    }
    assert(views(quotes@) + Seq::<SpanView>::empty() =~= views(quotes@));
    quotes
}

/// Scans the range from `start` to `end` for spans, following nested
/// content for `level` more levels.
#[verifier::rlimit(40)]
pub fn parse_level(chars: &Vec<char>, start: usize, end: usize, depth: usize, level: usize) -> (spans:
    Vec<Span>)
    requires
        end < chars.len(),
    ensures
        views(spans@) == spans_from(
            chars@,
            start as int,
            start as int,
            end as int,
            depth as int,
            level as nat,
        ),
    decreases level,
{
    let mut spans: Vec<Span> = Vec::new();
    let mut index: usize = start;
    assert(views(spans@) =~= Seq::empty());
    while index <= end
        invariant
            start <= index,
            end < chars.len(),
            views(spans@) + spans_from(
                chars@,
                index as int,
                start as int,
                end as int,
                depth as int,
                level as nat,
            ) == spans_from(
                chars@,
                start as int,
                start as int,
                end as int,
                depth as int,
                level as nat,
            ),
        decreases end + 1 - index,
    {
        let found = scan(chars, index, start, end, depth);
        proof {
            lemma_scan_in_range(chars@, index as int, start as int, end as int, depth as int);
        }
        let ghost before = views(spans@);
        let ghost rest = spans_from(
            chars@,
            found.next as int,
            start as int,
            end as int,
            depth as int,
            level as nat,
        );
        match found.span {
            Some(span) => {
                let ghost inner_spec = content_spans(chars@, span@, depth as int, level as nat);
                spans.push(span);
                assert(views(spans@) =~= before + seq![span@]);
                let last: usize = span.content_end - 1;
                if span.keyword == Keyword::Fence || span.keyword == Keyword::FenceLanguage {
                    let mut inner = parse_quotes_in_code_block(
                        chars,
                        span.content_start,
                        last,
                        depth,
                    );
                    let ghost inner_views = views(inner@);
                    let ghost held = views(spans@);
                    spans.append(&mut inner);
                    assert(views(spans@) =~= held + inner_views);
                } else if level > 0 && (span.keyword == Keyword::Quote || span.keyword
                    == Keyword::Spoiler || span.keyword == Keyword::Bold || span.keyword
                    == Keyword::Italics || span.keyword == Keyword::Strikethrough) {
                    let inner_depth: usize = if span.keyword == Keyword::Quote {
                        depth + 1
                    } else {
                        depth
                    };
                    let mut inner = parse_level(
                        chars,
                        span.content_start,
                        last,
                        inner_depth,
                        level - 1,
                    );
                    let ghost inner_views = views(inner@);
                    let ghost held = views(spans@);
                    spans.append(&mut inner);
                    assert(views(spans@) =~= held + inner_views);
                } else {
                    assert(inner_spec =~= Seq::empty());
                    assert(views(spans@) =~= before + (seq![span@] + inner_spec));
                }
                assert(views(spans@) =~= before + (seq![span@] + inner_spec));
                assert(before + ((seq![span@] + inner_spec) + rest) =~= (before + (seq![span@]
                    + inner_spec)) + rest);
            },
            None => {
                assert(before + (Seq::<SpanView>::empty() + rest) =~= before + rest);
            },
        }
        index = found.next;
    }
    assert(views(spans@) + Seq::<SpanView>::empty() =~= views(spans@));
    spans
}

/// Scans the range from `start` to `end` of `chars`, inside `depth` quotes,
/// and returns the spans in it: each one followed by the spans inside it.
pub fn parse_with_limits(chars: &Vec<char>, start: usize, end: usize, depth: usize) -> (spans: Vec<
    Span,
>)
    ensures
        views(spans@) == spans_of(chars@, start as int, end as int, depth as int),
        nested(views(spans@), start as int, chars.len() as int),
        all_obey_inline_rules(chars@, views(spans@), range_end(chars@, end as int)),
{
    proof {
        lemma_spans_of_nested(chars@, start as int, end as int, depth as int);
        lemma_spans_of_rules(chars@, start as int, end as int, depth as int);
    }
    if chars.len() == 0 {
        let spans: Vec<Span> = Vec::new();
        assert(views(spans@) =~= Seq::empty());
        return spans;
    }
    let last: usize = if end < chars.len() {
        end
    } else {
        chars.len() - 1
    };
    parse_level(chars, start, last, depth, MAX_NESTING)
}

} // verus!
