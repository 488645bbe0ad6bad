//! Style spans: the regions of markup that the scanner recognises.

use vstd::prelude::*;

verus! {

/// The kind of markup that a span stands for.
#[derive(Clone, Copy, Debug, PartialEq, Eq, Structural)]
pub enum Keyword {
    /// `*bold*`
    Bold,
    /// `_italics_`
    Italics,
    /// `~strikethrough~`
    Strikethrough,
    /// `||spoiler||`
    Spoiler,
    /// `` `code` ``
    Code,
    /// A fenced code block without a language.
    Fence,
    /// A fenced code block whose opening line names a language.
    FenceLanguage,
    /// A block quote.
    Quote,
    /// The marker that continues an open quote on a further line.
    NestedQuote,
    /// The marker that continues an open quote inside a code block.
    FenceQuote,
}

impl Keyword {
    /// The string by which a tag table names the keyword.
    pub open spec fn text(self) -> Seq<char> {
        match self {
            Keyword::Bold => "*"@,
            Keyword::Italics => "_"@,
            Keyword::Strikethrough => "~"@,
            Keyword::Spoiler => "||"@,
            Keyword::Code => "`"@,
            Keyword::Fence => "```"@,
            Keyword::FenceLanguage => "```language"@,
            Keyword::Quote => ">"@,
            Keyword::NestedQuote => ">>"@,
            Keyword::FenceQuote => "```>"@,
        }
    }

    /// The string by which a tag table names the keyword.
    pub fn as_str(self) -> (r: &'static str)
        ensures
            r@ == self.text(),
    {
        match self {
            Keyword::Bold => "*",
            Keyword::Italics => "_",
            Keyword::Strikethrough => "~",
            Keyword::Spoiler => "||",
            Keyword::Code => "`",
            Keyword::Fence => "```",
            Keyword::FenceLanguage => "```language",
            Keyword::Quote => ">",
            Keyword::NestedQuote => ">>",
            Keyword::FenceQuote => "```>",
        }
    }

    /// A marker that stands for one character to remove, not for a region.
    pub open spec fn is_marker(self) -> bool {
        self == Keyword::NestedQuote || self == Keyword::FenceQuote
    }

    /// A fenced code block, with or without a language.
    pub open spec fn is_fence(self) -> bool {
        self == Keyword::Fence || self == Keyword::FenceLanguage
    }

    /// The content of such a span is scanned for further spans.
    pub open spec fn has_styled_content(self) -> bool {
        self == Keyword::Bold || self == Keyword::Italics || self == Keyword::Strikethrough
            || self == Keyword::Spoiler || self == Keyword::Quote
    }
}

/// The keyword of the inline style that `c` delimits.
pub open spec fn inline_keyword(c: char) -> Keyword {
    if c == '*' {
        Keyword::Bold
    } else if c == '_' {
        Keyword::Italics
    } else if c == '~' {
        Keyword::Strikethrough
    } else {
        Keyword::Code
    }
}

/// A recognised region of markup. The opening delimiter lies from `start`
/// up to `content_start`, the closing delimiter from `content_end` up to
/// `delimiter_end`; each range excludes its upper bound.
#[derive(Clone, Copy, Debug, PartialEq, Eq, Structural)]
pub struct Span {
    pub keyword: Keyword,
    pub start: usize,
    pub content_start: usize,
    pub content_end: usize,
    pub delimiter_end: usize,
}

/// The mathematical model of a `Span`.
pub struct SpanView {
    pub keyword: Keyword,
    pub start: int,
    pub content_start: int,
    pub content_end: int,
    pub delimiter_end: int,
}

impl View for Span {
    type V = SpanView;

    open spec fn view(&self) -> SpanView {
        SpanView {
            keyword: self.keyword,
            start: self.start as int,
            content_start: self.content_start as int,
            content_end: self.content_end as int,
            delimiter_end: self.delimiter_end as int,
        }
    }
}

impl SpanView {
    /// The span lies from `low` up to, not including, `high`.
    pub open spec fn within(self, low: int, high: int) -> bool {
        low <= self.start < self.content_start <= self.content_end <= self.delimiter_end
            <= high
    }

    /// `other` lies inside the content of the span.
    pub open spec fn encloses(self, other: SpanView) -> bool {
        self.content_start <= other.start && other.delimiter_end <= self.content_end
    }

    /// The span ends before `other` begins.
    pub open spec fn precedes(self, other: SpanView) -> bool {
        self.delimiter_end <= other.start
    }

    /// The position lies in the opening or in the closing delimiter.
    pub open spec fn covers(self, p: int) -> bool {
        self.start <= p < self.content_start || self.content_end <= p < self.delimiter_end
    }
}

/// The models of a sequence of spans.
pub open spec fn views(spans: Seq<Span>) -> Seq<SpanView> {
    Seq::new(spans.len(), |i: int| spans[i]@)
}

/// The one-character marker of the given keyword at `index`.
pub open spec fn marker_at(keyword: Keyword, index: int) -> SpanView {
    SpanView {
        keyword,
        start: index,
        content_start: index + 1,
        content_end: index + 1,
        delimiter_end: index + 1,
    }
}

/// The language that the opening line of a code block names: what stands
/// between the fence and the end of the line.
pub open spec fn language(text: Seq<char>, span: SpanView) -> Seq<char> {
    if span.keyword == Keyword::FenceLanguage && 0 <= span.start + 3 <= span.content_start - 1
        <= text.len() {
        text.subrange(span.start + 3, span.content_start - 1)
    } else {
        Seq::empty()
    }
}

/// The language that the opening line of a code block names.
pub fn language_of(chars: &Vec<char>, span: Span) -> (r: String)
    ensures
        r@ == language(chars@, span@),
{
    let mut name = String::new();
    if span.keyword == Keyword::FenceLanguage && span.content_start >= 1 && span.start
        <= span.content_start - 1 && span.content_start - 1 - span.start >= 3
        && span.content_start - 1 <= chars.len() {
        let from: usize = span.start + 3;
        let to: usize = span.content_start - 1;
        let mut i: usize = from;
        while i < to
            invariant
                from <= i <= to <= chars.len(),
                name@ == chars@.subrange(from as int, i as int),
            decreases to - i,
        {
            name.push(chars[i]);
            assert(chars@.subrange(from as int, i + 1) =~= chars@.subrange(
                from as int,
                i as int,
            ).push(chars@[i as int]));
            i += 1;
        }
    }
    name
}

} // verus!
