//! Character classes used by the span scanner.

use vstd::prelude::*;

verus! {

/// The code points that carry the Unicode `White_Space` property.
pub open spec fn is_whitespace(c: char) -> bool {
    let n = c as u32;
    ||| 0x09 <= n <= 0x0d
    ||| n == 0x20
    ||| n == 0x85
    ||| n == 0xa0
    ||| n == 0x1680
    ||| 0x2000 <= n <= 0x200a
    ||| n == 0x2028
    ||| n == 0x2029
    ||| n == 0x202f
    ||| n == 0x205f
    ||| n == 0x3000
}

/// Whether `c` is a white space character.
pub fn whitespace(c: char) -> (r: bool)
    ensures
        r == is_whitespace(c),
{
    let n: u32 = c as u32;
    (0x09 <= n && n <= 0x0d) || n == 0x20 || n == 0x85 || n == 0xa0 || n == 0x1680 || (0x2000 <= n
        && n <= 0x200a) || n == 0x2028 || n == 0x2029 || n == 0x202f || n == 0x205f || n == 0x3000
}

/// The single characters that delimit an inline style.
pub open spec fn is_inline_delimiter(c: char) -> bool {
    c == '*' || c == '_' || c == '~' || c == '`'
}

/// Whether `c` delimits an inline style.
pub fn inline_delimiter(c: char) -> (r: bool)
    ensures
        r == is_inline_delimiter(c),
{
    c == '*' || c == '_' || c == '~' || c == '`'
}

/// The characters that can take part in markup: the inline delimiters, the
/// spoiler bar and the quote marker.
pub open spec fn is_markup_char(c: char) -> bool {
    is_inline_delimiter(c) || c == '|' || c == '>'
}

/// No character of `chars` can take part in markup.
pub open spec fn markup_free(chars: Seq<char>) -> bool {
    forall|i: int| 0 <= i < chars.len() ==> !is_markup_char(#[trigger] chars[i])
}

/// The number of UTF-16 code units that encode `c`.
pub open spec fn utf16_width(c: char) -> nat {
    if c as u32 >= 0x10000 {
        2
    } else {
        1
    }
}

/// The number of UTF-16 code units that encode `c`.
pub fn char_utf16_width(c: char) -> (w: usize)
    ensures
        w == utf16_width(c),
{
    if c as u32 >= 0x10000 {
        2
    } else {
        1
    }
}

} // verus!
