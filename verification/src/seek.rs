//! Look-ahead and look-behind predicates of the span scanner.
//!
//! Positions are indices into the character sequence; a range is given by
//! its first position `start` and its last position `end`, both inclusive.

use vstd::prelude::*;
use crate::chars::{is_whitespace, whitespace};

verus! {

/// The length of the run of backslashes that ends just before `index`.
pub open spec fn backslashes_before(chars: Seq<char>, index: int) -> nat
    decreases index,
{
    if 0 < index <= chars.len() && chars[index - 1] == '\\' {
        1 + backslashes_before(chars, index - 1)
    } else {
        0
    }
}

/// A character is escaped when an odd number of backslashes precedes it.
/// The first position of a range is never escaped.
pub open spec fn is_escaped(chars: Seq<char>, index: int, start: int) -> bool {
    index != start && backslashes_before(chars, index) % 2 == 1
}

/// Whether an odd number of backslashes precedes the character at `index`.
pub fn follows_odd_backslashes(chars: &Vec<char>, index: usize) -> (r: bool)
    requires
        index <= chars.len(),
    ensures
        r == (backslashes_before(chars@, index as int) % 2 == 1),
{
    let mut count: usize = 0;
    while index > count && chars[index - 1 - count] == '\\'
        invariant
            count <= index <= chars.len(),
            backslashes_before(chars@, index as int) == count + backslashes_before(
                chars@,
                index - count,
            ),
        decreases index - count,
    {
        count += 1;
    }
    count % 2 == 1
}

/// Whether the character at `index` is escaped within the range that
/// begins at `start`.
pub fn preceeded_by_backslash(chars: &Vec<char>, index: usize, start: usize) -> (r: bool)
    requires
        index <= chars.len(),
    ensures
        r == is_escaped(chars@, index as int, start as int),
{
    index != start && follows_odd_backslashes(chars, index)
}

/// A quote of the given depth can begin at `index`: exactly `depth`
/// characters separate it from the beginning of its line.
pub open spec fn begins_quote(chars: Seq<char>, index: int, depth: int) -> bool {
    index >= depth && (index == depth || chars[index - 1 - depth] == '\n')
}

/// Whether a quote of the given depth can begin at `index`.
pub fn is_quote_start(chars: &Vec<char>, index: usize, depth: usize) -> (r: bool)
    requires
        index < chars.len(),
    ensures
        r == begins_quote(chars@, index as int, depth as int),
{
    index >= depth && (index == depth || chars[index - 1 - depth] == '\n')
}

/// The length of the run of quote markers that ends at `index`; the first
/// character of the text is never counted.
pub open spec fn marker_run(chars: Seq<char>, index: int) -> nat
    decreases index,
{
    if 0 < index < chars.len() && chars[index] == '>' {
        1 + marker_run(chars, index - 1)
    } else {
        0
    }
}

pub proof fn lemma_marker_run_bound(chars: Seq<char>, index: int)
    ensures
        marker_run(chars, index) <= index || index < 0,
    decreases index,
{
    if 0 < index < chars.len() && chars[index] == '>' {
        lemma_marker_run_bound(chars, index - 1);
    }
}

/// The marker at `index` continues a quote that is already open: the run of
/// markers ending at it has at most `depth` members and reaches back to the
/// beginning of a line or of the text.
pub open spec fn continues_quote(chars: Seq<char>, index: int, depth: int) -> bool {
    let run = marker_run(chars, index);
    run <= depth && (index - run <= 0 || chars[index - run] == '\n')
}

/// Whether the marker at `index` continues a quote that is already open.
pub fn is_nested_quote(chars: &Vec<char>, index: usize, depth: usize) -> (r: bool)
    requires
        index < chars.len(),
    ensures
        r == continues_quote(chars@, index as int, depth as int),
{
    let mut at: usize = index;
    let mut count: usize = 0;
    while at > 0
        invariant
            at + count == index,
            index < chars.len(),
            count <= depth,
            marker_run(chars@, index as int) == count + marker_run(chars@, at as int),
        decreases at,
    {
        if chars[at] == '\n' {
            return true;
        }
        if chars[at] != '>' {
            return false;
        }
        if count >= depth {
            proof {
                lemma_marker_run_bound(chars@, at as int);
            }
            return false;
        }
        count += 1;
        at -= 1;
    }
    true
}

/// The `repetitions` characters from `index` on lie within the range and
/// all equal `keyword`.
pub open spec fn repeats(
    chars: Seq<char>,
    keyword: char,
    repetitions: int,
    index: int,
    end: int,
) -> bool {
    repetitions <= 0 || (index + repetitions <= end + 1 && forall|j: int|
        index <= j < index + repetitions ==> #[trigger] chars[j] == keyword)
}

/// Whether `keyword` is repeated `repetitions` times from `index` on, not
/// further than `end`.
pub fn is_char_repeating(
    chars: &Vec<char>,
    keyword: char,
    repetitions: usize,
    index: usize,
    end: usize,
) -> (r: bool)
    requires
        end < chars.len(),
    ensures
        r == repeats(chars@, keyword, repetitions as int, index as int, end as int),
{
    if repetitions == 0 {
        return true;
    }
    if index > end || repetitions - 1 > end - index {
        return false;
    }
    let mut k: usize = 0;
    while k < repetitions
        invariant
            k <= repetitions,
            index + repetitions <= end + 1,
            end < chars.len(),
            forall|j: int| index <= j < index + k ==> #[trigger] chars@[j] == keyword,
        decreases repetitions - k,
    {
        if chars[index + k] != keyword {
            return false;
        }
        k += 1;
    }
    true
}

/// A delimiter at `index` may open a span: it stands first in its range or
/// follows white space.
pub open spec fn opens_after_space(chars: Seq<char>, index: int, start: int) -> bool {
    index == start || is_whitespace(chars[index - 1])
}

/// Whether the character at `index` stands first in its range or follows
/// white space.
pub fn preceeded_by_whitespace(chars: &Vec<char>, index: usize, start: usize) -> (r: bool)
    requires
        index <= chars.len(),
        index == start || index > 0,
    ensures
        r == opens_after_space(chars@, index as int, start as int),
{
    index == start || whitespace(chars[index - 1])
}

/// The character at `index` is the last of its range or white space
/// follows it.
pub open spec fn space_follows(chars: Seq<char>, index: int, end: int) -> bool {
    index >= end || is_whitespace(chars[index + 1])
}

/// Whether the character at `index` is the last of its range or is
/// followed by white space.
pub fn followed_by_whitespace(chars: &Vec<char>, index: usize, end: usize) -> (r: bool)
    requires
        end < chars.len(),
    ensures
        r == space_follows(chars@, index as int, end as int),
{
    index >= end || whitespace(chars[index + 1])
}

/// The first position from `from` to `end` at which `p` holds, or `end + 1`
/// where it holds at none of them.
pub open spec fn first_match(p: spec_fn(int) -> bool, from: int, end: int) -> int
    decreases end + 1 - from,
{
    if from > end {
        end + 1
    } else if p(from) {
        from
    } else {
        first_match(p, from + 1, end)
    }
}

/// `first_match` returns the least position of the range at which the
/// predicate holds.
pub proof fn lemma_first_match(p: spec_fn(int) -> bool, from: int, end: int)
    requires
        from <= end + 1,
    ensures
        from <= first_match(p, from, end) <= end + 1,
        first_match(p, from, end) <= end ==> p(first_match(p, from, end)),
        forall|k: int| from <= k < first_match(p, from, end) ==> !#[trigger] p(k),
    decreases end + 1 - from,
{
    if from <= end && !p(from) {
        lemma_first_match(p, from + 1, end);
    }
}

/// The position of the first line break from `start` to `end`, or `end + 1`.
pub open spec fn line_end(chars: Seq<char>, start: int, end: int) -> int {
    first_match(|i: int| chars[i] == '\n', start, end)
}

/// The position of the first line break from `start` to `end`, or `end + 1`
/// where the range holds none.
pub fn seek_end_of_line(chars: &Vec<char>, start: usize, end: usize) -> (r: usize)
    requires
        end < chars.len(),
    ensures
        r == line_end(chars@, start as int, end as int),
{
    let mut i: usize = start;
    while i <= end
        invariant
            end < chars.len(),
            start <= i,
            line_end(chars@, start as int, end as int) == line_end(chars@, i as int, end as int),
        decreases end + 1 - i,
    {
        if chars[i] == '\n' {
            return i;
        }
        i += 1;
    }
    end + 1
}

/// Every character from `from` up to, not including, `to` is a quote marker.
pub open spec fn all_markers(chars: Seq<char>, from: int, to: int) -> bool {
    forall|q: int| from <= q < to ==> #[trigger] chars[q] == '>'
}

/// Whether every character from `from` up to, not including, `to` is a
/// quote marker.
pub fn markers_only(chars: &Vec<char>, from: usize, to: usize) -> (r: bool)
    requires
        to <= chars.len(),
    ensures
        r == all_markers(chars@, from as int, to as int),
{
    let mut q: usize = from;
    while q < to
        invariant
            from <= q,
            to <= chars.len(),
            all_markers(chars@, from as int, q as int),
        decreases to - q,
    {
        if chars[q] != '>' {
            return false;
        }
        q += 1;
    }
    true
}

/// The line that follows the line break at `i` continues a quote of the
/// given depth: it begins with one marker more than `depth`.
pub open spec fn quote_continues(chars: Seq<char>, i: int, depth: int) -> bool {
    i + 2 + depth <= chars.len() && all_markers(chars, i + 1, i + 2 + depth)
}

/// The position at which a quote that holds `from` ends: the first line
/// break up to `end` after which the quote does not continue, or `end + 1`.
pub open spec fn quote_end(chars: Seq<char>, from: int, end: int, depth: int) -> int {
    first_match(|i: int| chars[i] == '\n' && !quote_continues(chars, i, depth), from, end)
}

/// The position at which the quote that begins at `start` ends.
pub fn seek_end_of_quote(chars: &Vec<char>, start: usize, end: usize, depth: usize) -> (r: usize)
    requires
        end < chars.len(),
    ensures
        r == quote_end(chars@, start as int, end as int, depth as int),
{
    let mut i: usize = start;
    while i <= end
        invariant
            end < chars.len(),
            start <= i,
            quote_end(chars@, start as int, end as int, depth as int) == quote_end(
                chars@,
                i as int,
                end as int,
                depth as int,
            ),
        decreases end + 1 - i,
    {
        if chars[i] == '\n' {
            if chars.len() - i < 2 || depth > chars.len() - i - 2 {
                return i;
            }
            if !markers_only(chars, i + 1, i + 2 + depth) {
                return i;
            }
        }
        i += 1;
    }
    end + 1
}

/// The delimiter at `i` may close a span: it follows a character that is
/// not white space, an even number of backslashes precedes it, and it is
/// complete.
pub open spec fn is_closer(
    chars: Seq<char>,
    keyword: char,
    i: int,
    repetitions: int,
    end: int,
) -> bool {
    &&& chars[i] == keyword
    &&& !is_whitespace(chars[i - 1])
    &&& backslashes_before(chars, i) % 2 == 0
    &&& repeats(chars, keyword, repetitions, i + 1, end)
}

/// The delimiter at `j` would open a new span of the same keyword: it
/// follows white space, is complete, and what follows it is not white
/// space.
pub open spec fn is_reopener(
    chars: Seq<char>,
    keyword: char,
    j: int,
    repetitions: int,
    end: int,
) -> bool {
    &&& chars[j] == keyword
    &&& is_whitespace(chars[j - 1])
    &&& repeats(chars, keyword, repetitions, j + 1, end)
    &&& !space_follows(chars, j + repetitions, end)
}

/// The delimiter at `j` closes a span by the rule: it may close one, and
/// behind its last character white space follows or the range ends.
pub open spec fn is_final_closer(
    chars: Seq<char>,
    keyword: char,
    j: int,
    repetitions: int,
    end: int,
) -> bool {
    &&& is_closer(chars, keyword, j, repetitions, end)
    &&& space_follows(chars, j + repetitions, end)
}

/// The first position from `from` on that ends the search for a later
/// closing delimiter: a line break, a delimiter that opens a new span, or a
/// delimiter that closes one by the rule.
pub open spec fn later_stop(
    chars: Seq<char>,
    keyword: char,
    from: int,
    repetitions: int,
    end: int,
) -> int {
    first_match(
        |j: int|
            chars[j] == '\n' || is_reopener(chars, keyword, j, repetitions, end) || is_final_closer(
                chars,
                keyword,
                j,
                repetitions,
                end,
            ),
        from,
        end,
    )
}

/// The closing delimiter that is to be preferred to a candidate found just
/// before `start`: the first one on the same line that closes by the rule,
/// unless a new span of the keyword opens first.
pub open spec fn later_closing(
    chars: Seq<char>,
    keyword: char,
    start: int,
    repetitions: int,
    end: int,
) -> Option<int> {
    let j = later_stop(chars, keyword, start, repetitions, end);
    if j <= end && chars[j] != '\n' && !is_reopener(chars, keyword, j, repetitions, end) {
        Some(j)
    } else {
        None
    }
}

/// What holds of a later closing delimiter: it lies in the range and closes
/// by the rule, and between `start` and it stands neither a line break nor
/// a delimiter that opens a new span of the keyword.
pub proof fn lemma_later_closing_rules(
    chars: Seq<char>,
    keyword: char,
    start: int,
    repetitions: int,
    end: int,
)
    requires
        0 <= repetitions,
    ensures
        later_closing(chars, keyword, start, repetitions, end) matches Some(j) ==> {
            &&& start <= j
            &&& j + repetitions <= end
            &&& is_final_closer(chars, keyword, j, repetitions, end)
            &&& forall|k: int| start <= k <= j ==> #[trigger] chars[k] != '\n'
            &&& forall|k: int|
                start <= k < j ==> !#[trigger] is_reopener(chars, keyword, k, repetitions, end)
        },
{
    let q = |j: int|
        chars[j] == '\n' || is_reopener(chars, keyword, j, repetitions, end) || is_final_closer(
            chars,
            keyword,
            j,
            repetitions,
            end,
        );
    if start <= end + 1 {
        lemma_first_match(q, start, end);
    }
    let j = later_stop(chars, keyword, start, repetitions, end);
    if j <= end && chars[j] != '\n' && !is_reopener(chars, keyword, j, repetitions, end) {
        assert(q(j));
        assert forall|k: int| start <= k < j implies chars[k] != '\n' && !is_reopener(
            chars,
            keyword,
            k,
            repetitions,
            end,
        ) by {
            assert(!q(k));
        }
    }
}

/// Searches the rest of the line from `start` on for a closing delimiter
/// that is followed by white space or ends the range.
pub fn seek_higher_order_end(
    chars: &Vec<char>,
    keyword: char,
    start: usize,
    repetitions: usize,
    end: usize,
) -> (r: Option<usize>)
    requires
        0 < start,
        end < chars.len(),
    ensures
        r.is_some() == later_closing(
            chars@,
            keyword,
            start as int,
            repetitions as int,
            end as int,
        ).is_some(),
        r.is_some() ==> r.unwrap() as int == later_closing(
            chars@,
            keyword,
            start as int,
            repetitions as int,
            end as int,
        ).unwrap(),
        r matches Some(j) ==> {
            &&& start <= j
            &&& j + repetitions <= end
            &&& is_final_closer(chars@, keyword, j as int, repetitions as int, end as int)
            &&& forall|k: int| start <= k <= j ==> #[trigger] chars@[k] != '\n'
            &&& forall|k: int|
                start <= k < j ==> !#[trigger] is_reopener(
                    chars@,
                    keyword,
                    k,
                    repetitions as int,
                    end as int,
                )
        },
{
    let mut j: usize = start;
    while j <= end
        invariant
            0 < start <= j,
            end < chars.len(),
            later_stop(chars@, keyword, start as int, repetitions as int, end as int)
                == later_stop(chars@, keyword, j as int, repetitions as int, end as int),
        decreases end + 1 - j,
    {
        let c = chars[j];
        if c == '\n' {
            return None;
        }
        if c == keyword && is_char_repeating(chars, keyword, repetitions, j + 1, end) {
            let after_space = whitespace(chars[j - 1]);
            let before_space = followed_by_whitespace(chars, j + repetitions, end);
            if after_space && !before_space {
                return None;
            }
            if !after_space && before_space && !follows_odd_backslashes(chars, j) {
                proof {
                    lemma_later_closing_rules(
                        chars@,
                        keyword,
                        start as int,
                        repetitions as int,
                        end as int,
                    );
                }
                return Some(j);
            }
        }
        j += 1;
    }
    None
}

/// The first position from `from` on that ends the search for a first
/// closing delimiter: a line break or a delimiter that may close the span.
pub open spec fn closer_stop(
    chars: Seq<char>,
    keyword: char,
    from: int,
    repetitions: int,
    end: int,
) -> int {
    first_match(
        |i: int| chars[i] == '\n' || is_closer(chars, keyword, i, repetitions, end),
        from,
        end,
    )
}

/// The position of the delimiter that closes a span whose content begins at
/// `start`. The first delimiter on the line that may close the span is the
/// candidate. A later delimiter that closes by the rule is preferred to it,
/// if no new span of the keyword opens before that one; else the candidate
/// closes the span if it closes by the rule. `None` where the line holds no
/// such delimiter: every position that is returned follows a character
/// that is not white space, is not escaped, and is followed behind its last
/// character by white space or by the end of the range.
pub open spec fn closing(
    chars: Seq<char>,
    keyword: char,
    start: int,
    repetitions: int,
    end: int,
) -> Option<int> {
    let i = closer_stop(chars, keyword, start, repetitions, end);
    if i > end || chars[i] == '\n' {
        None
    } else {
        match later_closing(chars, keyword, i + 1, repetitions, end) {
            Some(j) => Some(j),
            None => if space_follows(chars, i + repetitions, end) {
                Some(i)
            } else {
                None
            },
        }
    }
}

/// What holds of the closing delimiter of a span whose content begins at
/// `start`: it follows the content on the same line, white space does not
/// precede it, an even number of backslashes does, it is complete, and
/// behind its last character white space follows or the range ends.
pub proof fn lemma_closing_rules(
    chars: Seq<char>,
    keyword: char,
    start: int,
    repetitions: int,
    end: int,
)
    requires
        0 <= repetitions,
    ensures
        closing(chars, keyword, start, repetitions, end) matches Some(to) ==> {
            &&& start <= to
            &&& to + repetitions <= end
            &&& chars[to] == keyword
            &&& repeats(chars, keyword, repetitions, to + 1, end)
            &&& !is_whitespace(chars[to - 1])
            &&& backslashes_before(chars, to) % 2 == 0
            &&& to + repetitions == end || is_whitespace(chars[to + repetitions + 1])
            &&& forall|k: int| start <= k <= to ==> #[trigger] chars[k] != '\n'
        },
{
    let p = |i: int| chars[i] == '\n' || is_closer(chars, keyword, i, repetitions, end);
    if start <= end + 1 {
        lemma_first_match(p, start, end);
    }
    let i = closer_stop(chars, keyword, start, repetitions, end);
    if i <= end && chars[i] != '\n' {
        assert forall|k: int| start <= k <= i implies #[trigger] chars[k] != '\n' by {
            if k < i {
                assert(!p(k));
            }
        }
        lemma_later_closing_rules(chars, keyword, i + 1, repetitions, end);
    }
}

/// Searches the line from `start` on for the delimiter that closes a span
/// whose content begins at `start`. A position that is returned follows a
/// character that is not white space, is not escaped, and is followed
/// behind its last character by white space or by the end of the range.
pub fn seek_end(chars: &Vec<char>, keyword: char, start: usize, repetitions: usize, end: usize) -> (r:
    Option<usize>)
    requires
        0 < start,
        end < chars.len(),
    ensures
        r.is_some() == closing(
            chars@,
            keyword,
            start as int,
            repetitions as int,
            end as int,
        ).is_some(),
        r.is_some() ==> r.unwrap() as int == closing(
            chars@,
            keyword,
            start as int,
            repetitions as int,
            end as int,
        ).unwrap(),
        r matches Some(i) ==> {
            &&& start <= i
            &&& i + repetitions <= end
            &&& chars@[i as int] == keyword
            &&& repeats(chars@, keyword, repetitions as int, i + 1, end as int)
            &&& !is_whitespace(chars@[i - 1])
            &&& backslashes_before(chars@, i as int) % 2 == 0
            &&& i + repetitions == end || is_whitespace(chars@[i + repetitions + 1])
            &&& forall|k: int| start <= k <= i ==> #[trigger] chars@[k] != '\n'
        },
{
    let mut i: usize = start;
    while i <= end
        invariant
            0 < start <= i,
            end < chars.len(),
            closer_stop(chars@, keyword, start as int, repetitions as int, end as int)
                == closer_stop(chars@, keyword, i as int, repetitions as int, end as int),
        decreases end + 1 - i,
    {
        let c = chars[i];
        if c == '\n' {
            return None;
        }
        if c == keyword && !whitespace(chars[i - 1]) && !follows_odd_backslashes(chars, i)
            && is_char_repeating(chars, keyword, repetitions, i + 1, end) {
            proof {
                lemma_closing_rules(chars@, keyword, start as int, repetitions as int, end as int);
            }
            return match seek_higher_order_end(chars, keyword, i + 1, repetitions, end) {
                Some(j) => Some(j),
                None => if followed_by_whitespace(chars, i + repetitions, end) {
                    Some(i)
                } else {
                    None
                },
            };
        }
        i += 1;
    }
    None
}

/// The line that follows the line break at `i` is a closing fence: the
/// markers of the enclosing quotes, then the fence, then nothing more.
pub open spec fn is_closing_fence(
    chars: Seq<char>,
    keyword: char,
    i: int,
    end: int,
    depth: int,
) -> bool {
    &&& line_end(chars, i + 1, end) == i + depth + 4
    &&& all_markers(chars, i + 1, i + 1 + depth)
    &&& chars[i + 1 + depth] == keyword
    &&& chars[i + 2 + depth] == keyword
    &&& chars[i + 3 + depth] == keyword
}

/// A code block that is open at the line break at `i` ends there: either a
/// closing fence follows, or what is left of the range is too short to hold
/// the markers of the enclosing quotes and one more character. A last line
/// that holds those markers and nothing else belongs to the block.
pub open spec fn fence_closes_at(
    chars: Seq<char>,
    keyword: char,
    i: int,
    end: int,
    depth: int,
) -> bool {
    &&& chars[i] == '\n'
    &&& !(i + depth == end && all_markers(chars, i + 1, i + 1 + depth))
    &&& (i + 1 + depth > end || is_closing_fence(chars, keyword, i, end, depth))
}

/// The position at which the content of an open code block ends: the
/// first line break from `from` to `end` before a closing fence or before a
/// remainder too short to continue the block, or `end + 1`. A block that
/// nothing closes runs to the end of the range.
pub open spec fn block_end(chars: Seq<char>, keyword: char, from: int, end: int, depth: int) -> int {
    first_match(|i: int| fence_closes_at(chars, keyword, i, end, depth), from, end)
}

/// Searches from `start` on for the position at which the content of a code
/// block ends.
pub fn seek_end_block(chars: &Vec<char>, keyword: char, start: usize, end: usize, depth: usize) -> (r:
    usize)
    requires
        end < chars.len(),
    ensures
        r as int == block_end(chars@, keyword, start as int, end as int, depth as int),
{
    let mut i: usize = start;
    while i <= end
        invariant
            end < chars.len(),
            start <= i,
            block_end(chars@, keyword, start as int, end as int, depth as int) == block_end(
                chars@,
                keyword,
                i as int,
                end as int,
                depth as int,
            ),
        decreases end + 1 - i,
    {
        if chars[i] == '\n' {
            let left: usize = end - i;
            if depth == left && markers_only(chars, i + 1, end + 1) {
                // a last line of markers only
            } else if depth >= left {
                return i;
            } else {
                let eol = seek_end_of_line(chars, i + 1, end);
                proof {
                    lemma_first_match(|k: int| chars@[k] == '\n', i + 1, end as int);
                }
                if eol - i >= 4 && eol - i - 4 == depth && markers_only(chars, i + 1, i + 1 + depth)
                    && chars[i + 1 + depth] == keyword && chars[i + 2 + depth] == keyword && chars[i
                    + 3 + depth] == keyword {
                    return i;
                }
            }
        }
        i += 1;
    }
    end + 1
}

} // verus!
