//! Lengths in UTF-16 code units.

use vstd::prelude::*;
use vstd::utf8::{encode_scalar, encode_utf8};
use crate::chars::{char_utf16_width, utf16_width};
use crate::text::chars_of;

verus! {

/// The number of UTF-16 code units that encode `s`.
pub open spec fn utf16_len(s: Seq<char>) -> nat
    decreases s.len(),
{
    if s.len() == 0 {
        0
    } else {
        utf16_len(s.drop_last()) + utf16_width(s.last())
    }
}

/// The length of a text is the sum of the lengths of its parts.
pub proof fn lemma_utf16_len_concat(a: Seq<char>, b: Seq<char>)
    ensures
        utf16_len(a + b) == utf16_len(a) + utf16_len(b),
    decreases b.len(),
{
    if b.len() == 0 {
        assert(a + b =~= a);
    } else {
        assert((a + b).drop_last() =~= a + b.drop_last());
        lemma_utf16_len_concat(a, b.drop_last());
    }
}

/// A prefix is not longer than the text.
pub proof fn lemma_utf16_len_prefix(s: Seq<char>, n: int)
    requires
        0 <= n <= s.len(),
    ensures
        utf16_len(s.take(n)) <= utf16_len(s),
{
    assert(s.take(n) + s.skip(n) =~= s);
    lemma_utf16_len_concat(s.take(n), s.skip(n));
}

/// A text takes no more UTF-16 code units than UTF-8 bytes.
pub proof fn lemma_utf16_len_le_utf8(s: Seq<char>)
    ensures
        utf16_len(s) <= encode_utf8(s).len(),
    decreases s.len(),
{
    if s.len() > 0 {
        let first = seq![s[0]];
        assert(first + s.drop_first() =~= s);
        lemma_utf16_len_concat(first, s.drop_first());
        lemma_utf16_len_le_utf8(s.drop_first());
        assert(first.drop_last() =~= Seq::<char>::empty());
        assert(utf16_len(Seq::<char>::empty()) == 0);
        assert(utf16_len(first) == utf16_width(s[0]));
        assert(encode_utf8(s) == encode_scalar(s[0] as u32) + encode_utf8(s.drop_first()));
    }
}

/// The running UTF-16 length of `utf8_str` at each of its character
/// boundaries: the entry at `i` is the length of the first `i` characters.
pub fn utf8_to_utf16_length(utf8_str: &str) -> (lengths: Vec<usize>)
    ensures
        lengths.len() == utf8_str@.len() + 1,
        forall|i: int|
            0 <= i <= utf8_str@.len() ==> #[trigger] lengths@[i] as int == utf16_len(
                utf8_str@.take(i),
            ),
{
    let limit: usize = utf8_str.as_bytes().len();
    let chars = chars_of(utf8_str);
    proof {
        lemma_utf16_len_le_utf8(chars@);
    }
    let mut lengths: Vec<usize> = Vec::new();
    let mut length: usize = 0;
    lengths.push(length);
    assert(chars@.take(0) =~= Seq::<char>::empty());
    let mut i: usize = 0;
    while i < chars.len()
        invariant
            i <= chars.len(),
            chars@ == utf8_str@,
            utf16_len(chars@) <= limit,
            lengths.len() == i + 1,
            length as int == utf16_len(chars@.take(i as int)),
            forall|k: int| 0 <= k <= i ==> #[trigger] lengths@[k] as int == utf16_len(chars@.take(k)),
        decreases chars.len() - i,
    {
        proof {
            assert(chars@.take(i + 1).drop_last() =~= chars@.take(i as int));
            lemma_utf16_len_prefix(chars@, i + 1);
        }
        length = length + char_utf16_width(chars[i]);
        lengths.push(length);
        i += 1;
    }
    lengths
}

} // verus!
