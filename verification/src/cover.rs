//! The positions of a text that the delimiters of chosen spans occupy.

use vstd::prelude::*;
use crate::span::{views, Span, SpanView};

verus! {

/// The span at `i` is chosen and one of its delimiters holds position `p`.
pub open spec fn hits(spans: Seq<SpanView>, flags: Seq<bool>, i: int, p: int) -> bool {
    flags[i] && spans[i].covers(p)
}

/// A delimiter of one of the first `k` spans, as far as they are chosen,
/// holds position `p`.
pub open spec fn covered_upto(spans: Seq<SpanView>, flags: Seq<bool>, k: int, p: int) -> bool {
    exists|i: int| 0 <= i < k && #[trigger] hits(spans, flags, i, p)
}

/// A delimiter of a chosen span holds position `p`; `flags` says for each
/// span whether it is chosen.
pub open spec fn covered(spans: Seq<SpanView>, flags: Seq<bool>, p: int) -> bool {
    covered_upto(spans, flags, spans.len() as int, p)
}

/// For each position of a text of `len` characters, whether a delimiter of
/// a chosen span holds it.
pub open spec fn cover(spans: Seq<SpanView>, flags: Seq<bool>, len: nat) -> Seq<bool> {
    Seq::new(len, |p: int| covered(spans, flags, p))
}

/// Every span lies within a text of `len` characters.
pub open spec fn all_within(spans: Seq<SpanView>, len: int) -> bool {
    forall|i: int| 0 <= i < spans.len() ==> (#[trigger] spans[i]).within(0, len)
}

/// Sets the entries from `from` up to, not including, `to`.
pub fn mark(mask: &mut Vec<bool>, from: usize, to: usize)
    requires
        to <= old(mask).len(),
    ensures
        final(mask).len() == old(mask).len(),
        forall|p: int|
            0 <= p < old(mask).len() ==> #[trigger] final(mask)@[p] == (old(mask)@[p] || from <= p
                < to),
{
    let mut q: usize = from;
    while q < to
        invariant
            from <= q,
            q <= to || q == from,
            to <= mask.len(),
            mask.len() == old(mask).len(),
            forall|p: int|
                0 <= p < mask.len() ==> #[trigger] mask@[p] == (old(mask)@[p] || from <= p < q),
        decreases to - q,
    {
        mask[q] = true;
        q += 1;
    }
}

/// Computes for each position of a text of `len` characters whether a
/// delimiter of a chosen span holds it.
pub fn delimiter_mask(len: usize, spans: &Vec<Span>, flags: &Vec<bool>) -> (mask: Vec<bool>)
    requires
        flags.len() == spans.len(),
        all_within(views(spans@), len as int),
    ensures
        mask@ == cover(views(spans@), flags@, len as nat),
{
    let mut mask: Vec<bool> = Vec::new();
    let mut n: usize = 0;
    while n < len
        invariant
            n <= len,
            mask.len() == n,
            forall|p: int| 0 <= p < n ==> !#[trigger] mask@[p],
        decreases len - n,
    {
        mask.push(false);
        n += 1;
    }
    let ghost model = views(spans@);
    let mut k: usize = 0;
    while k < spans.len()
        invariant
            k <= spans.len(),
            flags.len() == spans.len(),
            model == views(spans@),
            all_within(model, len as int),
            mask.len() == len,
            forall|p: int|
                0 <= p < len ==> #[trigger] mask@[p] == covered_upto(model, flags@, k as int, p),
        decreases spans.len() - k,
    {
        let ghost before = mask@;
        let span = spans[k];
        assert(model[k as int] == span@);
        assert(model[k as int].within(0, len as int));
        if flags[k] {
            mark(&mut mask, span.start, span.content_start);
            mark(&mut mask, span.content_end, span.delimiter_end);
        }
        assert forall|p: int| 0 <= p < len implies #[trigger] mask@[p] == covered_upto(
            model,
            flags@,
            k + 1,
            p,
        ) by {
            assert(mask@[p] == (before[p] || hits(model, flags@, k as int, p)));
            if covered_upto(model, flags@, k + 1, p) {
                let i = choose|i: int| 0 <= i < k + 1 && #[trigger] hits(model, flags@, i, p);
                if i < k {
                    assert(covered_upto(model, flags@, k as int, p));
                }
            }
            if before[p] {
                let i = choose|i: int| 0 <= i < k && #[trigger] hits(model, flags@, i, p);
                assert(hits(model, flags@, i, p));
            }
        }
        k += 1;
    }
    assert(mask@ =~= cover(views(spans@), flags@, len as nat));
    mask
}

} // verus!
