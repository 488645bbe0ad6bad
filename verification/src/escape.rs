//! The escape normaliser: the last pass over a rendered text, which takes
//! the escaping backslashes out of it.

use vstd::prelude::*;
use crate::text::{chars_of, string_of};

verus! {

/// The text without its escaping backslashes. Read from the left, two
/// backslashes in a row stand for one, and a backslash before anything else
/// stands for nothing.
pub open spec fn unescaped(s: Seq<char>) -> Seq<char>
    decreases s.len(),
{
    if s.len() == 0 {
        s
    } else if s[0] != '\\' {
        seq![s[0]] + unescaped(s.skip(1))
    } else if s.len() >= 2 && s[1] == '\\' {
        seq!['\\'] + unescaped(s.skip(2))
    } else {
        unescaped(s.skip(1))
    }
}

/// A run of `n` backslashes.
pub open spec fn backslashes(n: nat) -> Seq<char> {
    Seq::new(n, |i: int| '\\')
}

/// A text without backslashes is left as it is.
pub proof fn lemma_unescaped_plain(s: Seq<char>)
    requires
        forall|i: int| 0 <= i < s.len() ==> s[i] != '\\',
    ensures
        unescaped(s) == s,
    decreases s.len(),
{
    if s.len() > 0 {
        lemma_unescaped_plain(s.skip(1));
        assert(seq![s[0]] + s.skip(1) =~= s);
    }
}

/// A run of backslashes that ends the text or stands before another
/// character is halved: each pair in it leaves one backslash, and the odd
/// one that is left over leaves none.
pub proof fn lemma_unescaped_run(n: nat, rest: Seq<char>)
    requires
        rest.len() == 0 || rest[0] != '\\',
    ensures
        unescaped(backslashes(n) + rest) == backslashes(n / 2) + unescaped(rest),
    decreases n,
{
    let s = backslashes(n) + rest;
    if n == 0 {
        assert(s =~= rest);
        assert(backslashes(0) + unescaped(rest) =~= unescaped(rest));
    } else if n == 1 {
        assert(s.skip(1) =~= rest);
        assert(backslashes(0) + unescaped(rest) =~= unescaped(rest));
    } else {
        let m = (n - 2) as nat;
        assert(s.skip(2) =~= backslashes(m) + rest);
        lemma_unescaped_run(m, rest);
        assert(seq!['\\'] + (backslashes(m / 2) + unescaped(rest)) =~= backslashes(n / 2)
            + unescaped(rest));
    }
}

/// Takes the escaping backslashes out of `chars`.
pub fn unescape(chars: &Vec<char>) -> (out: Vec<char>)
    ensures
        out@ == unescaped(chars@),
{
    let mut out: Vec<char> = Vec::new();
    let mut i: usize = 0;
    assert(chars@.skip(0) =~= chars@);
    assert(out@ + unescaped(chars@) =~= unescaped(chars@));
    while i < chars.len()
        invariant
            i <= chars.len(),
            out@ + unescaped(chars@.skip(i as int)) == unescaped(chars@),
        decreases chars.len() - i,
    {
        let ghost tail = chars@.skip(i as int);
        let ghost before = out@;
        let c = chars[i];
        if c != '\\' {
            out.push(c);
            assert(tail.skip(1) =~= chars@.skip(i + 1));
            assert(before + (seq![c] + unescaped(tail.skip(1))) =~= before.push(c) + unescaped(
                tail.skip(1),
            ));
            i += 1;
        } else if i + 1 < chars.len() && chars[i + 1] == '\\' {
            out.push('\\');
            assert(tail.skip(2) =~= chars@.skip(i + 2));
            assert(before + (seq!['\\'] + unescaped(tail.skip(2))) =~= before.push('\\')
                + unescaped(tail.skip(2)));
            i += 2;
        } else {
            assert(tail.skip(1) =~= chars@.skip(i + 1));
            i += 1;
        }
    }
    assert(out@ + Seq::<char>::empty() =~= out@);
    out
}

/// Takes the escaping backslashes out of `text`: of every run of
/// backslashes half remain, rounded down.
pub fn remove_non_escaped_backslashes(text: String) -> (out: String)
    ensures
        out@ == unescaped(text@),
{
    let chars = chars_of(text.as_str());
    let out = unescape(&chars);
    string_of(&out)
}

} // verus!
