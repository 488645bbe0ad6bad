//! The tag table: for each keyword the strings that replace its opening and
//! its closing delimiter.

use vstd::prelude::*;
use crate::text::chars_of;

verus! {

/// One entry of a tag table.
pub struct TagEntry {
    pub keyword: Vec<char>,
    pub open: Vec<char>,
    pub close: Vec<char>,
}

/// The replacement strings of the keyword in the entries, the last entry
/// for a keyword counting.
pub open spec fn lookup(entries: Seq<TagEntry>, keyword: Seq<char>) -> Option<
    (Seq<char>, Seq<char>),
>
    decreases entries.len(),
{
    if entries.len() == 0 {
        None
    } else if entries.last().keyword@ == keyword {
        Some((entries.last().open@, entries.last().close@))
    } else {
        lookup(entries.drop_last(), keyword)
    }
}

/// Whether the two sequences hold the same characters.
pub fn same_chars(a: &Vec<char>, b: &Vec<char>) -> (r: bool)
    ensures
        r == (a@ == b@),
{
    if a.len() != b.len() {
        return false;
    }
    let mut i: usize = 0;
    while i < a.len()
        invariant
            i <= a.len(),
            a.len() == b.len(),
            forall|k: int| 0 <= k < i ==> a@[k] == b@[k],
        decreases a.len() - i,
    {
        if a[i] != b[i] {
            return false;
        }
        i += 1;
    }
    assert(a@ =~= b@);
    true
}

/// A mapping from keywords to pairs of replacement strings.
pub struct TagTable {
    pub entries: Vec<TagEntry>,
}

impl View for TagTable {
    type V = Map<Seq<char>, (Seq<char>, Seq<char>)>;

    open spec fn view(&self) -> Map<Seq<char>, (Seq<char>, Seq<char>)> {
        Map::new(
            |k: Seq<char>| lookup(self.entries@, k).is_some(),
            |k: Seq<char>| lookup(self.entries@, k).unwrap(),
        )
    }
}

impl TagTable {
    /// The table without entries.
    pub fn new() -> (table: TagTable)
        ensures
            table@ == Map::<Seq<char>, (Seq<char>, Seq<char>)>::empty(),
    {
        let table = TagTable { entries: Vec::new() };
        assert(table@ =~= Map::<Seq<char>, (Seq<char>, Seq<char>)>::empty());
        table
    }

    /// Maps `keyword` to the pair of `open` and `close`, in place of what it
    /// was mapped to before.
    pub fn insert(&mut self, keyword: &str, open: &str, close: &str)
        ensures
            final(self)@ == old(self)@.insert(keyword@, (open@, close@)),
    {
        let entry = TagEntry {
            keyword: chars_of(keyword),
            open: chars_of(open),
            close: chars_of(close),
        };
        let ghost before = self.entries@;
        self.entries.push(entry);
        assert(self.entries@.drop_last() =~= before);
        assert(self@ =~= old(self)@.insert(keyword@, (open@, close@)));
    }

    /// The entry of `keyword`, if the table has one.
    pub fn get(&self, keyword: &Vec<char>) -> (r: Option<&TagEntry>)
        ensures
            match r {
                Some(entry) => self@.contains_key(keyword@) && self@[keyword@] == (
                    entry.open@,
                    entry.close@,
                ),
                None => !self@.contains_key(keyword@),
            },
    {
        let mut i: usize = self.entries.len();
        assert(self.entries@.take(i as int) =~= self.entries@);
        while i > 0
            invariant
                i <= self.entries.len(),
                lookup(self.entries@, keyword@) == lookup(self.entries@.take(i as int), keyword@),
            decreases i,
        {
            let ghost prefix = self.entries@.take(i as int);
            assert(prefix.drop_last() =~= self.entries@.take(i - 1));
            if same_chars(&self.entries[i - 1].keyword, keyword) {
                return Some(&self.entries[i - 1]);
            }
            i -= 1;
        }
        None
    }

    /// Whether the table has an entry for `keyword`.
    pub fn contains_key(&self, keyword: &str) -> (r: bool)
        ensures
            r == self@.contains_key(keyword@),
    {
        let key = chars_of(keyword);
        self.get(&key).is_some()
    }
}

} // verus!
