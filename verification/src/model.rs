//! The fork table and the identities that the tables share.

use vstd::prelude::*;

use crate::text;

verus! {

/// Whether `c` is a lowercase hexadecimal digit.
pub open spec fn is_hex(c: char) -> bool {
    text::is_digit(c) || 'a' <= c <= 'f'
}

/// Whether a text is a full object ID: 40 lowercase hexadecimal digits.
pub open spec fn sha40(value: Seq<char>) -> bool {
    value.len() == 40 && forall|i: int| 0 <= i < value.len() ==> is_hex(#[trigger] value[i])
}

/// Decides whether a text is a full object ID.
pub fn is_sha40(value: &str) -> (yes: bool)
    ensures
        yes == sha40(value@),
{
    let chars = text::chars_of(value);
    if chars.len() != 40 {
        return false;
    }
    let mut i: usize = 0;
    while i < chars.len()
        invariant
            chars@ == value@,
            i <= chars@.len(),
            forall|k: int| 0 <= k < i ==> is_hex(#[trigger] value@[k]),
        decreases chars@.len() - i,
    {
        let c = chars[i];
        if !('0' <= c && c <= '9' || 'a' <= c && c <= 'f') {
            assert(!is_hex(value@[i as int]));
            return false;
        }
        i = i + 1;
    }
    true
}

/// The rows of a table by what they hold.
pub open spec fn views<T: View>(rows: Seq<T>) -> Seq<T::V> {
    Seq::new(rows.len(), |i: int| rows[i]@)
}

/// One mirror of the action repository.
#[derive(Debug, Clone, PartialEq, Eq)]
pub struct Fork {
    pub repository: String,
}

/// The mirrors that every release must cover.
#[derive(Debug, Clone, PartialEq, Eq)]
pub struct ForkTable {
    entries: Vec<Fork>,
}

impl View for ForkTable {
    type V = Seq<Seq<char>>;

    /// The repositories of the mirrors, in table order.
    closed spec fn view(&self) -> Seq<Seq<char>> {
        Seq::new(self.entries@.len(), |i: int| self.entries@[i].repository@)
    }
}

impl ForkTable {
    /// A table of the given mirrors.
    pub fn new(entries: Vec<Fork>) -> (table: ForkTable)
        ensures
            table@.len() == entries@.len(),
            forall|i: int|
                0 <= i < entries@.len() ==> #[trigger] table@[i] == entries@[i].repository@,
    {
        ForkTable { entries }
    }

    /// The mirrors, in table order.
    pub fn entries(&self) -> (entries: &Vec<Fork>)
        ensures
            entries@.len() == self@.len(),
            forall|i: int|
                0 <= i < entries@.len() ==> #[trigger] self@[i] == entries@[i].repository@,
    {
        &self.entries
    }

    /// Whether the table holds a repository.
    pub fn declares(&self, repository: &str) -> (found: bool)
        ensures
            found == self@.contains(repository@),
    {
        let mut i: usize = 0;
        while i < self.entries.len()
            invariant
                i <= self.entries@.len(),
                forall|k: int| 0 <= k < i ==> #[trigger] self@[k] != repository@,
            decreases self.entries@.len() - i,
        {
            if text::same_text(self.entries[i].repository.as_str(), repository) {
                assert(self@[i as int] == repository@);
                return true;
            }
            i = i + 1;
        }
        false
    }
}

} // verus!
