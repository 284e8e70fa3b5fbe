//! The filters of the file tree: by change, and by a text that a name has
//! to hold.

use crate::changes::Changes;
use crate::text_map::TextMap;
use crate::tree::{Entry, Item};
use vstd::prelude::*;

verus! {

/// The text in lower case, as `str::to_lowercase` writes it.
pub uninterp spec fn lowercase(text: Seq<char>) -> Seq<char>;

/// `part` occurs in `text`.
pub open spec fn occurs_in(part: Seq<char>, text: Seq<char>) -> bool {
    exists|i: int| 0 <= i <= text.len() && #[trigger] part.is_prefix_of(text.skip(i))
}

/// `str::to_lowercase`.
#[verifier::external_body]
pub(crate) fn lowercased(text: &str) -> (lower: String)
    ensures
        lower@ == lowercase(text@),
{
    text.to_lowercase()
}

/// `str::contains` for a text pattern: whether `part` occurs in `text`.
#[verifier::external_body]
pub(crate) fn holds_text(text: &str, part: &str) -> (found: bool)
    ensures
        found == occurs_in(part@, text@),
{
    text.contains(part)
}

/// Which entries of the file tree are shown, by their changes.
#[derive(Clone, Copy, Debug, PartialEq, Eq, Structural)]
pub enum ChangeFilter {
    /// Every entry.
    All,
    /// The entries that count a change.
    Changed,
}

impl Default for ChangeFilter {
    fn default() -> (filter: Self)
        ensures
            filter == ChangeFilter::All,
    {
        ChangeFilter::All
    }
}

impl ChangeFilter {
    /// Does the filter show every entry?
    pub fn is_all(&self) -> (all: bool)
        ensures
            all == (*self == ChangeFilter::All),
    {
        match self {
            ChangeFilter::All => true,
            ChangeFilter::Changed => false,
        }
    }

    /// Does the filter show changed entries only?
    pub fn is_changed(&self) -> (changed: bool)
        ensures
            changed == (*self == ChangeFilter::Changed),
    {
        match self {
            ChangeFilter::All => false,
            ChangeFilter::Changed => true,
        }
    }

    /// Is an entry with these changes shown?
    pub fn matches(&self, changes: Changes) -> (shown: bool)
        ensures
            shown == (*self == ChangeFilter::All || changes != Changes::zero()),
    {
        match self {
            ChangeFilter::All => true,
            ChangeFilter::Changed => changes.any(),
        }
    }
}

/// Which entries of the file tree are shown, by their names.
#[derive(Clone, Debug, PartialEq, Eq)]
pub enum SearchFilter {
    /// Every entry.
    All,
    /// The entries whose name holds this text, letter case aside.
    Filter(String),
}

impl Default for SearchFilter {
    fn default() -> (filter: Self)
        ensures
            filter == SearchFilter::All,
    {
        SearchFilter::All
    }
}

impl SearchFilter {
    /// Does the filter show an entry of this name?
    pub open spec fn admits(self, name: Seq<char>) -> bool {
        match self {
            SearchFilter::All => true,
            SearchFilter::Filter(part) => occurs_in(lowercase(part@), lowercase(name)),
        }
    }

    /// Does the filter show this entry, or one below it?
    pub open spec fn admits_below(self, entry: Entry) -> bool
        decreases entry,
    {
        match entry.item {
            Item::File => self.admits(entry.name@),
            Item::Dir(map) => self.admits(entry.name@) || exists|i: int|
                #![trigger map.slots@[i]]
                0 <= i < map.slots@.len() && self.admits_below(map.slots@[i].value),
        }
    }

    /// The text that is searched for; empty where every entry is shown.
    pub fn text(&self) -> (text: String)
        ensures
            text@ == match self {
                SearchFilter::All => Seq::<char>::empty(),
                SearchFilter::Filter(part) => part@,
            },
    {
        match self {
            SearchFilter::All => String::new(),
            SearchFilter::Filter(part) => part.clone(),
        }
    }

    /// Is an entry of this name shown?
    pub fn matches(&self, name: &str) -> (shown: bool)
        ensures
            shown == self.admits(name@),
    {
        match self {
            SearchFilter::All => true,
            SearchFilter::Filter(part) => {
                let wanted = lowercased(part.as_str());
                let lower = lowercased(name);
                holds_text(lower.as_str(), wanted.as_str())
            },
        }
    }

    /// Is this entry shown, or one below it?
    pub fn match_entry(&self, entry: &Entry) -> (shown: bool)
        ensures
            shown == self.admits_below(*entry),
        decreases entry,
    {
        if self.matches(entry.name.as_str()) {
            return true;
        }
        match &entry.item {
            Item::File => false,
            Item::Dir(map) => self.match_any(map),
        }
    }

    /// Is one of the entries of a directory shown, or one below them?
    fn match_any(&self, map: &TextMap<Entry>) -> (shown: bool)
        ensures
            shown == exists|i: int|
                #![trigger map.slots@[i]]
                0 <= i < map.slots@.len() && self.admits_below(map.slots@[i].value),
        decreases map,
    {
        let mut n: usize = 0;
        while n < map.slots.len()
            invariant
                n <= map.slots@.len(),
                forall|i: int|
                    #![trigger map.slots@[i]]
                    0 <= i < n ==> !self.admits_below(map.slots@[i].value),
            decreases map.slots@.len() - n,
        {
            if self.match_entry(&map.slots[n].value) {
                return true;
            }
            n = n + 1;
        }
        false
    }
}

} // verus!
