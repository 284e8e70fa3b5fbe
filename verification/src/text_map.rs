//! A map from text keys to values, held as a list sorted by key.
//!
//! Keys are ordered by their UTF-8 bytes, so walking the list visits the
//! keys in lexicographic order whatever the order of the insertions was.

use crate::order::{lemma_lex_transitive, lex_less, rank, Rank};
use vstd::prelude::*;
use vstd::utf8::{encode_utf8, encode_utf8_decode_utf8};

verus! {

/// The bytes by which a key is ordered.
pub open spec fn key_bytes(key: Seq<char>) -> Seq<u8> {
    encode_utf8(key)
}

/// Keys with the same bytes are the same key.
pub proof fn lemma_key_bytes_injective(a: Seq<char>, b: Seq<char>)
    requires
        key_bytes(a) == key_bytes(b),
    ensures
        a == b,
{
    encode_utf8_decode_utf8(a);
    encode_utf8_decode_utf8(b);
}

/// One key of a [`TextMap`] with its value.
#[derive(Clone, Debug, PartialEq, Eq)]
pub struct Slot<V> {
    pub key: String,
    pub value: V,
}

/// A map from text keys to values, sorted by key.
#[derive(Clone, Debug, PartialEq, Eq)]
pub struct TextMap<V> {
    pub slots: Vec<Slot<V>>,
}

/// The slots come in strictly ascending order of their keys.
pub open spec fn ascending<V>(slots: Seq<Slot<V>>) -> bool {
    forall|i: int, j: int|
        #![trigger slots[i], slots[j]]
        0 <= i < j < slots.len() ==> lex_less(key_bytes(slots[i].key@), key_bytes(slots[j].key@))
}

/// Some slot holds the key.
pub open spec fn holds<V>(slots: Seq<Slot<V>>, key: Seq<char>) -> bool {
    exists|i: int| #![trigger slots[i]] 0 <= i < slots.len() && slots[i].key@ == key
}

/// A slot that holds the key, where there is one.
pub open spec fn slot_of<V>(slots: Seq<Slot<V>>, key: Seq<char>) -> int {
    choose|i: int| #![trigger slots[i]] 0 <= i < slots.len() && slots[i].key@ == key
}

/// The map that a list of slots stands for.
pub open spec fn map_of<V>(slots: Seq<Slot<V>>) -> Map<Seq<char>, V> {
    Map::new(|key: Seq<char>| holds(slots, key), |key: Seq<char>| slots[slot_of(slots, key)].value)
}

/// Replacing the value of a slot replaces the value of its key, and keeps
/// the list ascending.
pub proof fn lemma_replace_value<V>(slots: Seq<Slot<V>>, at: int, changed: Slot<V>)
    requires
        ascending(slots),
        0 <= at < slots.len(),
        changed.key@ == slots[at].key@,
    ensures
        ascending(slots.update(at, changed)),
        map_of(slots.update(at, changed)) == map_of(slots).insert(changed.key@, changed.value),
{
    let after = slots.update(at, changed);
    let key = changed.key@;
    assert forall|k: Seq<char>| map_of(after).dom().contains(k) == map_of(slots).insert(
        key,
        changed.value,
    ).dom().contains(k) by {
        if holds(slots, k) {
            let i = slot_of(slots, k);
            assert(after[i].key@ == k);
        }
    }
}

/// Putting a new slot between the keys before it and the keys after it
/// adds its key, and keeps the list ascending.
pub proof fn lemma_insert_slot<V>(slots: Seq<Slot<V>>, at: int, added: Slot<V>)
    requires
        ascending(slots),
        0 <= at <= slots.len(),
        forall|i: int|
            #![trigger slots[i]]
            0 <= i < at ==> lex_less(key_bytes(slots[i].key@), key_bytes(added.key@)),
        forall|i: int|
            #![trigger slots[i]]
            at <= i < slots.len() ==> lex_less(key_bytes(added.key@), key_bytes(slots[i].key@)),
    ensures
        ascending(slots.insert(at, added)),
        map_of(slots.insert(at, added)) == map_of(slots).insert(added.key@, added.value),
        !map_of(slots).dom().contains(added.key@),
{
    let after = slots.insert(at, added);
    let key = added.key@;
    assert forall|k: Seq<char>| map_of(after).dom().contains(k) == map_of(slots).insert(
        key,
        added.value,
    ).dom().contains(k) by {
        if holds(slots, k) {
            let i = slot_of(slots, k);
            if i < at {
                assert(after[i].key@ == k);
            } else {
                assert(after[i + 1].key@ == k);
            }
        }
        if k == key {
            assert(after[at].key@ == k);
        }
    }
}

/// Slots of which each comes before the next come in ascending order.
pub proof fn lemma_neighbours_ascending<V>(slots: Seq<Slot<V>>, i: int, j: int)
    requires
        0 <= i < j < slots.len(),
        forall|k: int|
            #![trigger slots[k]]
            0 <= k < j ==> lex_less(key_bytes(slots[k].key@), key_bytes(slots[k + 1].key@)),
    ensures
        lex_less(key_bytes(slots[i].key@), key_bytes(slots[j].key@)),
    decreases j - i,
{
    if i < j - 1 {
        lemma_neighbours_ascending(slots, i, j - 1);
        lemma_lex_transitive(
            key_bytes(slots[i].key@),
            key_bytes(slots[j - 1].key@),
            key_bytes(slots[j].key@),
        );
    }
}

impl<V> View for TextMap<V> {
    type V = Map<Seq<char>, V>;

    open spec fn view(&self) -> Map<Seq<char>, V> {
        map_of(self.slots@)
    }
}

impl<V> TextMap<V> {
    /// The keys are sorted and none occurs twice.
    pub open spec fn wf(self) -> bool {
        ascending(self.slots@)
    }

    /// Key of slot `i`.
    pub open spec fn spec_key(self, i: int) -> Seq<char> {
        self.slots@[i].key@
    }

    /// Value of slot `i`.
    pub open spec fn spec_value(self, i: int) -> V {
        self.slots@[i].value
    }

    /// Slot `i` of a well-formed map is the map's entry for its key.
    pub proof fn lemma_slot(self, i: int)
        requires
            self.wf(),
            0 <= i < self.slots@.len(),
        ensures
            self@.dom().contains(self.spec_key(i)),
            self@[self.spec_key(i)] == self.spec_value(i),
    {
    }

    /// An empty map.
    pub fn new() -> (map: Self)
        ensures
            map.wf(),
            map.slots@.len() == 0,
            map@ == Map::<Seq<char>, V>::empty(),
    {
        let map = TextMap { slots: Vec::new() };
        map
    }

    /// Are the keys sorted, none of them twice?
    pub fn is_sorted(&self) -> (sorted: bool)
        ensures
            sorted == self.wf(),
    {
        let mut n: usize = 1;
        while n < self.slots.len()
            invariant
                1 <= n,
                forall|k: int|
                    #![trigger self.slots@[k]]
                    0 <= k < n - 1 && k + 1 < self.slots@.len() ==> lex_less(
                        key_bytes(self.slots@[k].key@),
                        key_bytes(self.slots@[k + 1].key@),
                    ),
            decreases self.slots@.len() - n,
        {
            let before = self.slots[n - 1].key.as_str().as_bytes();
            let here = self.slots[n].key.as_str().as_bytes();
            if rank(before, here) != Rank::Before {
                return false;
            }
            n = n + 1;
        }
        proof {
            assert forall|i: int, j: int| 0 <= i < j < self.slots@.len() implies lex_less(
                key_bytes(#[trigger] self.slots@[i].key@),
                key_bytes(#[trigger] self.slots@[j].key@),
            ) by {
                lemma_neighbours_ascending(self.slots@, i, j);
            }
        }
        true
    }

    /// Number of keys.
    pub fn len(&self) -> (len: usize)
        ensures
            len == self.slots@.len(),
    {
        self.slots.len()
    }

    /// Key of slot `i`, in ascending order of the keys.
    pub fn key(&self, i: usize) -> (key: &String)
        requires
            i < self.slots@.len(),
        ensures
            key@ == self.spec_key(i as int),
    {
        &self.slots[i].key
    }

    /// Value of slot `i`, in ascending order of the keys.
    pub fn value(&self, i: usize) -> (value: &V)
        requires
            i < self.slots@.len(),
        ensures
            *value == self.spec_value(i as int),
    {
        &self.slots[i].value
    }

    /// Finds the slot of `key`: the flag says whether the key is present,
    /// the index is its slot or the slot where it would be inserted.
    pub fn search(&self, key: &str) -> (found: (usize, bool))
        requires
            self.wf(),
        ensures
            found.0 <= self.slots@.len(),
            forall|i: int|
                #![trigger self.slots@[i]]
                0 <= i < found.0 ==> lex_less(key_bytes(self.slots@[i].key@), key_bytes(key@)),
            found.1 ==> found.0 < self.slots@.len() && self.slots@[found.0 as int].key@ == key@,
            !found.1 ==> forall|i: int|
                #![trigger self.slots@[i]]
                found.0 <= i < self.slots@.len() ==> lex_less(
                    key_bytes(key@),
                    key_bytes(self.slots@[i].key@),
                ),
            found.1 == self@.dom().contains(key@),
    {
        let wanted = key.as_bytes();
        let mut low: usize = 0;
        let mut high: usize = self.slots.len();
        while low < high
            invariant
                self.wf(),
                wanted@ == key_bytes(key@),
                low <= high <= self.slots@.len(),
                forall|i: int|
                    #![trigger self.slots@[i]]
                    0 <= i < low ==> lex_less(key_bytes(self.slots@[i].key@), wanted@),
                forall|i: int|
                    #![trigger self.slots@[i]]
                    high <= i < self.slots@.len() ==> lex_less(
                        wanted@,
                        key_bytes(self.slots@[i].key@),
                    ),
            decreases high - low,
        {
            let mid: usize = low + (high - low) / 2;
            let here = self.slots[mid].key.as_str().as_bytes();
            match rank(here, wanted) {
                Rank::Before => {
                    proof {
                        assert forall|i: int| 0 <= i < mid + 1 implies lex_less(
                            key_bytes(#[trigger] self.slots@[i].key@),
                            wanted@,
                        ) by {
                            if i < mid {
                                lemma_lex_transitive(
                                    key_bytes(self.slots@[i].key@),
                                    here@,
                                    wanted@,
                                );
                            }
                        }
                    }
                    low = mid + 1;
                },
                Rank::After => {
                    proof {
                        assert forall|i: int| mid <= i < self.slots@.len() implies lex_less(
                            wanted@,
                            key_bytes(#[trigger] self.slots@[i].key@),
                        ) by {
                            if mid < i {
                                lemma_lex_transitive(
                                    wanted@,
                                    here@,
                                    key_bytes(self.slots@[i].key@),
                                );
                            }
                        }
                    }
                    high = mid;
                },
                Rank::Same => {
                    proof {
                        lemma_key_bytes_injective(self.slots@[mid as int].key@, key@);
                    }
                    return (mid, true);
                },
            }
        }
        (low, false)
    }

    /// Looks a key up.
    pub fn get(&self, key: &str) -> (value: Option<&V>)
        requires
            self.wf(),
        ensures
            match value {
                Some(v) => self@.dom().contains(key@) && *v == self@[key@],
                None => !self@.dom().contains(key@),
            },
    {
        let (at, present) = self.search(key);
        if present {
            Some(&self.slots[at].value)
        } else {
            None
        }
    }

    /// Adds a key that comes after every key of the map.
    pub fn append(&mut self, key: String, value: V)
        requires
            old(self).wf(),
            forall|i: int|
                #![trigger old(self).slots@[i]]
                0 <= i < old(self).slots@.len() ==> lex_less(
                    key_bytes(old(self).slots@[i].key@),
                    key_bytes(key@),
                ),
        ensures
            final(self).wf(),
            final(self).slots@ == old(self).slots@.push(Slot { key, value }),
            final(self)@ == old(self)@.insert(key@, value),
            !old(self)@.dom().contains(key@),
    {
        let ghost before = self.slots@;
        let ghost added = Slot { key, value };
        proof {
            lemma_insert_slot(before, before.len() as int, added);
            assert(before.insert(before.len() as int, added) =~= before.push(added));
        }
        self.slots.push(Slot { key, value });
    }

    /// Puts `value` under `key`, in place of the value that the key had, if
    /// it had one.
    pub fn insert(&mut self, key: String, value: V)
        requires
            old(self).wf(),
        ensures
            final(self).wf(),
            final(self)@ == old(self)@.insert(key@, value),
    {
        let (at, present) = self.search(key.as_str());
        let ghost before = self.slots@;
        if present {
            let ghost changed = Slot { key: before[at as int].key, value };
            self.slots[at].value = value;
            proof {
                lemma_replace_value(before, at as int, changed);
            }
        } else {
            let ghost added = Slot { key, value };
            self.slots.insert(at, Slot { key, value });
            proof {
                lemma_insert_slot(before, at as int, added);
            }
        }
    }
}

} // verus!
