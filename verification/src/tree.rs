//! The change tree: the per-file change counts of a diff, folded along the
//! directory structure of the paths.

use crate::changes::{clip, Changes};
use crate::path::{components, split_components, texts};
use crate::text_map::{lemma_insert_slot, lemma_replace_value, Slot, TextMap};
use crate::version::same_text;
use vstd::prelude::*;

verus! {

/// Whether a file exists on one side of the diff only.
#[derive(Clone, Copy, PartialEq, Eq, Debug, Structural)]
pub enum State {
    Unchanged,
    Added,
    Deleted,
}

impl Default for State {
    fn default() -> (state: Self)
        ensures
            state == State::Unchanged,
    {
        State::Unchanged
    }
}

/// What a node of the tree is: a file, or a directory with its entries by
/// name.
#[derive(PartialEq, Eq, Debug)]
pub enum Item {
    File,
    Dir(TextMap<Entry>),
}

impl Item {
    /// Is this a directory?
    pub fn is_dir(&self) -> (dir: bool)
        ensures
            dir == (*self is Dir),
    {
        match self {
            Item::Dir(_) => true,
            Item::File => false,
        }
    }
}

impl Default for Item {
    fn default() -> (item: Self)
        ensures
            item is Dir,
            item->Dir_0.slots@.len() == 0,
    {
        Item::Dir(TextMap::new())
    }
}

/// A node of the change tree.
#[derive(PartialEq, Eq, Debug)]
pub struct Entry {
    /// Name of the file or directory; empty for the root.
    pub name: String,
    pub item: Item,
    /// For a file its own changes, for a directory those of all files below.
    pub changes: Changes,
    pub state: State,
}

/// Inserted and removed lines of the first `n` entries of a directory,
/// added up.
pub open spec fn child_sum(slots: Seq<Slot<Entry>>, n: int) -> (int, int)
    decreases n,
{
    if n <= 0 || n > slots.len() {
        (0, 0)
    } else {
        let before = child_sum(slots, n - 1);
        (
            before.0 + slots[n - 1].value.changes.added,
            before.1 + slots[n - 1].value.changes.removed,
        )
    }
}

/// A sum as the count of a directory.
pub open spec fn summed(sum: (int, int)) -> Changes {
    Changes { added: clip(sum.0), removed: clip(sum.1) }
}

/// A sum over entries is not negative, and not less than the count of any
/// of the entries.
pub proof fn lemma_child_sum_bounds(slots: Seq<Slot<Entry>>, n: int, i: int)
    requires
        0 <= n <= slots.len(),
    ensures
        child_sum(slots, n).0 >= 0,
        child_sum(slots, n).1 >= 0,
        0 <= i < n ==> child_sum(slots, n).0 >= slots[i].value.changes.added && child_sum(
            slots,
            n,
        ).1 >= slots[i].value.changes.removed,
    decreases n,
{
    if n > 0 {
        lemma_child_sum_bounds(slots, n - 1, i);
    }
}

/// Changing the count of one entry changes the sum by as much.
pub proof fn lemma_child_sum_update(slots: Seq<Slot<Entry>>, at: int, changed: Slot<Entry>, n: int)
    requires
        0 <= at < slots.len(),
        0 <= n <= slots.len(),
    ensures
        child_sum(slots.update(at, changed), n).0 == child_sum(slots, n).0 + if at < n {
            changed.value.changes.added - slots[at].value.changes.added
        } else {
            0
        },
        child_sum(slots.update(at, changed), n).1 == child_sum(slots, n).1 + if at < n {
            changed.value.changes.removed - slots[at].value.changes.removed
        } else {
            0
        },
    decreases n,
{
    if n > 0 {
        lemma_child_sum_update(slots, at, changed, n - 1);
    }
}

/// A new entry adds its count to the sum.
pub proof fn lemma_child_sum_insert(slots: Seq<Slot<Entry>>, at: int, added: Slot<Entry>, n: int)
    requires
        0 <= at <= slots.len(),
        0 <= n <= slots.len() + 1,
    ensures
        child_sum(slots.insert(at, added), n).0 == if n <= at {
            child_sum(slots, n).0
        } else {
            child_sum(slots, n - 1).0 + added.value.changes.added
        },
        child_sum(slots.insert(at, added), n).1 == if n <= at {
            child_sum(slots, n).1
        } else {
            child_sum(slots, n - 1).1 + added.value.changes.removed
        },
    decreases n,
{
    if n > 0 {
        lemma_child_sum_insert(slots, at, added, n - 1);
    }
}

/// A non-empty walk leads along a non-empty route if it starts as the
/// route does and goes on along the rest of it.
pub proof fn lemma_prefix_step(walk: Seq<Seq<char>>, route: Seq<Seq<char>>)
    requires
        walk.len() > 0,
    ensures
        walk.is_prefix_of(route) <==> route.len() > 0 && walk[0] == route[0]
            && walk.drop_first().is_prefix_of(route.drop_first()),
{
    if route.len() > 0 && walk[0] == route[0] && walk.drop_first().is_prefix_of(
        route.drop_first(),
    ) {
        let rest = walk.drop_first();
        assert forall|i: int| 0 <= i < walk.len() implies walk[i] == route[i] by {
            if i > 0 {
                assert(rest[i - 1] == route.drop_first().subrange(0, rest.len() as int)[i - 1]);
            }
        }
    }
}

/// The entries of two directories have the same names and are alike, one
/// by one.
pub open spec fn alike_entries(a: Seq<Slot<Entry>>, b: Seq<Slot<Entry>>) -> bool
    decreases a, 0int,
{
    &&& a.len() == b.len()
    &&& forall|i: int|
        #![trigger a[i]]
        0 <= i < a.len() ==> a[i].key@ == b[i].key@ && alike(a[i].value, b[i].value)
}

/// Two trees hold the same: the nodes have the same names, counts and
/// states, and the entries of their directories are alike.
pub open spec fn alike(a: Entry, b: Entry) -> bool
    decreases a, 1int,
{
    &&& a.name@ == b.name@
    &&& a.changes == b.changes
    &&& a.state == b.state
    &&& match (a.item, b.item) {
        (Item::File, Item::File) => true,
        (Item::Dir(m), Item::Dir(n)) => alike_entries(m.slots@, n.slots@),
        _ => false,
    }
}

impl Clone for Item {
    fn clone(&self) -> (copy: Self)
        ensures
            match (*self, copy) {
                (Item::File, Item::File) => true,
                (Item::Dir(m), Item::Dir(n)) => alike_entries(m.slots@, n.slots@),
                _ => false,
            },
    {
        match self {
            Item::File => Item::File,
            Item::Dir(map) => Item::Dir(Entry::copy_entries(map)),
        }
    }
}

impl Clone for Entry {
    fn clone(&self) -> (copy: Self)
        ensures
            alike(*self, copy),
    {
        self.copy()
    }
}

impl Default for Entry {
    fn default() -> (entry: Self)
        ensures
            entry.is_fresh(Seq::<char>::empty()),
    {
        Entry::new(String::new())
    }
}

impl Entry {
    /// The entries of a directory, in ascending order of their names; none
    /// for a file.
    pub open spec fn slots(self) -> Seq<Slot<Entry>> {
        match self.item {
            Item::File => Seq::empty(),
            Item::Dir(map) => map.slots@,
        }
    }

    /// The entries of a directory by name; none for a file.
    pub open spec fn children(self) -> Map<Seq<char>, Entry> {
        match self.item {
            Item::File => Map::empty(),
            Item::Dir(map) => map@,
        }
    }

    /// A directory named `name` that holds nothing and counts no change.
    pub open spec fn is_fresh(self, name: Seq<char>) -> bool {
        &&& self.name@ == name
        &&& self.item is Dir
        &&& self.slots().len() == 0
        &&& self.changes == Changes::zero()
        &&& self.state == State::Unchanged
    }

    /// A file, or a directory that holds something.
    pub open spec fn is_settled(self) -> bool {
        self.item is File || self.slots().len() > 0
    }

    /// The entries of every directory are sorted by name, stand under their
    /// own names, and are files or directories that hold something.
    pub open spec fn wf(self) -> bool
        decreases self,
    {
        match self.item {
            Item::File => true,
            Item::Dir(map) => {
                &&& map.wf()
                &&& forall|i: int|
                    #![trigger map.slots@[i]]
                    0 <= i < map.slots@.len() ==> {
                        &&& map.slots@[i].value.name@ == map.slots@[i].key@
                        &&& map.slots@[i].value.is_settled()
                        &&& map.slots@[i].value.wf()
                    }
            },
        }
    }

    /// The node reached from this one by walking down the names `walk`.
    pub open spec fn node_at(self, walk: Seq<Seq<char>>) -> Option<Entry>
        decreases walk.len(),
    {
        if walk.len() == 0 {
            Some(self)
        } else if self.children().dom().contains(walk[0]) {
            self.children()[walk[0]].node_at(walk.drop_first())
        } else {
            None
        }
    }

    /// The changes counted at the node reached by `walk`; none where there
    /// is no such node.
    pub open spec fn changes_at(self, walk: Seq<Seq<char>>) -> Changes {
        match self.node_at(walk) {
            Some(node) => node.changes,
            None => Changes::zero(),
        }
    }

    /// The state of the node reached by `walk`.
    pub open spec fn state_at(self, walk: Seq<Seq<char>>) -> State {
        match self.node_at(walk) {
            Some(node) => node.state,
            None => State::Unchanged,
        }
    }

    /// In every directory the count is the sum of the counts of its
    /// entries, held at the largest `u64` where the sum passes it.
    pub open spec fn sums_ok(self) -> bool
        decreases self,
    {
        match self.item {
            Item::File => true,
            Item::Dir(map) => {
                &&& self.changes == summed(child_sum(map.slots@, map.slots@.len() as int))
                &&& forall|i: int|
                    #![trigger map.slots@[i]]
                    0 <= i < map.slots@.len() ==> map.slots@[i].value.sums_ok()
            },
        }
    }

    /// The node reached by `walk` is a directory.
    pub open spec fn is_dir_at(self, walk: Seq<Seq<char>>) -> bool {
        self.node_at(walk) matches Some(node) && node.item is Dir
    }

    /// What the node reached by `walk` counts once the changes `changes` of
    /// a file at `route` are counted in.  The node at the end of the route
    /// is the file's own: it counts exactly the file's changes, where it is
    /// new or a file already.  Every node above it counts the changes on top
    /// of what it counted; so does the node at the end itself where it is a
    /// directory.
    pub open spec fn counted_in(
        self,
        walk: Seq<Seq<char>>,
        route: Seq<Seq<char>>,
        changes: Changes,
    ) -> Changes {
        if walk.len() == route.len() && !self.is_dir_at(walk) {
            changes
        } else {
            self.changes_at(walk).plus(changes)
        }
    }

    /// Counting the changes `changes` of a file at `route` in keeps the sums
    /// right: the route passes through no file that counts a change; where
    /// it ends at a file, that file counts no change so far; and where it
    /// ends at a directory, the file itself counts none.
    pub open spec fn fits(self, route: Seq<Seq<char>>, changes: Changes) -> bool {
        forall|walk: Seq<Seq<char>>|
            #![trigger self.node_at(walk)]
            walk.is_prefix_of(route) ==> match self.node_at(walk) {
                Some(node) => if node.item is File {
                    node.changes == Changes::zero()
                } else {
                    walk.len() < route.len() || changes == Changes::zero()
                },
                None => true,
            }
    }

    /// `after` is `self` with the changes `changes` of a file at `route`
    /// counted in.  Every node on the route exists, counts what
    /// [`Self::counted_in`] says, and is in the state it was in; the nodes
    /// above the end of the route are directories, and the node at the end
    /// is a directory only if it was one.  Every node off the route is as it
    /// was.
    pub open spec fn grows_to(self, after: Entry, route: Seq<Seq<char>>, changes: Changes) -> bool {
        forall|walk: Seq<Seq<char>>|
            #![trigger after.node_at(walk)]
            if walk.is_prefix_of(route) {
                &&& after.node_at(walk) is Some
                &&& after.changes_at(walk) == self.counted_in(walk, route, changes)
                &&& after.state_at(walk) == self.state_at(walk)
                &&& after.is_dir_at(walk) == (walk.len() < route.len() || self.is_dir_at(walk))
            } else {
                after.node_at(walk) == self.node_at(walk)
            }
    }

    /// A copy of this node and of everything below it.
    fn copy(&self) -> (copy: Entry)
        ensures
            alike(*self, copy),
        decreases self,
    {
        let item = match &self.item {
            Item::File => Item::File,
            Item::Dir(map) => Item::Dir(Self::copy_entries(map)),
        };
        Entry { name: self.name.clone(), item, changes: self.changes, state: self.state }
    }

    /// A copy of the entries of a directory and of everything below them.
    fn copy_entries(map: &TextMap<Entry>) -> (copy: TextMap<Entry>)
        ensures
            alike_entries(map.slots@, copy.slots@),
        decreases map,
    {
        let mut slots: Vec<Slot<Entry>> = Vec::new();
        let mut n: usize = 0;
        while n < map.slots.len()
            invariant
                n <= map.slots@.len(),
                slots@.len() == n,
                forall|i: int|
                    #![trigger map.slots@[i]]
                    0 <= i < n ==> map.slots@[i].key@ == slots@[i].key@ && alike(
                        map.slots@[i].value,
                        slots@[i].value,
                    ),
            decreases map.slots@.len() - n,
        {
            let slot = &map.slots[n];
            slots.push(Slot { key: slot.key.clone(), value: slot.value.copy() });
            n = n + 1;
        }
        TextMap { slots }
    }

    /// A directory named `name` that holds nothing yet.
    pub fn new(name: String) -> (entry: Self)
        ensures
            entry.is_fresh(name@),
            entry.name == name,
            entry.wf(),
    {
        Entry {
            name,
            item: Item::Dir(TextMap::new()),
            changes: Changes { added: 0, removed: 0 },
            state: State::Unchanged,
        }
    }

    /// Counts the changes of one file in.  `changes` is added to this node
    /// and to every directory on the way down the components of `path`,
    /// which are made where they are missing.  The node of the last
    /// component is the file: its count is set to exactly `changes`.  Where
    /// that node is a directory that holds something already, it stays one
    /// and the changes are added to it.  Counts that would pass the largest
    /// `u64` stay at it.
    pub fn insert(&mut self, path: &str, changes: Changes)
        requires
            old(self).wf(),
        ensures
            final(self).wf(),
            final(self).name == old(self).name,
            final(self).changes == old(self).counted_in(
                Seq::empty(),
                components(path@),
                changes,
            ),
            old(self).grows_to(*final(self), components(path@), changes),
            components(path@).len() > 0 ==> final(self).item is Dir,
            components(path@).len() == 0 ==> final(self).item == old(self).item,
            old(self).sums_ok() && old(self).fits(components(path@), changes)
                ==> final(self).sums_ok(),
    {
        let parts = split_components(path);
        self.insert_at(&parts, 0, changes);
    }

    /// Counts the changes of the file at `parts[from..]` below this node
    /// in.
    fn insert_at(&mut self, parts: &Vec<String>, from: usize, changes: Changes)
        requires
            from <= parts@.len(),
            old(self).wf(),
        ensures
            final(self).wf(),
            final(self).name == old(self).name,
            final(self).state == old(self).state,
            final(self).changes == if from == parts@.len() && old(self).item is File {
                changes
            } else {
                old(self).changes.plus(changes)
            },
            old(self).grows_to(*final(self), texts(parts@).skip(from as int), changes),
            from < parts@.len() ==> final(self).item is Dir && final(self).slots().len() > 0,
            from == parts@.len() ==> final(self).item == old(self).item,
            old(self).sums_ok() && old(self).fits(texts(parts@).skip(from as int), changes)
                ==> final(self).sums_ok(),
        decreases parts@.len() - from,
    {
        let ghost before = *self;
        let ghost route = texts(parts@).skip(from as int);
        if from == parts.len() && !self.item.is_dir() {
            self.changes = changes;
        } else {
            self.changes = self.changes + changes;
        }
        assert(before.node_at(Seq::empty()) == Some(before));
        if from < parts.len() {
            let last = from + 1 == parts.len();
            if !self.item.is_dir() {
                self.item = Item::Dir(TextMap::new());
            }
            match &mut self.item {
                Item::Dir(map) => {
                    let name = parts[from].as_str();
                    let (at, present) = map.search(name);
                    let ghost slots_before = map.slots@;
                    if !present {
                        let child = Entry {
                            name: name.to_owned(),
                            item: if last {
                                Item::File
                            } else {
                                Item::Dir(TextMap::new())
                            },
                            changes: Changes { added: 0, removed: 0 },
                            state: State::Unchanged,
                        };
                        map.slots.insert(at, Slot { key: name.to_owned(), value: child });
                        proof {
                            lemma_insert_slot(slots_before, at as int, map.slots@[at as int]);
                        }
                    }
                    let ghost slots_ready = map.slots@;
                    let ghost child_before = slots_ready[at as int].value;
                    map.slots[at].value.insert_at(parts, from + 1, changes);
                    proof {
                        let child_after = map.slots@[at as int].value;
                        lemma_replace_value(slots_ready, at as int, map.slots@[at as int]);
                        assert(route.drop_first() =~= texts(parts@).skip(from + 1));
                        if before.sums_ok() && before.fits(route, changes) {
                            assert(before.node_at(Seq::empty()) == Some(before));
                            let count = slots_before.len() as int;
                            if present {
                                Self::lemma_fits_child(before, route, changes);
                            } else {
                                lemma_child_sum_insert(
                                    slots_before,
                                    at as int,
                                    slots_ready[at as int],
                                    count + 1,
                                );
                                assert forall|walk: Seq<Seq<char>>|
                                    walk.len() > 0 implies #[trigger] child_before.node_at(
                                    walk,
                                ) is None by {
                                    assert(!child_before.children().dom().contains(walk[0]));
                                }
                            }
                            assert(child_before.node_at(Seq::empty()) == Some(child_before));
                            assert(child_before.fits(route.drop_first(), changes));
                            assert(child_after.sums_ok());
                            assert(child_after.changes == child_before.changes.plus(changes));
                            lemma_child_sum_update(
                                slots_ready,
                                at as int,
                                map.slots@[at as int],
                                slots_ready.len() as int,
                            );
                            lemma_child_sum_bounds(
                                slots_ready,
                                slots_ready.len() as int,
                                at as int,
                            );
                        }
                    }
                },
                Item::File => {},
            }
            proof {
                Self::lemma_grows_step(before, *self, route, changes);
            }
        } else {
            proof {
                assert(route =~= Seq::<Seq<char>>::empty());
                Self::lemma_grows_end(before, *self, changes);
            }
        }
    }

    /// Setting the count of a file, or adding to the count of a directory,
    /// grows the node along the empty route.
    proof fn lemma_grows_end(before: Entry, after: Entry, changes: Changes)
        requires
            after.item == before.item,
            after.state == before.state,
            after.changes == if before.item is File {
                changes
            } else {
                before.changes.plus(changes)
            },
        ensures
            before.grows_to(after, Seq::empty(), changes),
    {
        let route = Seq::<Seq<char>>::empty();
        assert forall|walk: Seq<Seq<char>>|
            #![trigger after.node_at(walk)]
            if walk.is_prefix_of(route) {
                &&& after.node_at(walk) is Some
                &&& after.changes_at(walk) == before.counted_in(walk, route, changes)
                &&& after.state_at(walk) == before.state_at(walk)
                &&& after.is_dir_at(walk) == (walk.len() < route.len() || before.is_dir_at(walk))
            } else {
                after.node_at(walk) == before.node_at(walk)
            } by {
            if walk.len() == 0 {
                assert(after.node_at(walk) == Some(after));
                assert(before.node_at(walk) == Some(before));
            }
        }
    }

    /// In a tree whose sums are right, they are right at every node: the
    /// count of every directory is the sum of the counts of its entries.
    pub proof fn lemma_sums_everywhere(self, walk: Seq<Seq<char>>)
        requires
            self.wf(),
            self.sums_ok(),
            self.node_at(walk) is Some,
        ensures
            self.node_at(walk)->0.sums_ok(),
            self.node_at(walk)->0.item is Dir ==> self.node_at(walk)->0.changes == summed(
                child_sum(
                    self.node_at(walk)->0.slots(),
                    self.node_at(walk)->0.slots().len() as int,
                ),
            ),
        decreases walk.len(),
    {
        if walk.len() > 0 {
            let child = self.children()[walk[0]];
            child.lemma_sums_everywhere(walk.drop_first());
        }
    }

    /// The order in which two files of different places are counted in
    /// does not matter, where neither place holds a file yet: the same nodes
    /// exist either way, with the same counts.
    pub proof fn lemma_insert_commutes(
        start: Entry,
        first_a: Entry,
        then_b: Entry,
        first_b: Entry,
        then_a: Entry,
        route_a: Seq<Seq<char>>,
        changes_a: Changes,
        route_b: Seq<Seq<char>>,
        changes_b: Changes,
    )
        requires
            route_a != route_b,
            !(start.node_at(route_a) matches Some(node) && node.item is File),
            !(start.node_at(route_b) matches Some(node) && node.item is File),
            start.grows_to(first_a, route_a, changes_a),
            first_a.grows_to(then_b, route_b, changes_b),
            start.grows_to(first_b, route_b, changes_b),
            first_b.grows_to(then_a, route_a, changes_a),
        ensures
            forall|walk: Seq<Seq<char>>|
                (#[trigger] then_b.node_at(walk) is Some) == (then_a.node_at(walk) is Some),
            forall|walk: Seq<Seq<char>>| #[trigger]
                then_b.changes_at(walk) == then_a.changes_at(walk),
    {
        assert forall|walk: Seq<Seq<char>>|
            (#[trigger] then_b.node_at(walk) is Some) == (then_a.node_at(walk) is Some)
                && then_b.changes_at(walk) == then_a.changes_at(walk) by {
            assert(first_a.node_at(walk) is Some || first_a.node_at(walk) is None);
            assert(first_b.node_at(walk) is Some || first_b.node_at(walk) is None);
            assert(then_a.node_at(walk) is Some || then_a.node_at(walk) is None);
            if walk.is_prefix_of(route_a) && walk.len() == route_a.len() {
                assert(walk =~= route_a);
            }
            if walk.is_prefix_of(route_b) && walk.len() == route_b.len() {
                assert(walk =~= route_b);
            }
        }
        assert forall|walk: Seq<Seq<char>>| #[trigger]
            then_b.changes_at(walk) == then_a.changes_at(walk) by {
            assert((then_b.node_at(walk) is Some) == (then_a.node_at(walk) is Some));
        }
    }

    /// What fits a directory fits, from its second name on, the entry that
    /// its first name leads to.
    proof fn lemma_fits_child(node: Entry, route: Seq<Seq<char>>, changes: Changes)
        requires
            node.fits(route, changes),
            route.len() > 0,
            node.children().dom().contains(route[0]),
        ensures
            node.children()[route[0]].fits(route.drop_first(), changes),
    {
        let child = node.children()[route[0]];
        let rest = route.drop_first();
        assert forall|walk: Seq<Seq<char>>|
            #![trigger child.node_at(walk)]
            walk.is_prefix_of(rest) implies match child.node_at(walk) {
            Some(below) => if below.item is File {
                below.changes == Changes::zero()
            } else {
                walk.len() < rest.len() || changes == Changes::zero()
            },
            None => true,
        } by {
            let longer = seq![route[0]] + walk;
            assert(longer.drop_first() =~= walk);
            lemma_prefix_step(longer, route);
            assert(node.node_at(longer) == child.node_at(walk));
        }
    }

    /// Growing one entry of a directory along the rest of a route, and
    /// adding to the directory's own count, grows the directory along the
    /// route.
    proof fn lemma_grows_step(before: Entry, after: Entry, route: Seq<Seq<char>>, changes: Changes)
        requires
            route.len() > 0,
            after.state == before.state,
            after.changes == before.changes.plus(changes),
            after.item is Dir,
            after.children().dom().contains(route[0]),
            forall|name: Seq<char>|
                name != route[0] ==> (before.children().dom().contains(name)
                    == after.children().dom().contains(name)),
            forall|name: Seq<char>|
                name != route[0] && before.children().dom().contains(name)
                    ==> before.children()[name] == after.children()[name],
            ({
                let child = after.children()[route[0]];
                if before.children().dom().contains(route[0]) {
                    before.children()[route[0]].grows_to(child, route.drop_first(), changes)
                } else {
                    exists|fresh: Entry|
                        fresh.slots().len() == 0 && fresh.changes == Changes::zero() && fresh.state
                            == State::Unchanged && (route.len() == 1 ==> fresh.item is File)
                            && fresh.grows_to(child, route.drop_first(), changes)
                }
            }),
        ensures
            before.grows_to(after, route, changes),
    {
        assert forall|walk: Seq<Seq<char>>|
            if walk.is_prefix_of(route) {
                &&& #[trigger] after.node_at(walk) is Some
                &&& after.changes_at(walk) == before.counted_in(walk, route, changes)
                &&& after.state_at(walk) == before.state_at(walk)
                &&& after.is_dir_at(walk) == (walk.len() < route.len() || before.is_dir_at(walk))
            } else {
                after.node_at(walk) == before.node_at(walk)
            } by {
            if walk.len() > 0 {
                let rest = walk.drop_first();
                let route_rest = route.drop_first();
                lemma_prefix_step(walk, route);
                if walk[0] == route[0] {
                    let child = after.children()[route[0]];
                    assert(after.node_at(walk) == child.node_at(rest));
                    if before.children().dom().contains(route[0]) {
                        let child_before = before.children()[route[0]];
                        assert(before.node_at(walk) == child_before.node_at(rest));
                        assert(child_before.grows_to(child, route_rest, changes));
                    } else {
                        let fresh = choose|fresh: Entry|
                            fresh.slots().len() == 0 && fresh.changes == Changes::zero()
                                && fresh.state == State::Unchanged && (route.len() == 1
                                ==> fresh.item is File) && fresh.grows_to(
                                child,
                                route_rest,
                                changes,
                            );
                        assert(before.node_at(walk) is None);
                        if rest.len() > 0 {
                            assert(!fresh.children().dom().contains(rest[0]));
                            assert(fresh.node_at(rest) is None);
                        } else {
                            assert(fresh.node_at(rest) == Some(fresh));
                        }
                    }
                }
            } else {
                assert(after.node_at(walk) == Some(after));
                assert(before.node_at(walk) == Some(before));
            }
        }
    }

    /// Is the tree well-formed?
    pub fn is_well_formed(&self) -> (well: bool)
        ensures
            well == self.wf(),
        decreases self,
    {
        match &self.item {
            Item::File => true,
            Item::Dir(map) => Self::are_well_formed(map),
        }
    }

    /// Are the entries of a directory sorted, each under its own name, a
    /// file or a directory that holds something, and well-formed?
    fn are_well_formed(map: &TextMap<Entry>) -> (well: bool)
        ensures
            well == (map.wf() && forall|i: int|
                #![trigger map.slots@[i]]
                0 <= i < map.slots@.len() ==> {
                    &&& map.slots@[i].value.name@ == map.slots@[i].key@
                    &&& map.slots@[i].value.is_settled()
                    &&& map.slots@[i].value.wf()
                }),
        decreases map,
    {
        if !map.is_sorted() {
            return false;
        }
        let mut n: usize = 0;
        while n < map.slots.len()
            invariant
                n <= map.slots@.len(),
                forall|i: int|
                    #![trigger map.slots@[i]]
                    0 <= i < n ==> {
                        &&& map.slots@[i].value.name@ == map.slots@[i].key@
                        &&& map.slots@[i].value.is_settled()
                        &&& map.slots@[i].value.wf()
                    },
            decreases map.slots@.len() - n,
        {
            let slot = &map.slots[n];
            let settled = match &slot.value.item {
                Item::File => true,
                Item::Dir(below) => below.slots.len() > 0,
            };
            if !settled || !same_text(slot.value.name.as_str(), slot.key.as_str())
                || !slot.value.is_well_formed() {
                return false;
            }
            n = n + 1;
        }
        true
    }

    /// The node reached from this one by walking down the names `walk`,
    /// if there is one.
    pub fn node(&self, walk: &[String]) -> (found: Option<&Entry>)
        requires
            self.wf(),
        ensures
            match found {
                Some(node) => self.node_at(texts(walk@)) == Some(*node),
                None => self.node_at(texts(walk@)) is None,
            },
    {
        let mut node: &Entry = self;
        let mut n: usize = 0;
        assert(texts(walk@).skip(0) =~= texts(walk@));
        while n < walk.len()
            invariant
                n <= walk@.len(),
                node.wf(),
                self.node_at(texts(walk@)) == node.node_at(texts(walk@).skip(n as int)),
            decreases walk@.len() - n,
        {
            let ghost rest = texts(walk@).skip(n as int);
            assert(rest.drop_first() =~= texts(walk@).skip(n + 1));
            match &node.item {
                Item::File => {
                    return None;
                },
                Item::Dir(map) => {
                    let (at, present) = map.search(walk[n].as_str());
                    if !present {
                        return None;
                    }
                    node = &map.slots[at].value;
                },
            }
            n = n + 1;
        }
        Some(node)
    }

    /// Is this a directory?
    pub fn is_dir(&self) -> (dir: bool)
        ensures
            dir == (self.item is Dir),
    {
        self.item.is_dir()
    }

    /// Does this file, or anything below this directory, have a changed
    /// line?
    pub fn has_changes(&self) -> (any: bool)
        ensures
            any == (self.changes != Changes::zero()),
    {
        self.changes.any()
    }
}

} // verus!
