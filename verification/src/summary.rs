//! Change counts added up over the files of a diff: per ancestor path, and
//! per node of the change tree.

use crate::changes::{clip_size, Changes};
use crate::file_diff::FileDiff;
use crate::path::{ancestor_keys, components, is_ancestor, lists};
use crate::text_map::{Slot, TextMap};
use vstd::prelude::*;

verus! {

/// Which files a sum is taken over.
pub enum Pick {
    /// The files whose components start with these names.
    Below(Seq<Seq<char>>),
    /// The files whose components start with these names and go on.
    Inside(Seq<Seq<char>>),
    /// The files that this path is an ancestor of.
    Above(Seq<char>),
}

/// The file at `path` is one of those that `pick` selects.
pub open spec fn picks(pick: Pick, path: Seq<char>) -> bool {
    match pick {
        Pick::Below(walk) => walk.is_prefix_of(components(path)),
        Pick::Inside(walk) => walk.is_prefix_of(components(path)) && walk.len() < components(
            path,
        ).len(),
        Pick::Above(key) => is_ancestor(key, path),
    }
}

/// What the node at `walk` of the change tree counts after the first `n`
/// files were counted in, one after the other.  A file whose components
/// are `walk` sets the count to its own changes; where the node is the root
/// or a directory by then, because the components of an earlier file go on
/// from `walk`, it adds them.  A file whose components go on from `walk`
/// adds its changes.  Every other file leaves the count as it is.
pub open spec fn node_count(files: Seq<Slot<FileDiff>>, walk: Seq<Seq<char>>, n: int) -> Changes
    decreases n,
{
    if n <= 0 || n > files.len() {
        Changes::zero()
    } else {
        let before = node_count(files, walk, n - 1);
        let route = components(files[n - 1].key@);
        let changes = files[n - 1].value.summary;
        if !walk.is_prefix_of(route) {
            before
        } else if walk.len() == route.len() && walk.len() > 0 && !any_picked(
            files,
            Pick::Inside(walk),
            n - 1,
        ) {
            changes
        } else {
            before.plus(changes)
        }
    }
}

/// Where a node counts something, a file at or below it has a changed
/// line.
pub proof fn lemma_node_count_counts(files: Seq<Slot<FileDiff>>, walk: Seq<Seq<char>>, n: int) -> (i:
    int)
    requires
        0 <= n <= files.len(),
        node_count(files, walk, n) != Changes::zero(),
    ensures
        0 <= i < n,
        walk.is_prefix_of(components(files[i].key@)),
        files[i].value.summary != Changes::zero(),
    decreases n,
{
    if walk.is_prefix_of(components(files[n - 1].key@)) && files[n - 1].value.summary
        != Changes::zero() {
        n - 1
    } else {
        lemma_node_count_counts(files, walk, n - 1)
    }
}

/// Where no file has a changed line, no node counts anything.
pub proof fn lemma_node_count_unchanged(files: Seq<Slot<FileDiff>>, walk: Seq<Seq<char>>, n: int)
    requires
        forall|i: int|
            0 <= i < files.len() ==> (#[trigger] files[i]).value.summary == Changes::zero(),
    ensures
        node_count(files, walk, n) == Changes::zero(),
    decreases n,
{
    if 0 < n <= files.len() {
        lemma_node_count_unchanged(files, walk, n - 1);
        assert(files[n - 1].value.summary == Changes::zero());
    }
}

/// Inserted and removed lines of the picked files among the first `n`.
pub open spec fn tally(files: Seq<Slot<FileDiff>>, pick: Pick, n: int) -> (int, int)
    decreases n,
{
    if n <= 0 || n > files.len() {
        (0, 0)
    } else {
        let before = tally(files, pick, n - 1);
        if picks(pick, files[n - 1].key@) {
            (
                before.0 + files[n - 1].value.summary.added,
                before.1 + files[n - 1].value.summary.removed,
            )
        } else {
            before
        }
    }
}

/// Some file among the first `n` is picked.
pub open spec fn any_picked(files: Seq<Slot<FileDiff>>, pick: Pick, n: int) -> bool {
    exists|i: int| 0 <= i < n && i < files.len() && picks(pick, #[trigger] files[i].key@)
}

/// A tally is never negative, and is zero where no file is picked.
pub proof fn lemma_tally_bounds(files: Seq<Slot<FileDiff>>, pick: Pick, n: int)
    ensures
        tally(files, pick, n).0 >= 0,
        tally(files, pick, n).1 >= 0,
        !any_picked(files, pick, n) ==> tally(files, pick, n) == (0int, 0int),
    decreases n,
{
    if 0 < n <= files.len() {
        lemma_tally_bounds(files, pick, n - 1);
    }
}

/// Files without a changed line tally to nothing.
pub proof fn lemma_tally_unchanged(files: Seq<Slot<FileDiff>>, pick: Pick, n: int)
    requires
        forall|i: int|
            0 <= i < files.len() ==> (#[trigger] files[i]).value.summary == Changes::zero(),
    ensures
        tally(files, pick, n) == (0int, 0int),
    decreases n,
{
    if 0 < n <= files.len() {
        lemma_tally_unchanged(files, pick, n - 1);
    }
}

/// Whether a file is picked among the first `n + 1` files: among the first
/// `n`, or as file `n`.
pub proof fn lemma_any_picked_step(files: Seq<Slot<FileDiff>>, pick: Pick, n: int)
    requires
        0 <= n < files.len(),
    ensures
        any_picked(files, pick, n + 1) == (any_picked(files, pick, n) || picks(
            pick,
            files[n].key@,
        )),
{
    if any_picked(files, pick, n + 1) {
        let i = choose|i: int|
            0 <= i < n + 1 && i < files.len() && picks(pick, #[trigger] files[i].key@);
        if i < n {
            assert(any_picked(files, pick, n));
        }
    }
    if any_picked(files, pick, n) {
        let i = choose|i: int| 0 <= i < n && i < files.len() && picks(pick, #[trigger] files[i].key@);
        assert(picks(pick, files[i].key@));
    }
    if picks(pick, files[n].key@) {
        assert(any_picked(files, pick, n + 1));
    }
}

/// The counts kept for `key`, none where the key is missing.
pub open spec fn count_at(counts: Map<Seq<char>, (usize, usize)>, key: Seq<char>) -> (
    usize,
    usize,
) {
    if counts.dom().contains(key) {
        counts[key]
    } else {
        (0usize, 0usize)
    }
}

/// Counts with the changes of one more file, held at the largest `usize`
/// where they would pass it.
pub open spec fn bumped(count: (usize, usize), added: usize, removed: usize) -> (usize, usize) {
    (clip_size(count.0 + added), clip_size(count.1 + removed))
}

/// Adds the changes of the file at `path` to the counts of the path, of
/// every directory on the way to it, and of the root.
pub fn add_to_ancestors(
    counts: &mut TextMap<(usize, usize)>,
    path: &str,
    added: usize,
    removed: usize,
)
    requires
        old(counts).wf(),
    ensures
        final(counts).wf(),
        forall|key: Seq<char>|
            #![trigger final(counts)@.dom().contains(key)]
            final(counts)@.dom().contains(key) == (old(counts)@.dom().contains(key)
                || is_ancestor(key, path@)),
        forall|key: Seq<char>|
            #![trigger count_at(final(counts)@, key)]
            count_at(final(counts)@, key) == if is_ancestor(key, path@) {
                bumped(count_at(old(counts)@, key), added, removed)
            } else {
                count_at(old(counts)@, key)
            },
{
    let keys = ancestor_keys(path);
    let ghost before = counts@;
    let mut k: usize = 0;
    while k < keys.len()
        invariant
            k <= keys@.len(),
            counts.wf(),
            forall|key: Seq<char>| is_ancestor(key, path@) <==> lists(keys@, key),
            forall|i: int, j: int|
                0 <= i < j < keys@.len() ==> #[trigger] keys@[i]@.len()
                    < #[trigger] keys@[j]@.len(),
            forall|key: Seq<char>|
                #![trigger counts@.dom().contains(key)]
                counts@.dom().contains(key) == (before.dom().contains(key) || lists(
                    keys@.take(k as int),
                    key,
                )),
            forall|key: Seq<char>|
                #![trigger count_at(counts@, key)]
                count_at(counts@, key) == if lists(keys@.take(k as int), key) {
                    bumped(count_at(before, key), added, removed)
                } else {
                    count_at(before, key)
                },
        decreases keys.len() - k,
    {
        let key = &keys[k];
        let ghost current = counts@;
        let ghost done = keys@.take(k as int);
        proof {
            if lists(done, key@) {
                let i = choose|i: int| 0 <= i < done.len() && #[trigger] done[i]@ == key@;
                assert(keys@[i]@.len() < keys@[k as int]@.len());
            }
        }
        let held = match counts.get(key.as_str()) {
            Some(held) => *held,
            None => (0, 0),
        };
        counts.insert(key.clone(), (held.0.saturating_add(added), held.1.saturating_add(removed)));
        proof {
            let next = keys@.take(k + 1);
            assert forall|other: Seq<char>| lists(next, other) == (lists(done, other) || other
                == key@) by {
                if other == key@ {
                    assert(next[k as int]@ == other);
                }
            }
            assert forall|other: Seq<char>|
                #![trigger count_at(counts@, other)]
                count_at(counts@, other) == if lists(next, other) {
                    bumped(count_at(before, other), added, removed)
                } else {
                    count_at(before, other)
                } by {
                assert(count_at(current, other) == if lists(done, other) {
                    bumped(count_at(before, other), added, removed)
                } else {
                    count_at(before, other)
                });
            }
        }
        k = k + 1;
    }
    proof {
        assert(keys@.take(k as int) =~= keys@);
    }
}

} // verus!
