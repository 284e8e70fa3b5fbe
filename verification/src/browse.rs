//! Which files to show for a path of the diff: the file itself, or the
//! changed files below the directory that the path names.

use crate::changes::Changes;
use crate::path::{components, split_components, texts};
use crate::text_map::{Slot, TextMap};
use crate::tree::{Entry, Item};
use crate::version_diff::VersionDiff;
use vstd::prelude::*;
use vstd::string::StringExecFns;

verus! {

/// The path `below` seen from the directory `base`: the two joined by a
/// slash, unless `base` is empty or ends in one.
pub open spec fn join(base: Seq<char>, below: Seq<char>) -> Seq<char> {
    if base.len() == 0 {
        below
    } else if base.last() == '/' {
        base + below
    } else {
        base + seq!['/'] + below
    }
}

/// Every path of a list, seen from the directory `base`.
pub open spec fn prefixed(base: Seq<char>, paths: Seq<Seq<char>>) -> Seq<Seq<char>> {
    Seq::new(paths.len(), |i: int| join(base, paths[i]))
}

/// The files below the first `n` entries of a directory, each by its path
/// from the directory, in the order of the names; with `changed_only`,
/// without the files and directories that count no change.
pub open spec fn listing(slots: Seq<Slot<Entry>>, n: int, changed_only: bool) -> Seq<Seq<char>>
    decreases slots, n,
{
    if n <= 0 || n > slots.len() {
        Seq::empty()
    } else {
        listing(slots, n - 1, changed_only) + listed(slots[n - 1], changed_only)
    }
}

/// The files at or below one entry of a directory, each by its path from
/// the directory.
pub open spec fn listed(slot: Slot<Entry>, changed_only: bool) -> Seq<Seq<char>>
    decreases slot, 0int,
{
    if changed_only && slot.value.changes == Changes::zero() {
        Seq::empty()
    } else {
        match slot.value.item {
            Item::File => seq![slot.key@],
            Item::Dir(map) => prefixed(
                slot.key@,
                listing(map.slots@, map.slots@.len() as int, changed_only),
            ),
        }
    }
}

/// The node reached from `entry` by walking down the names `walk` through
/// nodes that count a change; nothing where a name is missing or counts
/// none.
pub open spec fn reach(entry: Entry, walk: Seq<Seq<char>>) -> Option<Entry>
    decreases walk.len(),
{
    if walk.len() == 0 {
        Some(entry)
    } else if entry.children().dom().contains(walk[0]) && entry.children()[walk[0]].changes
        != Changes::zero() {
        reach(entry.children()[walk[0]], walk.drop_first())
    } else {
        None
    }
}

/// The files to show for `path`: the path itself where the diff has a file
/// of that path; else the changed files below the directory that the path
/// names; else, where there is no such directory or no changed file below
/// it, the path itself.
pub open spec fn display_files(diff: VersionDiff, path: Seq<char>) -> Seq<Seq<char>> {
    if diff.files@.dom().contains(path) {
        seq![path]
    } else {
        match reach(diff.tree, components(path)) {
            Some(node) => {
                let below = listing(node.slots(), node.slots().len() as int, true);
                if node.item is Dir && below.len() > 0 {
                    prefixed(path, below)
                } else {
                    seq![path]
                }
            },
            None => seq![path],
        }
    }
}

/// Joins a path to the directory that it is seen from.
pub fn join_paths(base: &str, below: &str) -> (path: String)
    ensures
        path@ == join(base@, below@),
{
    proof {
        reveal_strlit("/");
    }
    let count = base.unicode_len();
    let mut path = base.to_owned();
    if count > 0 && base.get_char(count - 1) != '/' {
        path.append("/");
    }
    path.append(below);
    path
}

/// Lists the files below a directory, each by its path from the directory,
/// in the order of the names.  With `no_unchanged`, files and directories
/// that count no change are left out.
pub fn rel_filepaths_in_tree(dir: &TextMap<Entry>, no_unchanged: bool) -> (paths: Vec<String>)
    ensures
        texts(paths@) == listing(dir.slots@, dir.slots@.len() as int, no_unchanged),
    decreases dir,
{
    let mut paths: Vec<String> = Vec::new();
    let mut n: usize = 0;
    while n < dir.slots.len()
        invariant
            n <= dir.slots@.len(),
            texts(paths@) == listing(dir.slots@, n as int, no_unchanged),
        decreases dir.slots@.len() - n,
    {
        let slot = &dir.slots[n];
        let ghost before = paths@;
        if !(no_unchanged && !slot.value.changes.any()) {
            match &slot.value.item {
                Item::File => {
                    paths.push(slot.key.clone());
                },
                Item::Dir(map) => {
                    let below = rel_filepaths_in_tree(map, no_unchanged);
                    let mut k: usize = 0;
                    while k < below.len()
                        invariant
                            k <= below@.len(),
                            texts(paths@) == texts(before) + prefixed(slot.key@, texts(below@)).take(
                                k as int,
                            ),
                        decreases below@.len() - k,
                    {
                        let ghost so_far = paths@;
                        paths.push(join_paths(slot.key.as_str(), below[k].as_str()));
                        assert(texts(paths@) =~= texts(so_far) + seq![
                            join(slot.key@, below@[k as int]@),
                        ]);
                        k = k + 1;
                    }
                },
            }
        } else {
            assert(texts(paths@) =~= texts(before) + Seq::<Seq<char>>::empty());
        }
        assert(listing(dir.slots@, n + 1, no_unchanged) == listing(
            dir.slots@,
            n as int,
            no_unchanged,
        ) + listed(dir.slots@[n as int], no_unchanged));
        n = n + 1;
    }
    paths
}

/// Chooses the files to show for a path of the diff.
pub fn determine_display_files(diff: &VersionDiff, path: &str) -> (files: Vec<String>)
    requires
        diff.files.wf(),
        diff.tree.wf(),
    ensures
        texts(files@) == display_files(*diff, path@),
{
    let mut only: Vec<String> = Vec::new();
    only.push(path.to_owned());
    if diff.files.get(path).is_some() {
        return only;
    }
    let parts = split_components(path);
    let mut node: &Entry = &diff.tree;
    let mut n: usize = 0;
    assert(components(path@).skip(0) =~= components(path@));
    while n < parts.len()
        invariant
            n <= parts@.len(),
            texts(parts@) == components(path@),
            node.wf(),
            reach(diff.tree, components(path@)) == reach(*node, components(path@).skip(n as int)),
            texts(only@) == seq![path@],
            !diff.files@.dom().contains(path@),
        decreases parts@.len() - n,
    {
        let ghost rest = components(path@).skip(n as int);
        assert(rest.drop_first() =~= components(path@).skip(n + 1));
        match &node.item {
            Item::Dir(map) => {
                let (at, present) = map.search(parts[n].as_str());
                if !present {
                    return only;
                }
                let deeper = &map.slots[at].value;
                if !deeper.changes.any() {
                    return only;
                }
                node = deeper;
            },
            Item::File => {
                return only;
            },
        }
        n = n + 1;
    }
    match &node.item {
        Item::Dir(map) => {
            let below = rel_filepaths_in_tree(map, true);
            if below.len() == 0 {
                return only;
            }
            let mut files: Vec<String> = Vec::new();
            let mut k: usize = 0;
            while k < below.len()
                invariant
                    k <= below@.len(),
                    texts(files@) == prefixed(path@, texts(below@)).take(k as int),
                decreases below@.len() - k,
            {
                files.push(join_paths(path, below[k].as_str()));
                assert(prefixed(path@, texts(below@)).take(k + 1) =~= prefixed(
                    path@,
                    texts(below@),
                ).take(k as int) + seq![join(path@, below@[k as int]@)]);
                k = k + 1;
            }
            files
        },
        Item::File => only,
    }
}

} // verus!
