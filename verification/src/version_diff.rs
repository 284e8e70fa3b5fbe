//! The diff of two package versions: a line diff of every file that either
//! version holds, the change counts per path, and the change tree.

use crate::archive::CrateSource;
use crate::buffer::{buffer_empty, contents};
use crate::changes::{clip, clip_size, Changes};
use crate::file_diff::{all_equal, change_views, is_diff_of, line_changes, FileDiff};
use crate::hunk::ChangeKind;
use crate::order::{lemma_lex_transitive, lex_less, rank, Rank};
use crate::path::components;
use crate::summary::{
    add_to_ancestors, any_picked, count_at, lemma_any_picked_step, lemma_node_count_counts,
    lemma_node_count_unchanged, lemma_tally_bounds, lemma_tally_unchanged, node_count, picks,
    tally, Pick,
};
use crate::text_map::{key_bytes, lemma_key_bytes_injective, Slot, TextMap};
use crate::tree::{child_sum, summed, Entry, State};
use bytes::Bytes;
use std::sync::Arc;
use vstd::prelude::*;

verus! {

/// How many lines of context are shown around a change by default.
pub const CONTEXT_LINES: usize = 3;

/// The content of the file at `path`, empty where there is no such file.
pub open spec fn side(files: Map<Seq<char>, Bytes>, path: Seq<char>) -> Seq<u8> {
    if files.dom().contains(path) {
        contents(files[path])
    } else {
        Seq::empty()
    }
}

/// `diff` is the line diff of `left` and `right` with windows for `context`
/// lines of context: its lines make up the two files; of two equal files it
/// holds equal lines only, no window and no change; and where one of the
/// files is empty, it holds insertions only or deletions only.
pub open spec fn describes(diff: FileDiff, left: Seq<u8>, right: Seq<u8>, context: nat) -> bool {
    &&& change_views(diff.changes@) == line_changes(left, right)
    &&& is_diff_of(change_views(diff.changes@), left, right)
    &&& diff.wf(context)
    &&& left == right ==> {
        &&& all_equal(diff.kinds())
        &&& diff.context_ranges@.len() == 0
        &&& diff.summary == Changes::zero()
    }
    &&& left.len() == 0 ==> forall|i: int|
        0 <= i < diff.changes@.len() ==> (#[trigger] diff.changes@[i]).0 == ChangeKind::Insert
    &&& right.len() == 0 ==> forall|i: int|
        0 <= i < diff.changes@.len() ==> (#[trigger] diff.changes@[i]).0 == ChangeKind::Delete
}

/// A tally as the counts of a path.
pub open spec fn sized(sum: (int, int)) -> (usize, usize) {
    (clip_size(sum.0), clip_size(sum.1))
}

/// A tally as the changes of a tree node.
pub open spec fn counted(sum: (int, int)) -> Changes {
    Changes { added: clip(sum.0), removed: clip(sum.1) }
}

/// The file diffs are those of the files of `left` and `right`: one for
/// every path that either side holds, each the diff of the two contents,
/// a missing file taken as empty.
pub open spec fn files_ok(
    files: TextMap<FileDiff>,
    left: Map<Seq<char>, Bytes>,
    right: Map<Seq<char>, Bytes>,
    context: nat,
) -> bool {
    &&& files.wf()
    &&& files@.dom() =~= left.dom().union(right.dom())
    &&& forall|path: Seq<char>| #[trigger]
        files@.dom().contains(path) ==> describes(
            files@[path],
            side(left, path),
            side(right, path),
            context,
        )
}

/// The counts are those of the file diffs: an entry for every ancestor of a
/// file, with the changes of all files that it is an ancestor of.
pub open spec fn summary_ok(summary: TextMap<(usize, usize)>, files: Seq<Slot<FileDiff>>) -> bool {
    &&& summary.wf()
    &&& forall|key: Seq<char>|
        #![trigger summary@.dom().contains(key)]
        summary@.dom().contains(key) == any_picked(files, Pick::Above(key), files.len() as int)
    &&& forall|key: Seq<char>|
        #![trigger count_at(summary@, key)]
        count_at(summary@, key) == sized(tally(files, Pick::Above(key), files.len() as int))
}

/// The tree is that of the file diffs.  Below the root there is a node for
/// every directory and every file of the paths, and no other.  A node is a
/// directory if it is the root or the components of some path go on from
/// it.  Every node counts what [`node_count`] says: a file its own changes,
/// a directory those of all files below it.  Every node is in the state
/// `Unchanged`.
///
/// A path reaches the tree by its components, so two paths that differ only
/// in empty pieces, such as `a/b` and `a//b`, are two files of the diff and
/// one node of the tree.
pub open spec fn tree_ok(tree: Entry, files: Seq<Slot<FileDiff>>) -> bool {
    &&& tree.wf()
    &&& tree.item is Dir
    &&& forall|walk: Seq<Seq<char>>|
        #![trigger tree.node_at(walk)]
        tree.node_at(walk) is Some <==> walk.len() == 0 || any_picked(
            files,
            Pick::Below(walk),
            files.len() as int,
        )
    &&& forall|walk: Seq<Seq<char>>|
        #![trigger tree.is_dir_at(walk)]
        tree.is_dir_at(walk) <==> walk.len() == 0 || any_picked(
            files,
            Pick::Inside(walk),
            files.len() as int,
        )
    &&& forall|walk: Seq<Seq<char>>|
        #![trigger tree.changes_at(walk)]
        tree.changes_at(walk) == node_count(files, walk, files.len() as int)
    &&& forall|walk: Seq<Seq<char>>|
        #![trigger tree.state_at(walk)]
        tree.state_at(walk) == State::Unchanged
}

/// No file with a changed line sits at the root, at the place of a
/// directory or at the place of another file: its path has a component, and
/// the components of no other path start with its own.  So no other path
/// has the same components either.
pub open spec fn clash_free(files: Seq<Slot<FileDiff>>) -> bool {
    forall|i: int, j: int|
        #![trigger files[i], files[j]]
        0 <= i < files.len() && 0 <= j < files.len() && files[i].value.summary
            != Changes::zero() ==> components(files[i].key@).len() > 0 && (i != j
            ==> !components(files[i].key@).is_prefix_of(components(files[j].key@)))
}

/// Where the paths do not clash, counting the next file in keeps the sums
/// of the tree of the files before it right.
proof fn lemma_clash_free_fits(tree: Entry, files: Seq<Slot<FileDiff>>, n: int)
    requires
        0 <= n < files.len(),
        clash_free(files),
        forall|walk: Seq<Seq<char>>|
            #![trigger tree.is_dir_at(walk)]
            tree.is_dir_at(walk) <==> walk.len() == 0 || any_picked(files, Pick::Inside(walk), n),
        forall|walk: Seq<Seq<char>>|
            #![trigger tree.changes_at(walk)]
            tree.changes_at(walk) == node_count(files, walk, n),
    ensures
        tree.fits(components(files[n].key@), files[n].value.summary),
{
    let route = components(files[n].key@);
    let changes = files[n].value.summary;
    assert forall|walk: Seq<Seq<char>>|
        #![trigger tree.node_at(walk)]
        walk.is_prefix_of(route) implies match tree.node_at(walk) {
        Some(node) => if node.item is File {
            node.changes == Changes::zero()
        } else {
            walk.len() < route.len() || changes == Changes::zero()
        },
        None => true,
    } by {
        if tree.node_at(walk) is Some {
            let node = tree.node_at(walk)->0;
            if node.item is File {
                if node.changes != Changes::zero() {
                    assert(tree.changes_at(walk) == node.changes);
                    assert(!tree.is_dir_at(walk));
                    let i = lemma_node_count_counts(files, walk, n);
                    let other = components(files[i].key@);
                    assert(!picks(Pick::Inside(walk), files[i].key@));
                    assert(other =~= walk);
                    assert(other.is_prefix_of(route));
                }
            } else if walk.len() == route.len() && changes != Changes::zero() {
                assert(walk =~= route);
                assert(tree.is_dir_at(walk));
                assert(components(files[n].key@).len() > 0);
                let i = choose|i: int|
                    0 <= i < n && i < files.len() && picks(
                        Pick::Inside(walk),
                        #[trigger] files[i].key@,
                    );
                assert(route.is_prefix_of(components(files[i].key@)));
            }
        }
    }
}

/// The diff of two versions of a package, or of two packages.
#[derive(Clone, Debug, PartialEq, Eq)]
pub struct VersionDiff {
    /// The files that are diffed from.
    pub left: Arc<CrateSource>,
    /// The files that are diffed to.
    pub right: Arc<CrateSource>,
    /// The line diff of every file that either side holds, by path.
    pub files: TextMap<FileDiff>,
    /// Inserted and removed lines per file, per directory and in all.
    pub summary: TextMap<(usize, usize)>,
    /// The change counts folded along the directory structure.
    pub tree: Entry,
}

impl VersionDiff {
    /// The parts of the diff are those of its two sides, for `context`
    /// lines of context.
    pub open spec fn wf(self, context: nat) -> bool {
        &&& files_ok(self.files, self.left.files@, self.right.files@, context)
        &&& summary_ok(self.summary, self.files.slots@)
        &&& tree_ok(self.tree, self.files.slots@)
        &&& clash_free(self.files.slots@) ==> self.tree.sums_ok()
    }
}

/// Which of the two next files, one of each side, comes first in the order
/// of the paths.
pub fn next_sides(left: &TextMap<Bytes>, right: &TextMap<Bytes>, i: usize, j: usize) -> (take: (
    bool,
    bool,
))
    requires
        i <= left.slots@.len(),
        j <= right.slots@.len(),
        i < left.slots@.len() || j < right.slots@.len(),
    ensures
        take.0 || take.1,
        take.0 ==> i < left.slots@.len(),
        take.1 ==> j < right.slots@.len(),
        take.0 && take.1 ==> left.spec_key(i as int) == right.spec_key(j as int),
        take.0 && !take.1 && j < right.slots@.len() ==> lex_less(
            key_bytes(left.spec_key(i as int)),
            key_bytes(right.spec_key(j as int)),
        ),
        take.1 && !take.0 && i < left.slots@.len() ==> lex_less(
            key_bytes(right.spec_key(j as int)),
            key_bytes(left.spec_key(i as int)),
        ),
{
    if j >= right.len() {
        (true, false)
    } else if i >= left.len() {
        (false, true)
    } else {
        match rank(left.key(i).as_str().as_bytes(), right.key(j).as_str().as_bytes()) {
            Rank::Before => (true, false),
            Rank::After => (false, true),
            Rank::Same => {
                proof {
                    lemma_key_bytes_injective(left.spec_key(i as int), right.spec_key(j as int));
                }
                (true, true)
            },
        }
    }
}

/// Some slot among the first `n` holds the path.
pub open spec fn seen<V>(slots: Seq<Slot<V>>, n: int, path: Seq<char>) -> bool {
    exists|i: int| 0 <= i < n && i < slots.len() && #[trigger] slots[i].key@ == path
}

/// Diffs every file that either side holds against its counterpart on the
/// other side, a missing file taken as empty.  The result is sorted by
/// path.
pub fn diff_files(left: &TextMap<Bytes>, right: &TextMap<Bytes>, context_lines: usize) -> (files:
    TextMap<FileDiff>)
    requires
        left.wf(),
        right.wf(),
    ensures
        files_ok(files, left@, right@, context_lines as nat),
{
    let mut files: TextMap<FileDiff> = TextMap::new();
    let mut i: usize = 0;
    let mut j: usize = 0;
    let left_len = left.len();
    let right_len = right.len();
    while i < left_len || j < right_len
        invariant
            left_len == left.slots@.len(),
            right_len == right.slots@.len(),
            left.wf(),
            right.wf(),
            files.wf(),
            i <= left.slots@.len(),
            j <= right.slots@.len(),
            forall|s: int, a: int|
                0 <= s < files.slots@.len() && i <= a < left.slots@.len() ==> lex_less(
                    key_bytes(#[trigger] files.slots@[s].key@),
                    key_bytes(#[trigger] left.slots@[a].key@),
                ),
            forall|s: int, b: int|
                0 <= s < files.slots@.len() && j <= b < right.slots@.len() ==> lex_less(
                    key_bytes(#[trigger] files.slots@[s].key@),
                    key_bytes(#[trigger] right.slots@[b].key@),
                ),
            forall|path: Seq<char>|
                #![trigger files@.dom().contains(path)]
                files@.dom().contains(path) == (seen(left.slots@, i as int, path) || seen(
                    right.slots@,
                    j as int,
                    path,
                )),
            forall|path: Seq<char>| #[trigger]
                files@.dom().contains(path) ==> describes(
                    files@[path],
                    side(left@, path),
                    side(right@, path),
                    context_lines as nat,
                ),
        decreases (left.slots@.len() - i) + (right.slots@.len() - j),
    {
        let (take_left, take_right) = next_sides(left, right, i, j);
        let path: &String = if take_left {
            left.key(i)
        } else {
            right.key(j)
        };
        let old_side = if take_left {
            left.value(i).clone()
        } else {
            buffer_empty()
        };
        let new_side = if take_right {
            right.value(j).clone()
        } else {
            buffer_empty()
        };
        let ghost before = files;
        let diff = FileDiff::compute(&old_side, &new_side, context_lines);
        files.append(path.clone(), diff);
        let ghost old_i = i;
        let ghost old_j = j;
        if take_left {
            i = i + 1;
        }
        if take_right {
            j = j + 1;
        }
        proof {
            assert forall|s: int, a: int|
                0 <= s < files.slots@.len() && i <= a < left.slots@.len() implies lex_less(
                key_bytes(#[trigger] files.slots@[s].key@),
                key_bytes(#[trigger] left.slots@[a].key@),
            ) by {
                if s < before.slots@.len() {
                    assert(files.slots@[s] == before.slots@[s]);
                } else if take_left {
                    assert(lex_less(
                        key_bytes(left.slots@[old_i as int].key@),
                        key_bytes(left.slots@[a].key@),
                    ));
                } else if a > old_i {
                    lemma_lex_transitive(
                        key_bytes(path@),
                        key_bytes(left.slots@[old_i as int].key@),
                        key_bytes(left.slots@[a].key@),
                    );
                }
            }
            assert forall|s: int, b: int|
                0 <= s < files.slots@.len() && j <= b < right.slots@.len() implies lex_less(
                key_bytes(#[trigger] files.slots@[s].key@),
                key_bytes(#[trigger] right.slots@[b].key@),
            ) by {
                if s < before.slots@.len() {
                    assert(files.slots@[s] == before.slots@[s]);
                } else if take_right {
                    assert(lex_less(
                        key_bytes(right.slots@[old_j as int].key@),
                        key_bytes(right.slots@[b].key@),
                    ));
                } else if b > old_j {
                    lemma_lex_transitive(
                        key_bytes(path@),
                        key_bytes(right.slots@[old_j as int].key@),
                        key_bytes(right.slots@[b].key@),
                    );
                }
            }
        }
    }
    files
}

/// The diff of a file store with itself, or with one that holds the same
/// files, shows no change: every line of every file is an equal line, no
/// file has a window, and every count, per file, per path and per node of
/// the tree, is zero.
pub proof fn lemma_diff_of_equal_sides(diff: VersionDiff, context: nat)
    requires
        diff.wf(context),
        diff.left.files@ == diff.right.files@,
    ensures
        forall|path: Seq<char>| #[trigger]
            diff.files@.dom().contains(path) ==> {
                &&& all_equal(diff.files@[path].kinds())
                &&& diff.files@[path].context_ranges@.len() == 0
                &&& diff.files@[path].summary == Changes::zero()
            },
        forall|key: Seq<char>| #[trigger] count_at(diff.summary@, key) == (0usize, 0usize),
        forall|walk: Seq<Seq<char>>| #[trigger] diff.tree.changes_at(walk) == Changes::zero(),
{
    let slots = diff.files.slots@;
    assert forall|i: int| 0 <= i < slots.len() implies (#[trigger] slots[i]).value.summary
        == Changes::zero() by {
        diff.files.lemma_slot(i);
    }
    assert forall|key: Seq<char>| #[trigger] count_at(diff.summary@, key) == (0usize, 0usize) by {
        lemma_tally_unchanged(slots, Pick::Above(key), slots.len() as int);
    }
    assert forall|walk: Seq<Seq<char>>| #[trigger]
        diff.tree.changes_at(walk) == Changes::zero() by {
        lemma_node_count_unchanged(slots, walk, slots.len() as int);
    }
}

/// Where no file with a changed line sits at the place of a directory, the
/// count of every directory of the tree is the sum of the counts of its
/// entries, held at the largest `u64` where the sum passes it.
pub proof fn lemma_tree_sums(diff: VersionDiff, context: nat, walk: Seq<Seq<char>>)
    requires
        diff.wf(context),
        clash_free(diff.files.slots@),
        diff.tree.node_at(walk) is Some,
        diff.tree.node_at(walk)->0.item is Dir,
    ensures
        diff.tree.node_at(walk)->0.changes == summed(
            child_sum(
                diff.tree.node_at(walk)->0.slots(),
                diff.tree.node_at(walk)->0.slots().len() as int,
            ),
        ),
{
    diff.tree.lemma_sums_everywhere(walk);
}

/// `n` as a `usize`, held at the largest one where it is larger.
pub fn to_size(n: u64) -> (size: usize)
    ensures
        size == clip_size(n as int),
{
    if n > usize::MAX as u64 {
        usize::MAX
    } else {
        n as usize
    }
}

/// Adds the change counts of the files up per ancestor path: for every
/// file, for every directory on the way to one, and for the root.
pub fn summarize(files: &TextMap<FileDiff>) -> (summary: TextMap<(usize, usize)>)
    ensures
        summary_ok(summary, files.slots@),
{
    let mut summary: TextMap<(usize, usize)> = TextMap::new();
    let ghost slots = files.slots@;
    let mut n: usize = 0;
    while n < files.len()
        invariant
            n <= files.slots@.len(),
            slots == files.slots@,
            summary.wf(),
            forall|key: Seq<char>|
                #![trigger summary@.dom().contains(key)]
                summary@.dom().contains(key) == any_picked(slots, Pick::Above(key), n as int),
            forall|key: Seq<char>|
                #![trigger count_at(summary@, key)]
                count_at(summary@, key) == sized(tally(slots, Pick::Above(key), n as int)),
        decreases files.slots@.len() - n,
    {
        let changes = files.value(n).summary;
        add_to_ancestors(
            &mut summary,
            files.key(n).as_str(),
            to_size(changes.added),
            to_size(changes.removed),
        );
        proof {
            assert forall|key: Seq<char>|
                #![trigger count_at(summary@, key)]
                count_at(summary@, key) == sized(tally(slots, Pick::Above(key), n + 1)) by {
                lemma_tally_bounds(slots, Pick::Above(key), n as int);
            }
        }
        n = n + 1;
    }
    summary
}

/// Folds the change counts of the files into a tree along the components
/// of their paths.
pub fn build_tree(files: &TextMap<FileDiff>) -> (tree: Entry)
    ensures
        tree_ok(tree, files.slots@),
        clash_free(files.slots@) ==> tree.sums_ok(),
{
    let mut tree = Entry::new(String::new());
    let ghost slots = files.slots@;
    let mut n: usize = 0;
    proof {
        assert forall|walk: Seq<Seq<char>>|
            #![trigger tree.node_at(walk)]
            tree.node_at(walk) is Some <==> walk.len() == 0 by {
            if walk.len() > 0 {
                assert(!tree.children().dom().contains(walk[0]));
            }
        }
    }
    while n < files.len()
        invariant
            n <= files.slots@.len(),
            slots == files.slots@,
            tree.wf(),
            tree.item is Dir,
            clash_free(slots) ==> tree.sums_ok(),
            forall|walk: Seq<Seq<char>>|
                #![trigger tree.node_at(walk)]
                tree.node_at(walk) is Some <==> walk.len() == 0 || any_picked(
                    slots,
                    Pick::Below(walk),
                    n as int,
                ),
            forall|walk: Seq<Seq<char>>|
                #![trigger tree.is_dir_at(walk)]
                tree.is_dir_at(walk) <==> walk.len() == 0 || any_picked(
                    slots,
                    Pick::Inside(walk),
                    n as int,
                ),
            forall|walk: Seq<Seq<char>>|
                #![trigger tree.changes_at(walk)]
                tree.changes_at(walk) == node_count(slots, walk, n as int),
            forall|walk: Seq<Seq<char>>|
                #![trigger tree.state_at(walk)]
                tree.state_at(walk) == State::Unchanged,
        decreases files.slots@.len() - n,
    {
        let changes = files.value(n).summary;
        let ghost before = tree;
        proof {
            if clash_free(slots) {
                lemma_clash_free_fits(tree, slots, n as int);
            }
        }
        tree.insert(files.key(n).as_str(), changes);
        proof {
            lemma_tree_step(before, tree, slots, n as int);
        }
        n = n + 1;
    }
    tree
}

/// Counting file `n` in takes the tree of the first `n` files to the tree
/// of the first `n + 1`.
proof fn lemma_tree_step(before: Entry, tree: Entry, files: Seq<Slot<FileDiff>>, n: int)
    requires
        0 <= n < files.len(),
        before.grows_to(tree, components(files[n].key@), files[n].value.summary),
        forall|walk: Seq<Seq<char>>|
            #![trigger before.node_at(walk)]
            before.node_at(walk) is Some <==> walk.len() == 0 || any_picked(
                files,
                Pick::Below(walk),
                n,
            ),
        forall|walk: Seq<Seq<char>>|
            #![trigger before.is_dir_at(walk)]
            before.is_dir_at(walk) <==> walk.len() == 0 || any_picked(
                files,
                Pick::Inside(walk),
                n,
            ),
        forall|walk: Seq<Seq<char>>|
            #![trigger before.changes_at(walk)]
            before.changes_at(walk) == node_count(files, walk, n),
        forall|walk: Seq<Seq<char>>|
            #![trigger before.state_at(walk)]
            before.state_at(walk) == State::Unchanged,
    ensures
        forall|walk: Seq<Seq<char>>|
            #![trigger tree.node_at(walk)]
            tree.node_at(walk) is Some <==> walk.len() == 0 || any_picked(
                files,
                Pick::Below(walk),
                n + 1,
            ),
        forall|walk: Seq<Seq<char>>|
            #![trigger tree.is_dir_at(walk)]
            tree.is_dir_at(walk) <==> walk.len() == 0 || any_picked(
                files,
                Pick::Inside(walk),
                n + 1,
            ),
        forall|walk: Seq<Seq<char>>|
            #![trigger tree.changes_at(walk)]
            tree.changes_at(walk) == node_count(files, walk, n + 1),
        forall|walk: Seq<Seq<char>>|
            #![trigger tree.state_at(walk)]
            tree.state_at(walk) == State::Unchanged,
{
    assert forall|walk: Seq<Seq<char>>|
        (#[trigger] tree.node_at(walk) is Some <==> walk.len() == 0 || any_picked(
            files,
            Pick::Below(walk),
            n + 1,
        )) && (tree.is_dir_at(walk) <==> walk.len() == 0 || any_picked(
            files,
            Pick::Inside(walk),
            n + 1,
        )) && tree.changes_at(walk) == node_count(files, walk, n + 1) && tree.state_at(walk)
            == State::Unchanged by {
        lemma_any_picked_step(files, Pick::Below(walk), n);
        lemma_any_picked_step(files, Pick::Inside(walk), n);
        assert(before.node_at(walk) is Some <==> walk.len() == 0 || any_picked(
            files,
            Pick::Below(walk),
            n,
        ));
        assert(before.is_dir_at(walk) <==> walk.len() == 0 || any_picked(
            files,
            Pick::Inside(walk),
            n,
        ));
        assert(before.changes_at(walk) == node_count(files, walk, n));
        assert(before.state_at(walk) == State::Unchanged);
        if walk.len() > 0 && any_picked(files, Pick::Inside(walk), n) {
            let i = choose|i: int|
                0 <= i < n && i < files.len() && picks(
                    Pick::Inside(walk),
                    #[trigger] files[i].key@,
                );
            assert(picks(Pick::Below(walk), files[i].key@));
        }
    }
}

impl VersionDiff {
    /// Diffs two file stores with the default of [`CONTEXT_LINES`] lines of
    /// context around every change.
    pub fn new(left: Arc<CrateSource>, right: Arc<CrateSource>) -> (diff: Self)
        requires
            left.files.wf(),
            right.files.wf(),
        ensures
            diff.left == left,
            diff.right == right,
            diff.wf(CONTEXT_LINES as nat),
    {
        Self::compute(left, right, CONTEXT_LINES)
    }

    /// Diffs two file stores, keeping `context_lines` lines of context
    /// around every change.
    pub fn compute(left: Arc<CrateSource>, right: Arc<CrateSource>, context_lines: usize) -> (diff:
        Self)
        requires
            left.files.wf(),
            right.files.wf(),
        ensures
            diff.left == left,
            diff.right == right,
            diff.wf(context_lines as nat),
    {
        let files = diff_files(&left.files, &right.files, context_lines);
        let summary = summarize(&files);
        let tree = build_tree(&files);
        VersionDiff { left, right, files, summary, tree }
    }
}

} // verus!
