//! The groups in which the lines of a file diff are shown: the windows
//! around the changes, and the stretches of unchanged lines between them.

use crate::file_diff::{count_changes, FileDiff};
use crate::hunk::{
    context_hunks, covered, is_change, is_schedule, left_line, lemma_count_bound,
    lemma_equal_run, lemma_schedule_unique, right_line, ChangeKind, ChunkInfo,
};
use core::ops::Range;
use vstd::prelude::*;

verus! {

/// A run of lines of a file diff that is shown or folded as one.
#[derive(Clone, Debug, PartialEq, Eq)]
pub struct DiffGroupInfo {
    /// The lines of the group, with the line numbers of the first.
    pub range: ChunkInfo,
    /// Whether the group is shown unfolded at first.
    pub in_context: bool,
}

/// Some window has the range `[start, end)`.
pub open spec fn is_window(hunks: Seq<ChunkInfo>, start: int, end: int) -> bool {
    exists|h: int|
        #![trigger hunks[h]]
        0 <= h < hunks.len() && hunks[h].range.start == start && hunks[h].range.end == end
}

/// `groups` cuts the `len` lines of a diff into runs, from the first line
/// to the last without gap or overlap: every window of the diff is a group,
/// and so is every stretch of lines between two windows, before the first
/// and after the last.  A group carries the line numbers of its first line.
/// Windows are unfolded, stretches are folded; only the stretch after the
/// last window is unfolded if `unfold_rest` is set.
pub open spec fn is_grouping(
    groups: Seq<DiffGroupInfo>,
    hunks: Seq<ChunkInfo>,
    kinds: Seq<ChangeKind>,
    unfold_rest: bool,
) -> bool {
    &&& groups.len() == 0 <==> kinds.len() == 0
    &&& groups.len() > 0 ==> groups[0].range.range.start == 0 && groups.last().range.range.end
        == kinds.len()
    &&& forall|k: int|
        #![trigger groups[k]]
        0 <= k < groups.len() ==> {
            &&& groups[k].range.range.start < groups[k].range.range.end
            &&& groups[k].range.left_start == left_line(kinds, groups[k].range.range.start as int)
            &&& groups[k].range.right_start == right_line(
                kinds,
                groups[k].range.range.start as int,
            )
            &&& k + 1 < groups.len() ==> groups[k].range.range.end == groups[k
                + 1].range.range.start
            &&& groups[k].in_context == (is_window(
                hunks,
                groups[k].range.range.start as int,
                groups[k].range.range.end as int,
            ) || (unfold_rest && k + 1 == groups.len()))
        }
    &&& forall|h: int|
        #![trigger hunks[h]]
        0 <= h < hunks.len() ==> exists|k: int|
            #![trigger groups[k]]
            0 <= k < groups.len() && groups[k].range.range.start == hunks[h].range.start
                && groups[k].range.range.end == hunks[h].range.end
}

/// A line that no window covers is an equal line.
pub proof fn lemma_outside_is_equal(
    hunks: Seq<ChunkInfo>,
    kinds: Seq<ChangeKind>,
    context: nat,
    x: int,
)
    requires
        is_schedule(hunks, kinds, context),
        0 <= x < kinds.len(),
        !covered(hunks, x),
    ensures
        kinds[x] == ChangeKind::Equal,
{
    if kinds[x] != ChangeKind::Equal {
        assert(is_change(kinds, x) && x - context <= x <= x + context);
    }
}

impl FileDiff {
    /// The windows and the summary fit the changes, for some number of
    /// lines of context.
    pub open spec fn scheduled(self) -> bool {
        exists|context: nat| self.wf(context)
    }

    /// Do the windows and the summary fit the changes, for `context_lines`
    /// lines of context?
    pub fn is_scheduled(&self, context_lines: usize) -> (fits: bool)
        ensures
            fits == self.wf(context_lines as nat),
    {
        let ghost kinds = self.kinds();
        let ghost context = context_lines as nat;
        let (insertions, deletions) = count_changes(self.changes.as_slice());
        if self.summary.added != insertions as u64 || self.summary.removed != deletions as u64 {
            return false;
        }
        let hunks = context_hunks(self.changes.as_slice(), context_lines);
        proof {
            if is_schedule(self.context_ranges@, kinds, context) {
                lemma_schedule_unique(self.context_ranges@, hunks@, kinds, context);
            }
        }
        if hunks.len() != self.context_ranges.len() {
            return false;
        }
        let mut k: usize = 0;
        while k < hunks.len()
            invariant
                k <= hunks@.len(),
                kinds == self.kinds(),
                context == context_lines as nat,
                hunks@.len() == self.context_ranges@.len(),
                forall|i: int|
                    #![trigger hunks@[i]]
                    0 <= i < k ==> hunks@[i] == self.context_ranges@[i],
                is_schedule(self.context_ranges@, kinds, context) ==> forall|i: int|
                    #![trigger self.context_ranges@[i]]
                    0 <= i < hunks@.len() ==> {
                        &&& self.context_ranges@[i].range.start == hunks@[i].range.start
                        &&& self.context_ranges@[i].range.end == hunks@[i].range.end
                        &&& self.context_ranges@[i].left_start == hunks@[i].left_start
                        &&& self.context_ranges@[i].right_start == hunks@[i].right_start
                    },
            decreases hunks@.len() - k,
        {
            let ours = &self.context_ranges[k];
            let theirs = &hunks[k];
            if ours.range.start != theirs.range.start || ours.range.end != theirs.range.end
                || ours.left_start != theirs.left_start || ours.right_start
                != theirs.right_start {
                return false;
            }
            k = k + 1;
        }
        assert(hunks@ =~= self.context_ranges@);
        true
    }

    /// Cuts the lines of the diff into the groups in which they are shown.
    /// `unfold_rest` says whether the unchanged lines after the last window
    /// are shown unfolded, as they are where a file is shown rather than
    /// compared.
    pub fn groups(&self, unfold_rest: bool) -> (groups: Vec<DiffGroupInfo>)
        requires
            self.scheduled(),
        ensures
            is_grouping(groups@, self.context_ranges@, self.kinds(), unfold_rest),
    {
        let ghost context = choose|context: nat| self.wf(context);
        let ghost kinds = self.kinds();
        let ghost hunks = self.context_ranges@;
        let len = self.changes.len();
        let mut groups: Vec<DiffGroupInfo> = Vec::new();
        let mut cursor: usize = 0;
        let mut h: usize = 0;
        while h < self.context_ranges.len()
            invariant
                h <= hunks.len(),
                hunks == self.context_ranges@,
                kinds == self.kinds(),
                len == kinds.len(),
                is_schedule(hunks, kinds, context),
                cursor <= len,
                h == 0 ==> cursor == 0 && groups@.len() == 0,
                h > 0 ==> cursor == hunks[h - 1].range.end && groups@.len() > 0
                    && groups@.last().range.range.end == cursor && groups@[0].range.range.start
                    == 0,
                forall|x: int| cursor <= x < len && covered(hunks, x) ==> exists|g: int|
                    #![trigger hunks[g]]
                    h <= g < hunks.len() && hunks[g].range.start <= x < hunks[g].range.end,
                forall|k: int|
                    #![trigger groups@[k]]
                    0 <= k < groups@.len() ==> {
                        &&& groups@[k].range.range.start < groups@[k].range.range.end <= cursor
                        &&& groups@[k].range.left_start == left_line(
                            kinds,
                            groups@[k].range.range.start as int,
                        )
                        &&& groups@[k].range.right_start == right_line(
                            kinds,
                            groups@[k].range.range.start as int,
                        )
                        &&& k + 1 < groups@.len() ==> groups@[k].range.range.end == groups@[k
                            + 1].range.range.start
                        &&& groups@[k].in_context == is_window(
                            hunks,
                            groups@[k].range.range.start as int,
                            groups@[k].range.range.end as int,
                        )
                    },
                forall|g: int|
                    #![trigger hunks[g]]
                    0 <= g < h ==> exists|k: int|
                        #![trigger groups@[k]]
                        0 <= k < groups@.len() && groups@[k].range.range.start
                            == hunks[g].range.start && groups@[k].range.range.end
                            == hunks[g].range.end,
            decreases hunks.len() - h,
        {
            let next = &self.context_ranges[h];
            let start = next.range.start;
            let end = next.range.end;
            let ghost before = groups@;
            if cursor < start {
                proof {
                    assert forall|x: int| cursor <= x < start implies kinds[x]
                        == ChangeKind::Equal by {
                        lemma_outside_is_equal(hunks, kinds, context, x);
                    }
                    lemma_equal_run(kinds, cursor as int, start as int);
                    lemma_count_bound(kinds, ChangeKind::Insert, cursor as int);
                    lemma_count_bound(kinds, ChangeKind::Delete, cursor as int);
                }
                groups.push(
                    DiffGroupInfo {
                        range: ChunkInfo {
                            range: Range { start: cursor, end: start },
                            left_start: next.left_start - (start - cursor),
                            right_start: next.right_start - (start - cursor),
                        },
                        in_context: false,
                    },
                );
            }
            groups.push(
                DiffGroupInfo {
                    range: ChunkInfo {
                        range: Range { start, end },
                        left_start: next.left_start,
                        right_start: next.right_start,
                    },
                    in_context: true,
                },
            );
            proof {
                assert forall|g: int| 0 <= g < h + 1 implies exists|k: int|
                    #![trigger groups@[k]]
                    0 <= k < groups@.len() && groups@[k].range.range.start == (
                    #[trigger] hunks[g]).range.start && groups@[k].range.range.end
                        == hunks[g].range.end by {
                    if g < h {
                        let k = choose|k: int|
                            #![trigger before[k]]
                            0 <= k < before.len() && before[k].range.range.start
                                == hunks[g].range.start && before[k].range.range.end
                                == hunks[g].range.end;
                        assert(groups@[k] == before[k]);
                    } else {
                        assert(groups@[groups@.len() - 1].range.range.start == start);
                    }
                }
            }
            cursor = end;
            h = h + 1;
        }
        if cursor < len {
            proof {
                assert forall|x: int| cursor <= x < len implies kinds[x] == ChangeKind::Equal by {
                    lemma_outside_is_equal(hunks, kinds, context, x);
                }
                lemma_equal_run(kinds, cursor as int, len as int);
                lemma_count_bound(kinds, ChangeKind::Insert, cursor as int);
                lemma_count_bound(kinds, ChangeKind::Delete, cursor as int);
            }
            let ghost before = groups@;
            groups.push(
                DiffGroupInfo {
                    range: ChunkInfo {
                        range: Range { start: cursor, end: len },
                        left_start: cursor - (self.summary.added as usize),
                        right_start: cursor - (self.summary.removed as usize),
                    },
                    in_context: unfold_rest,
                },
            );
            proof {
                assert forall|g: int| 0 <= g < hunks.len() implies exists|k: int|
                    #![trigger groups@[k]]
                    0 <= k < groups@.len() && groups@[k].range.range.start == (
                    #[trigger] hunks[g]).range.start && groups@[k].range.range.end
                        == hunks[g].range.end by {
                    let k = choose|k: int|
                        #![trigger before[k]]
                        0 <= k < before.len() && before[k].range.range.start
                            == hunks[g].range.start && before[k].range.range.end
                            == hunks[g].range.end;
                    assert(groups@[k] == before[k]);
                }
            }
        }
        groups
    }
}

} // verus!
