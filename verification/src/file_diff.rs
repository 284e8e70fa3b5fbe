//! The line diff of one file: its changes, the windows shown expanded and
//! the count of inserted and removed lines.

use crate::buffer::contents;
use crate::changes::Changes;
use crate::hunk::{
    context_hunks, count_kind, covered, is_change, is_schedule, kinds_of, lemma_count_bound,
    ChangeKind, ChunkInfo,
};
use bytes::Bytes;
use similar::{ChangeTag, TextDiff};
use vstd::prelude::*;

verus! {

/// The line diff that `similar::TextDiff::from_lines` computes of two byte
/// strings, each line with its kind, in the order in which
/// `iter_all_changes` yields them.
pub uninterp spec fn line_changes(left: Seq<u8>, right: Seq<u8>) -> Seq<(ChangeKind, Seq<u8>)>;

/// A change sequence with each line as the bytes that its buffer holds.
pub open spec fn change_views(changes: Seq<(ChangeKind, Bytes)>) -> Seq<(ChangeKind, Seq<u8>)> {
    Seq::new(changes.len(), |i: int| (changes[i].0, contents(changes[i].1)))
}

/// The lines that the left file holds, one after the other: the equal and
/// the deleted lines among the first `n`.
pub open spec fn left_text(lines: Seq<(ChangeKind, Seq<u8>)>, n: int) -> Seq<u8>
    decreases n,
{
    if n <= 0 || n > lines.len() {
        Seq::empty()
    } else if lines[n - 1].0 == ChangeKind::Insert {
        left_text(lines, n - 1)
    } else {
        left_text(lines, n - 1) + lines[n - 1].1
    }
}

/// The lines that the right file holds, one after the other: the equal
/// and the inserted lines among the first `n`.
pub open spec fn right_text(lines: Seq<(ChangeKind, Seq<u8>)>, n: int) -> Seq<u8>
    decreases n,
{
    if n <= 0 || n > lines.len() {
        Seq::empty()
    } else if lines[n - 1].0 == ChangeKind::Delete {
        right_text(lines, n - 1)
    } else {
        right_text(lines, n - 1) + lines[n - 1].1
    }
}

/// The lines that the left file holds, in order: the equal and the deleted
/// lines among the first `n`.
pub open spec fn left_lines(lines: Seq<(ChangeKind, Seq<u8>)>, n: int) -> Seq<Seq<u8>>
    decreases n,
{
    if n <= 0 || n > lines.len() {
        Seq::empty()
    } else if lines[n - 1].0 == ChangeKind::Insert {
        left_lines(lines, n - 1)
    } else {
        left_lines(lines, n - 1).push(lines[n - 1].1)
    }
}

/// The lines that the right file holds, in order: the equal and the
/// inserted lines among the first `n`.
pub open spec fn right_lines(lines: Seq<(ChangeKind, Seq<u8>)>, n: int) -> Seq<Seq<u8>>
    decreases n,
{
    if n <= 0 || n > lines.len() {
        Seq::empty()
    } else if lines[n - 1].0 == ChangeKind::Delete {
        right_lines(lines, n - 1)
    } else {
        right_lines(lines, n - 1).push(lines[n - 1].1)
    }
}

/// The byte ends a line: it is a line feed or a carriage return.
pub open spec fn is_line_end(byte: u8) -> bool {
    byte == 10 || byte == 13
}

/// `line` is one line: it is not empty, and no line ends before its end.
/// A line feed stands last only, and a carriage return stands last or
/// before a line feed that stands last.
pub open spec fn is_one_line(line: Seq<u8>) -> bool {
    &&& line.len() > 0
    &&& forall|i: int|
        0 <= i < line.len() - 1 ==> {
            &&& #[trigger] line[i] != 10
            &&& line[i] == 13 ==> i == line.len() - 2 && line[line.len() - 1] == 10
        }
}

/// `parts` are the lines of the file that they make up: each is one line,
/// each but the last ends with its line end (a line feed, a carriage return
/// and a line feed, or a carriage return alone), and a line feed that
/// follows a carriage return belongs to the line of the carriage return.
pub open spec fn are_lines(parts: Seq<Seq<u8>>) -> bool {
    forall|k: int|
        0 <= k < parts.len() ==> {
            &&& is_one_line(#[trigger] parts[k])
            &&& k + 1 < parts.len() ==> is_line_end(parts[k].last()) && !(parts[k].last() == 13
                && parts[k + 1][0] == 10)
        }
}

/// `lines` is a diff of `left` and `right`: no line is empty, the equal and
/// deleted lines make up `left` and are its lines, and the equal and
/// inserted lines make up `right` and are its lines.
pub open spec fn is_diff_of(
    lines: Seq<(ChangeKind, Seq<u8>)>,
    left: Seq<u8>,
    right: Seq<u8>,
) -> bool {
    &&& forall|i: int| 0 <= i < lines.len() ==> (#[trigger] lines[i]).1.len() > 0
    &&& left_text(lines, lines.len() as int) == left
    &&& right_text(lines, lines.len() as int) == right
    &&& are_lines(left_lines(lines, lines.len() as int))
    &&& are_lines(right_lines(lines, lines.len() as int))
}

/// No line is an insertion or a deletion.
pub open spec fn all_equal(kinds: Seq<ChangeKind>) -> bool {
    forall|i: int| 0 <= i < kinds.len() ==> kinds[i] == ChangeKind::Equal
}

/// `similar::TextDiff::from_lines(left, right).iter_all_changes()`, each
/// change as its kind and its line.  A line is a slice of the buffer it
/// comes from (`Bytes::slice_ref`): of `left` for equal and deleted lines, of
/// `right` for inserted ones.  The contract names the result and states
/// three things of it.  It is a diff of the two files: the changes list
/// every line of the old file as equal or deleted and every line of the new
/// file as equal or inserted, in the order of the files.  The lines are
/// those that the crate's tokenizer cuts: a line ends after a line feed,
/// after a carriage return and the line feed that follows it, after a
/// carriage return that no line feed follows, or at the end of its file, and
/// holds no line end before that.  And the diff of a file with itself holds
/// equal lines only: the algorithm matches the common prefix of its inputs
/// first, which is then all of both.
#[verifier::external_body]
pub(crate) fn diff_lines(left: &Bytes, right: &Bytes) -> (changes: Vec<(ChangeKind, Bytes)>)
    ensures
        change_views(changes@) == line_changes(contents(*left), contents(*right)),
        is_diff_of(change_views(changes@), contents(*left), contents(*right)),
        contents(*left) == contents(*right) ==> all_equal(kinds_of(changes@)),
{
    let diff = TextDiff::from_lines(&left[..], &right[..]);
    diff.iter_all_changes().map(
        |change|
            match change.tag() {
                ChangeTag::Equal => (ChangeKind::Equal, left.slice_ref(change.value())),
                ChangeTag::Delete => (ChangeKind::Delete, left.slice_ref(change.value())),
                ChangeTag::Insert => (ChangeKind::Insert, right.slice_ref(change.value())),
            },
    ).collect()
}

/// Counts the inserted and the removed lines of a change sequence.
pub fn count_changes<T>(changes: &[(ChangeKind, T)]) -> (counts: (usize, usize))
    ensures
        counts.0 == count_kind(kinds_of(changes@), ChangeKind::Insert, changes@.len() as int),
        counts.1 == count_kind(kinds_of(changes@), ChangeKind::Delete, changes@.len() as int),
{
    let ghost kinds = kinds_of(changes@);
    let mut insertions: usize = 0;
    let mut deletions: usize = 0;
    let mut i: usize = 0;
    while i < changes.len()
        invariant
            i <= changes.len(),
            kinds == kinds_of(changes@),
            insertions == count_kind(kinds, ChangeKind::Insert, i as int),
            deletions == count_kind(kinds, ChangeKind::Delete, i as int),
        decreases changes.len() - i,
    {
        proof {
            lemma_count_bound(kinds, ChangeKind::Insert, i as int);
            lemma_count_bound(kinds, ChangeKind::Delete, i as int);
        }
        let kind = changes[i].0;
        match kind {
            ChangeKind::Equal => {},
            ChangeKind::Delete => {
                deletions = deletions + 1;
            },
            ChangeKind::Insert => {
                insertions = insertions + 1;
            },
        }
        i = i + 1;
    }
    (insertions, deletions)
}

/// Where the lines that the left file holds make up nothing, every line is
/// an insertion.
pub proof fn lemma_left_empty(lines: Seq<(ChangeKind, Seq<u8>)>, n: int)
    requires
        0 <= n <= lines.len(),
        forall|i: int| 0 <= i < lines.len() ==> (#[trigger] lines[i]).1.len() > 0,
        left_text(lines, n).len() == 0,
    ensures
        forall|i: int| 0 <= i < n ==> (#[trigger] lines[i]).0 == ChangeKind::Insert,
    decreases n,
{
    if n > 0 {
        lemma_left_empty(lines, n - 1);
    }
}

/// Where the lines that the right file holds make up nothing, every line
/// is a deletion.
pub proof fn lemma_right_empty(lines: Seq<(ChangeKind, Seq<u8>)>, n: int)
    requires
        0 <= n <= lines.len(),
        forall|i: int| 0 <= i < lines.len() ==> (#[trigger] lines[i]).1.len() > 0,
        right_text(lines, n).len() == 0,
    ensures
        forall|i: int| 0 <= i < n ==> (#[trigger] lines[i]).0 == ChangeKind::Delete,
    decreases n,
{
    if n > 0 {
        lemma_right_empty(lines, n - 1);
    }
}

/// A diff without insertions and deletions counts none.
pub proof fn lemma_all_equal_counts(kinds: Seq<ChangeKind>, n: int)
    requires
        all_equal(kinds),
        0 <= n <= kinds.len(),
    ensures
        count_kind(kinds, ChangeKind::Insert, n) == 0,
        count_kind(kinds, ChangeKind::Delete, n) == 0,
    decreases n,
{
    if n > 0 {
        lemma_all_equal_counts(kinds, n - 1);
    }
}

/// A diff without insertions and deletions has no window.
pub proof fn lemma_all_equal_schedule(hunks: Seq<ChunkInfo>, kinds: Seq<ChangeKind>, context: nat)
    requires
        all_equal(kinds),
        is_schedule(hunks, kinds, context),
    ensures
        hunks.len() == 0,
{
    if hunks.len() > 0 {
        let x = hunks[0].range.start as int;
        assert(covered(hunks, x));
        let i = choose|i: int|
            #![trigger is_change(kinds, i)]
            is_change(kinds, i) && i - context <= x <= i + context;
        assert(kinds[i] == ChangeKind::Equal);
    }
}

/// The line diff of one file.
#[derive(Clone, Debug, PartialEq, Eq)]
pub struct FileDiff {
    /// Every line of the two files, in diff order.
    pub changes: Vec<(ChangeKind, Bytes)>,
    /// The windows of `changes` that are shown expanded.
    pub context_ranges: Vec<ChunkInfo>,
    /// Inserted and removed lines of this file.
    pub summary: Changes,
}

impl Default for FileDiff {
    fn default() -> (diff: Self)
        ensures
            diff.changes@.len() == 0,
            diff.context_ranges@.len() == 0,
            diff.summary == Changes::zero(),
    {
        FileDiff {
            changes: Vec::new(),
            context_ranges: Vec::new(),
            summary: Changes { added: 0, removed: 0 },
        }
    }
}

impl FileDiff {
    /// The kinds of the lines, in diff order.
    pub open spec fn kinds(self) -> Seq<ChangeKind> {
        kinds_of(self.changes@)
    }

    /// The windows are the schedule of the changes for `context` lines of
    /// context, and the summary counts the insertions and deletions.
    pub open spec fn wf(self, context: nat) -> bool {
        &&& is_schedule(self.context_ranges@, self.kinds(), context)
        &&& self.summary.added == count_kind(
            self.kinds(),
            ChangeKind::Insert,
            self.changes@.len() as int,
        )
        &&& self.summary.removed == count_kind(
            self.kinds(),
            ChangeKind::Delete,
            self.changes@.len() as int,
        )
    }

    /// Schedules the windows of a change sequence and counts its changes.
    pub fn from_changes(changes: Vec<(ChangeKind, Bytes)>, context_lines: usize) -> (diff: Self)
        ensures
            diff.changes == changes,
            diff.wf(context_lines as nat),
    {
        let context_ranges = context_hunks(changes.as_slice(), context_lines);
        let (insertions, deletions) = count_changes(changes.as_slice());
        FileDiff {
            changes,
            context_ranges,
            summary: Changes { added: insertions as u64, removed: deletions as u64 },
        }
    }

    /// Diffs two files line by line, keeping `context_lines` lines of
    /// context around every change.
    pub fn compute(left: &Bytes, right: &Bytes, context_lines: usize) -> (diff: Self)
        ensures
            change_views(diff.changes@) == line_changes(contents(*left), contents(*right)),
            is_diff_of(change_views(diff.changes@), contents(*left), contents(*right)),
            diff.wf(context_lines as nat),
            contents(*left) == contents(*right) ==> {
                &&& all_equal(diff.kinds())
                &&& diff.context_ranges@.len() == 0
                &&& diff.summary == Changes::zero()
            },
            contents(*left).len() == 0 ==> forall|i: int|
                0 <= i < diff.changes@.len() ==> (#[trigger] diff.changes@[i]).0
                    == ChangeKind::Insert,
            contents(*right).len() == 0 ==> forall|i: int|
                0 <= i < diff.changes@.len() ==> (#[trigger] diff.changes@[i]).0
                    == ChangeKind::Delete,
    {
        let changes = diff_lines(left, right);
        let diff = FileDiff::from_changes(changes, context_lines);
        proof {
            let lines = change_views(diff.changes@);
            if contents(*left) == contents(*right) {
                lemma_all_equal_counts(diff.kinds(), diff.changes@.len() as int);
                lemma_all_equal_schedule(diff.context_ranges@, diff.kinds(), context_lines as nat);
            }
            if contents(*left).len() == 0 {
                lemma_left_empty(lines, lines.len() as int);
                assert forall|i: int| 0 <= i < diff.changes@.len() implies (
                #[trigger] diff.changes@[i]).0 == ChangeKind::Insert by {
                    assert(lines[i].0 == ChangeKind::Insert);
                }
            }
            if contents(*right).len() == 0 {
                lemma_right_empty(lines, lines.len() as int);
                assert forall|i: int| 0 <= i < diff.changes@.len() implies (
                #[trigger] diff.changes@[i]).0 == ChangeKind::Delete by {
                    assert(lines[i].0 == ChangeKind::Delete);
                }
            }
        }
        diff
    }
}

} // verus!
