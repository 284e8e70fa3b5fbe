//! Change kinds, change counting and the context-window schedule of a diff.

use core::ops::Range;
use vstd::prelude::*;

verus! {

/// How one line of a diff relates the two compared files.
#[derive(Clone, Copy, Debug, PartialEq, Eq, Structural)]
pub enum ChangeKind {
    /// The line is present in both files.
    Equal,
    /// The line is present in the left file only.
    Delete,
    /// The line is present in the right file only.
    Insert,
}

/// A window `[range.start, range.end)` of diff lines that is shown expanded,
/// with the line numbers that its first line has in the left and the right
/// file.
#[derive(Debug, PartialEq, Eq)]
pub struct ChunkInfo {
    pub range: Range<usize>,
    pub left_start: usize,
    pub right_start: usize,
}

impl Clone for ChunkInfo {
    fn clone(&self) -> (res: Self)
        ensures
            res == *self,
    {
        ChunkInfo {
            range: Range { start: self.range.start, end: self.range.end },
            left_start: self.left_start,
            right_start: self.right_start,
        }
    }
}

impl Default for ChunkInfo {
    fn default() -> (chunk: Self)
        ensures
            chunk.range.start == 0,
            chunk.range.end == 0,
            chunk.left_start == 0,
            chunk.right_start == 0,
    {
        ChunkInfo { range: Range { start: 0, end: 0 }, left_start: 0, right_start: 0 }
    }
}

impl From<(Range<usize>, usize, usize)> for ChunkInfo {
    fn from(parts: (Range<usize>, usize, usize)) -> (chunk: Self) {
        ChunkInfo { range: parts.0, left_start: parts.1, right_start: parts.2 }
    }
}

impl vstd::std_specs::convert::FromSpecImpl<(Range<usize>, usize, usize)> for ChunkInfo {
    open spec fn obeys_from_spec() -> bool {
        true
    }

    open spec fn from_spec(parts: (Range<usize>, usize, usize)) -> ChunkInfo {
        ChunkInfo { range: parts.0, left_start: parts.1, right_start: parts.2 }
    }
}

impl ChunkInfo {
    /// First diff line of the window.
    pub fn start(&self) -> (start: usize)
        ensures
            start == self.range.start,
    {
        self.range.start
    }

    /// One past the last diff line of the window.
    pub fn end(&self) -> (end: usize)
        ensures
            end == self.range.end,
    {
        self.range.end
    }
}

/// The kinds of a change sequence, payloads dropped.
pub open spec fn kinds_of<T>(changes: Seq<(ChangeKind, T)>) -> Seq<ChangeKind> {
    Seq::new(changes.len(), |i: int| changes[i].0)
}

/// Line `i` of the diff is an insertion or a deletion.
pub open spec fn is_change(kinds: Seq<ChangeKind>, i: int) -> bool {
    0 <= i < kinds.len() && kinds[i] != ChangeKind::Equal
}

/// Number of lines among the first `n` that are of kind `kind`.
pub open spec fn count_kind(kinds: Seq<ChangeKind>, kind: ChangeKind, n: int) -> nat
    decreases n,
{
    if n <= 0 || n > kinds.len() {
        0
    } else {
        count_kind(kinds, kind, n - 1) + if kinds[n - 1] == kind {
            1nat
        } else {
            0nat
        }
    }
}

/// Line number in the left file of diff line `n`: the lines before it that
/// the left file holds.
pub open spec fn left_line(kinds: Seq<ChangeKind>, n: int) -> int {
    n - count_kind(kinds, ChangeKind::Insert, n)
}

/// Line number in the right file of diff line `n`: the lines before it that
/// the right file holds.
pub open spec fn right_line(kinds: Seq<ChangeKind>, n: int) -> int {
    n - count_kind(kinds, ChangeKind::Delete, n)
}

/// Diff line `x` lies within `context` lines of a changed line.
pub open spec fn near_change(kinds: Seq<ChangeKind>, context: nat, x: int) -> bool {
    0 <= x < kinds.len() && exists|i: int|
        #![trigger is_change(kinds, i)]
        is_change(kinds, i) && i - context <= x <= i + context
}

/// Diff line `x` lies in one of the windows.
pub open spec fn covered(hunks: Seq<ChunkInfo>, x: int) -> bool {
    exists|k: int|
        #![trigger hunks[k]]
        0 <= k < hunks.len() && hunks[k].range.start <= x < hunks[k].range.end
}

/// `hunks` is the window schedule of a diff with the given kinds: the
/// windows are non-empty, lie inside the diff, come in ascending order with a
/// gap of at least one line between neighbours, cover exactly the lines that
/// lie within `context` lines of a change, and carry the line numbers of
/// their first line.
pub open spec fn is_schedule(hunks: Seq<ChunkInfo>, kinds: Seq<ChangeKind>, context: nat) -> bool {
    &&& forall|k: int|
        #![trigger hunks[k]]
        0 <= k < hunks.len() ==> {
            &&& hunks[k].range.start < hunks[k].range.end <= kinds.len()
            &&& hunks[k].left_start == left_line(kinds, hunks[k].range.start as int)
            &&& hunks[k].right_start == right_line(kinds, hunks[k].range.start as int)
        }
    &&& forall|j: int, k: int|
        #![trigger hunks[j], hunks[k]]
        0 <= j < k < hunks.len() ==> hunks[j].range.end < hunks[k].range.start
    &&& forall|x: int|
        #![trigger covered(hunks, x)]
        0 <= x < kinds.len() ==> (covered(hunks, x) <==> near_change(kinds, context, x))
}

/// Diff line `x` lies in one of the finished windows or in the window that is
/// still growing.
spec fn shown(hunks: Seq<ChunkInfo>, open: bool, start: int, end: int, x: int) -> bool {
    covered(hunks, x) || (open && start <= x < end)
}

/// Some change among the first `bound` lines lies within `context` lines of
/// diff line `x`.
spec fn near_before(kinds: Seq<ChangeKind>, context: nat, x: int, bound: int) -> bool {
    exists|i: int|
        #![trigger is_change(kinds, i)]
        is_change(kinds, i) && i < bound && i - context <= x <= i + context
}

proof fn lemma_near_step(kinds: Seq<ChangeKind>, context: nat, x: int, bound: int)
    ensures
        near_before(kinds, context, x, bound + 1) <==> near_before(kinds, context, x, bound) || (
        is_change(kinds, bound) && bound - context <= x <= bound + context),
{
}

proof fn lemma_covered_push(hunks: Seq<ChunkInfo>, hunk: ChunkInfo, x: int)
    ensures
        covered(hunks.push(hunk), x) <==> covered(hunks, x) || hunk.range.start <= x
            < hunk.range.end,
{
    let more = hunks.push(hunk);
    if covered(hunks, x) {
        let k = choose|k: int|
            #![trigger hunks[k]]
            0 <= k < hunks.len() && hunks[k].range.start <= x < hunks[k].range.end;
        assert(more[k] == hunks[k]);
    }
    if hunk.range.start <= x < hunk.range.end {
        assert(more[hunks.len() as int] == hunk);
    }
}

/// No more than `n` of the first `n` lines are of one kind.
pub proof fn lemma_count_bound(kinds: Seq<ChangeKind>, kind: ChangeKind, n: int)
    requires
        0 <= n <= kinds.len(),
    ensures
        count_kind(kinds, kind, n) <= n,
    decreases n,
{
    if n > 0 {
        lemma_count_bound(kinds, kind, n - 1);
    }
}

/// Along a run of equal lines the line numbers of both sides advance with
/// the diff.
pub proof fn lemma_equal_run(kinds: Seq<ChangeKind>, a: int, b: int)
    requires
        0 <= a <= b <= kinds.len(),
        forall|j: int| a <= j < b ==> kinds[j] == ChangeKind::Equal,
    ensures
        left_line(kinds, b) - left_line(kinds, a) == b - a,
        right_line(kinds, b) - right_line(kinds, a) == b - a,
    decreases b - a,
{
    if a < b {
        lemma_equal_run(kinds, a, b - 1);
    }
}

/// Every window of one schedule of a diff is a window of every other
/// schedule of it.
proof fn lemma_window_shared(
    a: Seq<ChunkInfo>,
    b: Seq<ChunkInfo>,
    kinds: Seq<ChangeKind>,
    context: nat,
    k: int,
) -> (j: int)
    requires
        is_schedule(a, kinds, context),
        is_schedule(b, kinds, context),
        0 <= k < a.len(),
    ensures
        0 <= j < b.len(),
        b[j].range.start == a[k].range.start,
        b[j].range.end == a[k].range.end,
{
    let start = a[k].range.start as int;
    let end = a[k].range.end as int;
    assert(covered(a, start));
    assert(covered(b, start));
    let j = choose|j: int|
        #![trigger b[j]]
        0 <= j < b.len() && b[j].range.start <= start < b[j].range.end;
    if b[j].range.start < start {
        assert(covered(b, start - 1));
        assert(covered(a, start - 1));
    }
    if b[j].range.end < end {
        assert(covered(a, b[j].range.end as int));
        assert(covered(b, b[j].range.end as int));
    }
    if end < b[j].range.end {
        assert(covered(b, end));
        assert(covered(a, end));
    }
    j
}

/// Window `k` of one schedule is at an index of at least `k` in every
/// other schedule of the diff.
proof fn lemma_window_not_earlier(
    a: Seq<ChunkInfo>,
    b: Seq<ChunkInfo>,
    kinds: Seq<ChangeKind>,
    context: nat,
    k: int,
) -> (j: int)
    requires
        is_schedule(a, kinds, context),
        is_schedule(b, kinds, context),
        0 <= k < a.len(),
    ensures
        k <= j < b.len(),
        b[j].range.start == a[k].range.start,
        b[j].range.end == a[k].range.end,
    decreases k,
{
    let j = lemma_window_shared(a, b, kinds, context, k);
    if k > 0 {
        lemma_window_not_earlier(a, b, kinds, context, k - 1);
    }
    j
}

/// A diff has one schedule only: the contract of [`context_hunks`] fixes
/// its result.
pub proof fn lemma_schedule_unique(
    a: Seq<ChunkInfo>,
    b: Seq<ChunkInfo>,
    kinds: Seq<ChangeKind>,
    context: nat,
)
    requires
        is_schedule(a, kinds, context),
        is_schedule(b, kinds, context),
    ensures
        a.len() == b.len(),
        forall|k: int|
            #![trigger a[k]]
            0 <= k < a.len() ==> {
                &&& a[k].range.start == b[k].range.start
                &&& a[k].range.end == b[k].range.end
                &&& a[k].left_start == b[k].left_start
                &&& a[k].right_start == b[k].right_start
            },
{
    assert forall|k: int| 0 <= k < a.len() implies k < b.len() && (#[trigger] a[k]).range.start
        == b[k].range.start && a[k].range.end == b[k].range.end by {
        let j = lemma_window_not_earlier(a, b, kinds, context, k);
        let i = lemma_window_not_earlier(b, a, kinds, context, j);
    }
    if a.len() < b.len() {
        lemma_window_not_earlier(b, a, kinds, context, a.len() as int);
    }
    if a.len() > b.len() {
        lemma_window_not_earlier(a, b, kinds, context, a.len() - 1);
    }
}

/// First line of the window around a change at line `i`.
pub open spec fn window_start(i: int, context: nat) -> int {
    if i >= context {
        i - context
    } else {
        0
    }
}

/// One past the last line of the window around a change at line `i` of a
/// diff of `len` lines.
pub open spec fn window_end(i: int, context: nat, len: int) -> int {
    if i + context + 1 <= len {
        i + context + 1
    } else {
        len
    }
}

/// Computes the windows of a diff that are shown expanded: around every
/// insertion and deletion `context_lines` lines on either side, clipped to
/// the diff, windows that overlap or touch merged into one.
pub fn context_hunks<T>(changes: &[(ChangeKind, T)], context_lines: usize) -> (hunks: Vec<
    ChunkInfo,
>)
    ensures
        is_schedule(hunks@, kinds_of(changes@), context_lines as nat),
{
    let n: usize = changes.len();
    let ghost kinds = kinds_of(changes@);
    let ghost context = context_lines as nat;
    let mut hunks: Vec<ChunkInfo> = Vec::new();
    let mut open: bool = false;
    let mut start: usize = 0;
    let mut end: usize = 0;
    let mut left_start: usize = 0;
    let mut right_start: usize = 0;
    let mut left: usize = 0;
    let mut right: usize = 0;
    let ghost mut last: int = -1;
    let mut i: usize = 0;
    while i < n
        invariant
            n == changes.len(),
            kinds == kinds_of(changes@),
            context == context_lines as nat,
            i <= n,
            left == left_line(kinds, i as int),
            right == right_line(kinds, i as int),
            left <= i,
            right <= i,
            open <==> last >= 0,
            !open ==> hunks@.len() == 0,
            -1 <= last < i,
            last >= 0 ==> is_change(kinds, last),
            forall|j: int| last < j < i ==> kinds[j] == ChangeKind::Equal,
            forall|k: int|
                #![trigger hunks@[k]]
                0 <= k < hunks@.len() ==> {
                    &&& hunks@[k].range.start < hunks@[k].range.end <= n
                    &&& hunks@[k].left_start == left_line(kinds, hunks@[k].range.start as int)
                    &&& hunks@[k].right_start == right_line(kinds, hunks@[k].range.start as int)
                    &&& open ==> hunks@[k].range.end < start
                },
            forall|j: int, k: int|
                #![trigger hunks@[j], hunks@[k]]
                0 <= j < k < hunks@.len() ==> hunks@[j].range.end < hunks@[k].range.start,
            open ==> {
                &&& start < end <= n
                &&& start <= window_start(last, context)
                &&& end == window_end(last, context, n as int)
                &&& left_start == left_line(kinds, start as int)
                &&& right_start == right_line(kinds, start as int)
            },
            forall|x: int|
                #![trigger shown(hunks@, open, start as int, end as int, x)]
                0 <= x < n ==> (shown(hunks@, open, start as int, end as int, x) <==> near_before(
                    kinds,
                    context,
                    x,
                    i as int,
                )),
        decreases n - i,
    {
        let kind = changes[i].0;
        let ghost old_hunks = hunks@;
        let ghost old_open = open;
        let ghost old_start = start;
        let ghost old_end = end;
        if kind != ChangeKind::Equal {
            let ws: usize = if i >= context_lines {
                i - context_lines
            } else {
                0
            };
            let we: usize = if context_lines < n - i {
                i + context_lines + 1
            } else {
                n
            };
            if open && ws <= end {
                end = we;
            } else {
                proof {
                    lemma_equal_run(kinds, ws as int, i as int);
                    lemma_count_bound(kinds, ChangeKind::Insert, ws as int);
                    lemma_count_bound(kinds, ChangeKind::Delete, ws as int);
                }
                if open {
                    let hunk = ChunkInfo { range: Range { start, end }, left_start, right_start };
                    hunks.push(hunk);
                }
                open = true;
                start = ws;
                end = we;
                left_start = left - (i - ws);
                right_start = right - (i - ws);
            }
            proof {
                assert forall|x: int| 0 <= x < n implies (shown(
                    hunks@,
                    open,
                    start as int,
                    end as int,
                    x,
                ) <==> near_before(kinds, context, x, i + 1)) by {
                    lemma_near_step(kinds, context, x, i as int);
                    assert(shown(old_hunks, old_open, old_start as int, old_end as int, x)
                        <==> near_before(kinds, context, x, i as int));
                    if hunks@.len() > old_hunks.len() {
                        lemma_covered_push(old_hunks, hunks@[old_hunks.len() as int], x);
                    }
                }
                last = i as int;
            }
        }
        match kind {
            ChangeKind::Equal => {
                left = left + 1;
                right = right + 1;
            },
            ChangeKind::Delete => {
                left = left + 1;
            },
            ChangeKind::Insert => {
                right = right + 1;
            },
        }
        i = i + 1;
    }
    let ghost old_hunks = hunks@;
    if open {
        let hunk = ChunkInfo { range: Range { start, end }, left_start, right_start };
        hunks.push(hunk);
    }
    proof {
        assert forall|x: int| 0 <= x < kinds.len() implies (covered(hunks@, x) <==> near_change(
            kinds,
            context,
            x,
        )) by {
            if open {
                lemma_covered_push(old_hunks, hunks@[old_hunks.len() as int], x);
            }
            assert(shown(old_hunks, open, start as int, end as int, x) <==> near_before(
                kinds,
                context,
                x,
                n as int,
            ));
        }
    }
    hunks
}

} // verus!
