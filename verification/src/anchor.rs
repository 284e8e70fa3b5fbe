//! Line numbers of a group of diff lines, and the anchors that point at
//! them.

use crate::hunk::{kinds_of, left_line, lemma_count_bound, right_line, ChangeKind};
use crate::path::after_prefix;
use vstd::prelude::*;

verus! {

/// The character is a decimal digit.
pub open spec fn is_digit(c: char) -> bool {
    '0' <= c <= '9'
}

/// The number that the first `n` characters of a text of digits spell.
pub open spec fn digits_value(digits: Seq<char>, n: int) -> int
    decreases n,
{
    if n <= 0 || n > digits.len() {
        0
    } else {
        digits_value(digits, n - 1) * 10 + (digits[n - 1] as int - '0' as int)
    }
}

/// The digits of a number as it is written: the text without the plus sign
/// that it may start with.
pub open spec fn unsigned_part(text: Seq<char>) -> Seq<char> {
    if text.len() > 0 && text[0] == '+' {
        text.skip(1)
    } else {
        text
    }
}

/// The number that a text spells: the text is a plus sign, or none, and
/// then one decimal digit or more, and the number fits in a `u64`.  Nothing
/// where the text is no such number.
pub open spec fn decimal(text: Seq<char>) -> Option<u64> {
    let digits = unsigned_part(text);
    if digits.len() > 0 && (forall|i: int| 0 <= i < digits.len() ==> is_digit(#[trigger] digits[i]))
        && digits_value(digits, digits.len() as int) <= u64::MAX {
        Some(digits_value(digits, digits.len() as int) as u64)
    } else {
        None
    }
}

/// A text of digits spells no negative number.
proof fn lemma_digits_positive(digits: Seq<char>, n: int)
    requires
        0 <= n <= digits.len(),
        forall|i: int| 0 <= i < digits.len() ==> is_digit(#[trigger] digits[i]),
    ensures
        0 <= digits_value(digits, n),
    decreases n,
{
    if n > 0 {
        lemma_digits_positive(digits, n - 1);
    }
}

/// The number spelled by a text of digits does not get smaller as more
/// digits are read.
proof fn lemma_digits_grow(digits: Seq<char>, n: int, m: int)
    requires
        0 <= n <= m <= digits.len(),
        forall|i: int| 0 <= i < digits.len() ==> is_digit(#[trigger] digits[i]),
    ensures
        digits_value(digits, n) <= digits_value(digits, m),
    decreases m - n,
{
    if n < m {
        lemma_digits_grow(digits, n, m - 1);
        lemma_digits_positive(digits, m - 1);
    }
}

/// Reads a number as `u64::from_str` does.
pub fn number_of(text: &str) -> (number: Option<u64>)
    ensures
        number == decimal(text@),
{
    let count = text.unicode_len();
    let start: usize = if count > 0 && text.get_char(0) == '+' {
        1
    } else {
        0
    };
    let ghost digits = unsigned_part(text@);
    if start == count {
        return None;
    }
    let mut value: u64 = 0;
    let mut n: usize = start;
    while n < count
        invariant
            start <= n <= count,
            count == text@.len(),
            start <= 1,
            digits == unsigned_part(text@),
            digits.len() == count - start,
            forall|i: int| 0 <= i < digits.len() ==> digits[i] == text@[i + start],
            forall|i: int| 0 <= i < n - start ==> is_digit(#[trigger] digits[i]),
            value == digits_value(digits, n - start),
        decreases count - n,
    {
        let c = text.get_char(n);
        if c < '0' || c > '9' {
            assert(!is_digit(digits[n - start]));
            return None;
        }
        let digit = (c as u32 - '0' as u32) as u64;
        if value > (u64::MAX - digit) / 10 {
            proof {
                if forall|i: int| 0 <= i < digits.len() ==> is_digit(#[trigger] digits[i]) {
                    lemma_digits_grow(digits, n - start + 1, digits.len() as int);
                }
            }
            return None;
        }
        value = value * 10 + digit;
        n = n + 1;
    }
    Some(value)
}

/// A line of a diff by its three numbers: in the diff, in the left file and
/// in the right file.
#[derive(Clone, Copy, Debug, PartialEq, Eq, Structural)]
pub struct ChangeFileIdx {
    pub overall: usize,
    pub left: usize,
    pub right: usize,
}

impl core::ops::Add<usize> for ChangeFileIdx {
    type Output = ChangeFileIdx;

    fn add(self, rhs: usize) -> (moved: ChangeFileIdx) {
        ChangeFileIdx {
            overall: self.overall + rhs,
            left: self.left + rhs,
            right: self.right + rhs,
        }
    }
}

impl vstd::std_specs::ops::AddSpecImpl<usize> for ChangeFileIdx {
    open spec fn obeys_add_spec() -> bool {
        true
    }

    open spec fn add_req(self, rhs: usize) -> bool {
        self.overall + rhs <= usize::MAX && self.left + rhs <= usize::MAX && self.right + rhs
            <= usize::MAX
    }

    open spec fn add_spec(self, rhs: usize) -> ChangeFileIdx {
        ChangeFileIdx {
            overall: (self.overall + rhs) as usize,
            left: (self.left + rhs) as usize,
            right: (self.right + rhs) as usize,
        }
    }
}

impl core::ops::Sub<usize> for ChangeFileIdx {
    type Output = ChangeFileIdx;

    fn sub(self, rhs: usize) -> (moved: ChangeFileIdx) {
        ChangeFileIdx {
            overall: self.overall.saturating_sub(rhs),
            left: self.left.saturating_sub(rhs),
            right: self.right.saturating_sub(rhs),
        }
    }
}

/// `n - by`, or zero where `by` is the larger.
pub open spec fn back(n: usize, by: usize) -> usize {
    if n >= by {
        (n - by) as usize
    } else {
        0usize
    }
}

impl vstd::std_specs::ops::SubSpecImpl<usize> for ChangeFileIdx {
    open spec fn obeys_sub_spec() -> bool {
        true
    }

    open spec fn sub_req(self, rhs: usize) -> bool {
        true
    }

    open spec fn sub_spec(self, rhs: usize) -> ChangeFileIdx {
        ChangeFileIdx {
            overall: back(self.overall, rhs),
            left: back(self.left, rhs),
            right: back(self.right, rhs),
        }
    }
}

/// The numbers shown beside line `n` of a group of diff lines whose first
/// line stands at `left` in the left file and at `right` in the right file:
/// the line's number in each file that holds it, which is the number of the
/// first line and the lines of that file before line `n`.
pub open spec fn numbers_at(kinds: Seq<ChangeKind>, n: int, left: usize, right: usize) -> (
    Option<usize>,
    Option<usize>,
) {
    (
        if kinds[n] == ChangeKind::Insert {
            None
        } else {
            Some((left + left_line(kinds, n)) as usize)
        },
        if kinds[n] == ChangeKind::Delete {
            None
        } else {
            Some((right + right_line(kinds, n)) as usize)
        },
    )
}

/// Numbers the lines of a group: of each line its number in the left and
/// in the right file, and none for the file that does not hold it.
pub fn line_numbers<T>(group: &[(ChangeKind, T)], left: usize, right: usize) -> (numbers: Vec<
    (Option<usize>, Option<usize>),
>)
    requires
        left + group@.len() <= usize::MAX,
        right + group@.len() <= usize::MAX,
    ensures
        numbers@.len() == group@.len(),
        forall|n: int|
            0 <= n < group@.len() ==> #[trigger] numbers@[n] == numbers_at(
                kinds_of(group@),
                n,
                left,
                right,
            ),
{
    let ghost kinds = kinds_of(group@);
    let mut numbers: Vec<(Option<usize>, Option<usize>)> = Vec::new();
    let mut left_at: usize = left;
    let mut right_at: usize = right;
    let mut n: usize = 0;
    while n < group.len()
        invariant
            n <= group@.len(),
            kinds == kinds_of(group@),
            left + group@.len() <= usize::MAX,
            right + group@.len() <= usize::MAX,
            numbers@.len() == n,
            left_at == left + left_line(kinds, n as int),
            right_at == right + right_line(kinds, n as int),
            forall|i: int| 0 <= i < n ==> #[trigger] numbers@[i] == numbers_at(kinds, i, left, right),
        decreases group.len() - n,
    {
        proof {
            lemma_count_bound(kinds, ChangeKind::Insert, n as int);
            lemma_count_bound(kinds, ChangeKind::Delete, n as int);
            lemma_count_bound(kinds, ChangeKind::Insert, n + 1);
            lemma_count_bound(kinds, ChangeKind::Delete, n + 1);
        }
        match group[n].0 {
            ChangeKind::Delete => {
                numbers.push((Some(left_at), None));
                left_at = left_at + 1;
            },
            ChangeKind::Insert => {
                numbers.push((None, Some(right_at)));
                right_at = right_at + 1;
            },
            ChangeKind::Equal => {
                numbers.push((Some(left_at), Some(right_at)));
                left_at = left_at + 1;
                right_at = right_at + 1;
            },
        }
        n = n + 1;
    }
    numbers
}

/// The anchor `location` points at a line of the group from `start` to
/// `end`: it is `#R` and a line number of the right file, or `#L` and one of
/// the left file, and the number lies between those of the two ends.
pub open spec fn points_into(
    location: Seq<char>,
    start: ChangeFileIdx,
    end: ChangeFileIdx,
) -> bool {
    if "#R"@.is_prefix_of(location) {
        match decimal(location.skip("#R"@.len() as int)) {
            Some(id) => start.right <= id <= end.right,
            None => false,
        }
    } else if "#L"@.is_prefix_of(location) {
        match decimal(location.skip("#L"@.len() as int)) {
            Some(id) => start.left <= id <= end.left,
            None => false,
        }
    } else {
        false
    }
}

/// Does the anchor point at a line of the group from `start` to `end`?
pub fn is_location_in_range(location: &str, start: ChangeFileIdx, end: ChangeFileIdx) -> (inside:
    bool)
    ensures
        inside == points_into(location@, start, end),
{
    if let Some(id_text) = after_prefix(location, "#R") {
        assert(location@.skip("#R"@.len() as int) =~= id_text@);
        match number_of(id_text) {
            Some(id) => id >= start.right as u64 && id <= end.right as u64,
            None => false,
        }
    } else if let Some(id_text) = after_prefix(location, "#L") {
        assert(location@.skip("#L"@.len() as int) =~= id_text@);
        match number_of(id_text) {
            Some(id) => id >= start.left as u64 && id <= end.left as u64,
            None => false,
        }
    } else {
        false
    }
}

} // verus!
