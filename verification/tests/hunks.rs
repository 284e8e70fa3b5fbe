use diff_rs::file_diff::count_changes;
use diff_rs::hunk::{context_hunks, ChangeKind, ChunkInfo};

fn kinds_with_changes(len: usize, changed: &[usize]) -> Vec<(ChangeKind, ())> {
    (0..len)
        .map(|i| {
            if changed.contains(&i) {
                (ChangeKind::Insert, ())
            } else {
                (ChangeKind::Equal, ())
            }
        })
        .collect()
}

fn ranges(hunks: &[ChunkInfo]) -> Vec<(usize, usize)> {
    hunks.iter().map(|hunk| (hunk.start(), hunk.end())).collect()
}

#[test]
fn distant_changes_give_two_hunks() {
    let changes = kinds_with_changes(50, &[5, 40]);
    let hunks = context_hunks(&changes, 3);
    assert_eq!(ranges(&hunks), vec![(2, 9), (37, 44)]);
}

#[test]
fn close_changes_merge_into_one_hunk() {
    let changes = kinds_with_changes(50, &[5, 10]);
    let hunks = context_hunks(&changes, 3);
    assert_eq!(ranges(&hunks), vec![(2, 14)]);
}

#[test]
fn touching_windows_merge() {
    // windows [2, 9) and [9, 16) touch
    let hunks = context_hunks(&kinds_with_changes(50, &[5, 12]), 3);
    assert_eq!(ranges(&hunks), vec![(2, 16)]);
    // windows [2, 9) and [10, 17) leave line 9 between them
    let hunks = context_hunks(&kinds_with_changes(50, &[5, 13]), 3);
    assert_eq!(ranges(&hunks), vec![(2, 9), (10, 17)]);
}

#[test]
fn windows_are_clipped_to_the_diff() {
    let hunks = context_hunks(&kinds_with_changes(6, &[1, 5]), 3);
    assert_eq!(ranges(&hunks), vec![(0, 6)]);
    let hunks = context_hunks(&kinds_with_changes(3, &[1]), usize::MAX);
    assert_eq!(ranges(&hunks), vec![(0, 3)]);
    let hunks = context_hunks(&kinds_with_changes(10, &[4]), 0);
    assert_eq!(ranges(&hunks), vec![(4, 5)]);
}

#[test]
fn no_change_gives_no_hunk() {
    assert!(context_hunks(&kinds_with_changes(20, &[]), 3).is_empty());
    assert!(context_hunks(&kinds_with_changes(0, &[]), 3).is_empty());
}

#[test]
fn hunks_carry_the_line_numbers_of_both_sides() {
    let mut changes = kinds_with_changes(40, &[]);
    changes[2].0 = ChangeKind::Delete;
    changes[3].0 = ChangeKind::Delete;
    changes[4].0 = ChangeKind::Insert;
    changes[30].0 = ChangeKind::Insert;
    let hunks = context_hunks(&changes, 3);
    assert_eq!(ranges(&hunks), vec![(0, 8), (27, 34)]);
    assert_eq!((hunks[0].left_start, hunks[0].right_start), (0, 0));
    // before line 27: one insertion and two deletions
    assert_eq!((hunks[1].left_start, hunks[1].right_start), (26, 25));
    assert_eq!(count_changes(&changes), (2, 2));
    assert_eq!(hunks[1].clone(), hunks[1]);
}
