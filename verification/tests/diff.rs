use bytes::Bytes;
use diff_rs::archive::CrateSource;
use diff_rs::changes::Changes;
use diff_rs::file_diff::FileDiff;
use diff_rs::hunk::ChangeKind;
use diff_rs::registry::VersionInfo;
use diff_rs::text_map::TextMap;
use diff_rs::tree::{Entry, Item, State};
use diff_rs::version_diff::{VersionDiff, CONTEXT_LINES};
use std::sync::Arc;

fn store(krate: &str, number: &str, files: &[(&str, &'static [u8])]) -> Arc<CrateSource> {
    let mut map: TextMap<Bytes> = TextMap::new();
    for (path, data) in files {
        map.insert(path.to_string(), Bytes::from_static(data));
    }
    Arc::new(CrateSource {
        version: VersionInfo {
            checksum: vec![],
            krate: krate.to_string(),
            dl_path: String::new(),
            yanked: false,
            version: number.to_string(),
        },
        files: map,
    })
}

fn lines(diff: &FileDiff) -> Vec<(ChangeKind, &[u8])> {
    diff.changes.iter().map(|(kind, line)| (*kind, &line[..])).collect()
}

fn child<'a>(entry: &'a Entry, name: &str) -> &'a Entry {
    match &entry.item {
        Item::Dir(entries) => entries.get(name).unwrap(),
        Item::File => panic!("{} is a file", entry.name),
    }
}

fn names(entry: &Entry) -> Vec<String> {
    match &entry.item {
        Item::Dir(entries) => entries.slots.iter().map(|slot| slot.key.clone()).collect(),
        Item::File => vec![],
    }
}

#[test]
fn diff_of_two_versions_of_one_file() {
    let left = store("p", "1.0.0", &[("src/lib.rs", b"a\nb\nc\n")]);
    let right = store("p", "1.1.0", &[("src/lib.rs", b"a\nB\nc\nd\n")]);
    let diff = VersionDiff::new(left, right);
    let file = diff.files.get("src/lib.rs").unwrap();
    assert_eq!(
        lines(file),
        vec![
            (ChangeKind::Equal, &b"a\n"[..]),
            (ChangeKind::Delete, &b"b\n"[..]),
            (ChangeKind::Insert, &b"B\n"[..]),
            (ChangeKind::Equal, &b"c\n"[..]),
            (ChangeKind::Insert, &b"d\n"[..]),
        ]
    );
    assert_eq!(file.summary, Changes { added: 2, removed: 1 });
    assert_eq!(file.context_ranges.len(), 1);
    assert_eq!(file.context_ranges[0].start(), 0);
    assert_eq!(file.context_ranges[0].end(), 5);
    assert_eq!(file.context_ranges[0].left_start, 0);
    assert_eq!(file.context_ranges[0].right_start, 0);
}

#[test]
fn default_context_is_three_lines() {
    assert_eq!(CONTEXT_LINES, 3);
}

#[test]
fn diff_of_a_store_with_itself_shows_no_change() {
    let files: &[(&str, &'static [u8])] =
        &[("Cargo.toml", b"[package]\nname = \"p\"\n"), ("src/lib.rs", b"a\nb\nc\n"), ("empty", b"")];
    let left = store("p", "1.0.0", files);
    let diff = VersionDiff::compute(left.clone(), left, 2);
    assert_eq!(diff.files.len(), 3);
    for slot in &diff.files.slots {
        assert!(slot.value.changes.iter().all(|(kind, _)| *kind == ChangeKind::Equal));
        assert_eq!(slot.value.summary, Changes { added: 0, removed: 0 });
        assert!(slot.value.context_ranges.is_empty());
    }
    for slot in &diff.summary.slots {
        assert_eq!(slot.value, (0, 0));
    }
    assert_eq!(diff.tree.changes, Changes { added: 0, removed: 0 });
    assert!(!diff.tree.has_changes());
    assert_eq!(lines(diff.files.get("src/lib.rs").unwrap()).len(), 3);
}

#[test]
fn files_are_the_union_of_both_sides() {
    let left = store("p", "1.0.0", &[("a", b"1\n"), ("both", b"x\n"), ("z/only_left", b"l\n")]);
    let right = store("p", "2.0.0", &[("b", b"2\n"), ("both", b"y\n"), ("z/only_right", b"r\n")]);
    let diff = VersionDiff::new(left, right);
    let paths: Vec<&str> = diff.files.slots.iter().map(|slot| slot.key.as_str()).collect();
    assert_eq!(paths, vec!["a", "b", "both", "z/only_left", "z/only_right"]);
    // a file that only one side holds is all deletions or all insertions
    assert_eq!(lines(diff.files.get("a").unwrap()), vec![(ChangeKind::Delete, &b"1\n"[..])]);
    assert_eq!(lines(diff.files.get("b").unwrap()), vec![(ChangeKind::Insert, &b"2\n"[..])]);
    assert_eq!(diff.files.get("both").unwrap().summary, Changes { added: 1, removed: 1 });
}

#[test]
fn summary_counts_every_ancestor() {
    let left = store("p", "1.0.0", &[("src/a/x.rs", b"1\n2\n"), ("src/b.rs", b"b\n")]);
    let right = store("p", "2.0.0", &[("src/a/x.rs", b"1\n3\n4\n"), ("README", b"r\n")]);
    let diff = VersionDiff::new(left, right);
    let summary: Vec<(&str, (usize, usize))> =
        diff.summary.slots.iter().map(|slot| (slot.key.as_str(), slot.value)).collect();
    assert_eq!(
        summary,
        vec![
            ("", (3, 2)),
            ("README", (1, 0)),
            ("src", (2, 2)),
            ("src/a", (2, 1)),
            ("src/a/x.rs", (2, 1)),
            ("src/b.rs", (0, 1)),
        ]
    );
}

#[test]
fn tree_counts_are_the_sums_of_the_entries() {
    let left = store("p", "1.0.0", &[("src/a/x.rs", b"1\n2\n"), ("src/b.rs", b"b\n")]);
    let right = store("p", "2.0.0", &[("src/a/x.rs", b"1\n3\n4\n"), ("README", b"r\n")]);
    let diff = VersionDiff::new(left, right);
    let root = &diff.tree;
    assert!(root.is_dir());
    assert_eq!(root.name, "");
    assert_eq!(names(root), vec!["README".to_string(), "src".to_string()]);
    assert_eq!(root.changes, Changes { added: 3, removed: 2 });
    let src = child(root, "src");
    assert!(src.is_dir());
    assert_eq!(src.changes, Changes { added: 2, removed: 2 });
    assert_eq!(names(src), vec!["a".to_string(), "b.rs".to_string()]);
    let x = child(child(src, "a"), "x.rs");
    assert!(!x.is_dir());
    assert_eq!(x.name, "x.rs");
    assert_eq!(x.changes, Changes { added: 2, removed: 1 });
    assert_eq!(child(src, "b.rs").changes, Changes { added: 0, removed: 1 });
    assert_eq!(child(root, "README").changes, Changes { added: 1, removed: 0 });
    assert!(child(root, "README").has_changes());
}

#[test]
fn tree_does_not_depend_on_the_order_of_insertion() {
    let files = [
        ("src/lib.rs", Changes { added: 1, removed: 2 }),
        ("src/a/b.rs", Changes { added: 3, removed: 0 }),
        ("Cargo.toml", Changes { added: 0, removed: 4 }),
        ("src/a/c.rs", Changes { added: 5, removed: 5 }),
    ];
    let mut forward = Entry::default();
    for (path, changes) in files.iter() {
        forward.insert(path, *changes);
    }
    let mut backward = Entry::default();
    for (path, changes) in files.iter().rev() {
        backward.insert(path, *changes);
    }
    assert_eq!(forward, backward);
    assert_eq!(forward.changes, Changes { added: 9, removed: 11 });
    assert_eq!(child(&forward, "src").changes, Changes { added: 9, removed: 7 });
    assert_eq!(child(child(&forward, "src"), "a").changes, Changes { added: 8, removed: 5 });
}

#[test]
fn counts_stay_at_the_largest_number() {
    let mut tree = Entry::default();
    tree.insert("a", Changes { added: u64::MAX - 1, removed: 1 });
    tree.insert("b", Changes { added: 5, removed: 1 });
    assert_eq!(tree.changes, Changes { added: u64::MAX, removed: 2 });
    assert_eq!(Changes { added: 1, removed: 2 } + Changes { added: 3, removed: 4 }, Changes {
        added: 4,
        removed: 6
    });
}

#[test]
fn new_entry_is_an_empty_directory() {
    let entry = Entry::new("src".to_string());
    assert_eq!(entry.name, "src");
    assert!(entry.item.is_dir());
    assert!(entry.is_dir());
    assert!(!Item::File.is_dir());
    assert_eq!(entry.changes, Changes::default());
    assert!(!entry.has_changes());
    assert!(names(&entry).is_empty());
}

#[test]
fn file_and_directory_of_one_name_share_a_node() {
    let left = store("p", "1.0.0", &[("a", b"1\n")]);
    let right = store("p", "2.0.0", &[("a/b", b"2\n3\n")]);
    let diff = VersionDiff::new(left, right);
    let a = child(&diff.tree, "a");
    assert!(a.is_dir());
    assert_eq!(a.changes, Changes { added: 2, removed: 1 });
    assert_eq!(child(a, "b").changes, Changes { added: 2, removed: 0 });
}

#[test]
fn windows_of_a_file_diff_follow_the_context() {
    let mut old = Vec::new();
    let mut new = Vec::new();
    for i in 0..50 {
        old.extend_from_slice(format!("line {i}\n").as_bytes());
        if i == 5 || i == 40 {
            new.extend_from_slice(format!("changed {i}\n").as_bytes());
        } else {
            new.extend_from_slice(format!("line {i}\n").as_bytes());
        }
    }
    let diff = FileDiff::compute(&Bytes::from(old), &Bytes::from(new), 3);
    // each changed line is a deletion followed by an insertion
    let ranges: Vec<(usize, usize, usize, usize)> = diff
        .context_ranges
        .iter()
        .map(|hunk| (hunk.start(), hunk.end(), hunk.left_start, hunk.right_start))
        .collect();
    assert_eq!(ranges, vec![(2, 10, 2, 2), (38, 46, 37, 37)]);
    assert_eq!(diff.summary, Changes { added: 2, removed: 2 });
    let none = FileDiff::compute(&Bytes::from_static(b"a\n"), &Bytes::from_static(b"a\n"), 3);
    assert!(none.context_ranges.is_empty());
}

/// In every directory below `entry` the count is the sum of the counts of
/// its entries.
fn sums_hold(entry: &Entry) -> bool {
    match &entry.item {
        Item::File => true,
        Item::Dir(entries) => {
            let added: u64 = entries.slots.iter().map(|slot| slot.value.changes.added).sum();
            let removed: u64 = entries.slots.iter().map(|slot| slot.value.changes.removed).sum();
            entry.changes == Changes { added, removed }
                && entries.slots.iter().all(|slot| sums_hold(&slot.value))
        }
    }
}

#[test]
fn every_directory_counts_the_sum_of_its_entries() {
    let left = store(
        "p",
        "1.0.0",
        &[("a/b/c.rs", b"1\n2\n3\n"), ("a/d.rs", b"d\n"), ("e.rs", b"e\n"), ("f/g.rs", b"g\n")],
    );
    let right = store(
        "p",
        "2.0.0",
        &[("a/b/c.rs", b"1\n3\n4\n5\n"), ("a/b/h.rs", b"h\n"), ("e.rs", b"E\n"), ("f/g.rs", b"g\n")],
    );
    let diff = VersionDiff::new(left, right);
    assert!(sums_hold(&diff.tree));
    assert!(diff.tree.is_well_formed());
    assert_eq!(diff.tree.changes, Changes { added: 4, removed: 3 });
    let walk = vec!["a".to_string(), "b".to_string()];
    assert_eq!(diff.tree.node(&walk).unwrap().changes, Changes { added: 3, removed: 1 });
    assert!(diff.tree.node(&["a".to_string(), "x".to_string()]).is_none());
    assert!(diff.tree.node(&[]).unwrap().is_dir());
    assert_eq!(diff.tree.clone(), diff.tree);
}

#[test]
fn sums_do_not_hold_where_a_file_and_a_directory_clash() {
    let left = store("p", "1.0.0", &[("a", b"1\n")]);
    let right = store("p", "2.0.0", &[("a/b", b"2\n3\n")]);
    let diff = VersionDiff::new(left, right);
    assert!(!sums_hold(&diff.tree));
    assert!(diff.tree.is_well_formed());
}

#[test]
fn sums_hold_where_the_clashing_file_is_unchanged() {
    let left = store("p", "1.0.0", &[("a", b"x\n")]);
    let right = store("p", "2.0.0", &[("a", b"x\n"), ("a/b", b"y\n")]);
    let diff = VersionDiff::new(left, right);
    assert!(sums_hold(&diff.tree));
    assert_eq!(child(&diff.tree, "a").changes, Changes { added: 1, removed: 0 });
    assert!(child(&diff.tree, "a").is_dir());
}

#[test]
fn parts_of_a_diff_are_well_formed() {
    let left = store("p", "1.0.0", &[("b", b"1\n2\n"), ("a", b"x\n")]);
    let right = store("p", "2.0.0", &[("b", b"1\n3\n"), ("c/d", b"y\n")]);
    let mut diff = VersionDiff::new(left.clone(), right);
    assert!(left.files.is_sorted());
    assert!(diff.files.is_sorted());
    assert!(diff.summary.is_sorted());
    for slot in &diff.files.slots {
        assert!(slot.value.is_scheduled(CONTEXT_LINES));
    }
    let file = &mut diff.files.slots[1].value;
    assert!(!file.is_scheduled(0));
    file.summary.added += 1;
    assert!(!file.is_scheduled(CONTEXT_LINES));
    diff.files.slots.swap(0, 2);
    assert!(!diff.files.is_sorted());
    let mut tree = Entry::default();
    tree.insert("b/x", Changes { added: 1, removed: 0 });
    tree.insert("a", Changes { added: 1, removed: 0 });
    assert!(tree.is_well_formed());
    if let Item::Dir(entries) = &mut tree.item {
        entries.slots[0].value.name = "z".to_string();
    }
    assert!(!tree.is_well_formed());
}

#[test]
fn file_on_one_side_only_is_all_insertions_or_all_deletions() {
    let gone = FileDiff::compute(&Bytes::from_static(b"a\nb\r\nc"), &Bytes::new(), 3);
    assert_eq!(
        lines(&gone),
        vec![
            (ChangeKind::Delete, &b"a\n"[..]),
            (ChangeKind::Delete, &b"b\r\n"[..]),
            (ChangeKind::Delete, &b"c"[..]),
        ]
    );
    let new = FileDiff::compute(&Bytes::new(), &Bytes::from_static(b"a\n\nb\n"), 3);
    assert_eq!(
        lines(&new),
        vec![
            (ChangeKind::Insert, &b"a\n"[..]),
            (ChangeKind::Insert, &b"\n"[..]),
            (ChangeKind::Insert, &b"b\n"[..]),
        ]
    );
    assert_eq!(new.summary, Changes { added: 3, removed: 0 });
    let nothing = FileDiff::compute(&Bytes::new(), &Bytes::new(), 3);
    assert!(nothing.changes.is_empty());
}

#[test]
fn lines_of_a_diff_make_up_both_files() {
    let old: &[u8] = b"fn main() {\n    one();\n    two();\n}\n";
    let new: &[u8] = b"fn main() {\n    two();\n    three();\n}\n// end";
    let diff = FileDiff::compute(&Bytes::from_static(old), &Bytes::from_static(new), 1);
    let mut left = Vec::new();
    let mut right = Vec::new();
    for (kind, line) in &diff.changes {
        assert!(!line.is_empty());
        if *kind != ChangeKind::Insert {
            left.extend_from_slice(line);
        }
        if *kind != ChangeKind::Delete {
            right.extend_from_slice(line);
        }
    }
    assert_eq!(left, old);
    assert_eq!(right, new);
}

/// Is `line` one line: not empty and without a line end before its end?
fn is_one_line(line: &[u8]) -> bool {
    let Some((last, before)) = line.split_last() else {
        return false;
    };
    before.iter().enumerate().all(|(i, byte)| match byte {
        b'\n' => false,
        b'\r' => i + 2 == line.len() && *last == b'\n',
        _ => true,
    })
}

/// Are `parts` the lines of the file that they make up?
fn are_lines(parts: &[&[u8]]) -> bool {
    parts.iter().all(|part| is_one_line(part))
        && parts.windows(2).all(|pair| {
            let last = *pair[0].last().unwrap();
            (last == b'\n' || last == b'\r') && !(last == b'\r' && pair[1][0] == b'\n')
        })
}

#[test]
fn every_slice_of_a_diff_is_one_line() {
    let old: &[u8] = b"one\ntwo\r\nthree\rfour\r\r\nfive\n\n\xff\xfe\nlast";
    let new: &[u8] = b"one\nTWO\r\nthree\rfour\r\r\n\nfive\n\xe2\n\r";
    let diff = FileDiff::compute(&Bytes::from_static(old), &Bytes::from_static(new), 3);
    let left: Vec<&[u8]> = diff
        .changes
        .iter()
        .filter(|(kind, _)| *kind != ChangeKind::Insert)
        .map(|(_, line)| &line[..])
        .collect();
    let right: Vec<&[u8]> = diff
        .changes
        .iter()
        .filter(|(kind, _)| *kind != ChangeKind::Delete)
        .map(|(_, line)| &line[..])
        .collect();
    assert_eq!(
        left,
        vec![
            &b"one\n"[..],
            &b"two\r\n"[..],
            &b"three\r"[..],
            &b"four\r"[..],
            &b"\r\n"[..],
            &b"five\n"[..],
            &b"\n"[..],
            &b"\xff\xfe\n"[..],
            &b"last"[..],
        ]
    );
    assert_eq!(
        right,
        vec![
            &b"one\n"[..],
            &b"TWO\r\n"[..],
            &b"three\r"[..],
            &b"four\r"[..],
            &b"\r\n"[..],
            &b"\n"[..],
            &b"five\n"[..],
            &b"\xe2\n"[..],
            &b"\r"[..],
        ]
    );
    assert!(are_lines(&left));
    assert!(are_lines(&right));
    assert_eq!(left.concat(), old);
    assert_eq!(right.concat(), new);
}

#[test]
fn a_file_that_is_counted_again_counts_its_last_changes() {
    let mut tree = Entry::default();
    tree.insert("src/lib.rs", Changes { added: 1, removed: 2 });
    tree.insert("src/lib.rs", Changes { added: 5, removed: 0 });
    let src = child(&tree, "src");
    let leaf = child(src, "lib.rs");
    assert!(!leaf.is_dir());
    assert_eq!(leaf.changes, Changes { added: 5, removed: 0 });
    assert_eq!(src.changes, Changes { added: 6, removed: 2 });
    assert_eq!(tree.changes, Changes { added: 6, removed: 2 });
}

#[test]
fn a_file_at_the_place_of_a_directory_adds_to_it() {
    let mut tree = Entry::default();
    tree.insert("a/b", Changes { added: 1, removed: 0 });
    tree.insert("a", Changes { added: 0, removed: 3 });
    let a = child(&tree, "a");
    assert!(a.is_dir());
    assert_eq!(a.changes, Changes { added: 1, removed: 3 });
    assert_eq!(child(a, "b").changes, Changes { added: 1, removed: 0 });
    let mut other = Entry::default();
    other.insert("a", Changes { added: 0, removed: 3 });
    other.insert("a/b", Changes { added: 1, removed: 0 });
    assert_eq!(tree, other);
}

/// Is every node at or below `entry` in the state `Unchanged`?
fn all_unchanged(entry: &Entry) -> bool {
    entry.state == State::Unchanged
        && match &entry.item {
            Item::File => true,
            Item::Dir(entries) => entries.slots.iter().all(|slot| all_unchanged(&slot.value)),
        }
}

#[test]
fn every_node_of_the_tree_is_unchanged_in_state() {
    let left = store("p", "1.0.0", &[("a/b", b"1\n"), ("c", b"2\n")]);
    let right = store("p", "2.0.0", &[("a/b", b"x\n"), ("d/e/f", b"3\n")]);
    let diff = VersionDiff::new(left, right);
    assert!(all_unchanged(&diff.tree));
}

#[test]
fn two_spellings_of_one_place_are_two_files_and_one_node() {
    let left = store("p", "1.0.0", &[("a//b", b"1\n"), ("a/b", b"2\n")]);
    let right = store("p", "2.0.0", &[("a//b", b"x\n"), ("a/b", b"2\n")]);
    let diff = VersionDiff::new(left, right);
    let paths: Vec<&str> = diff.files.slots.iter().map(|slot| slot.key.as_str()).collect();
    assert_eq!(paths, vec!["a//b", "a/b"]);
    assert_eq!(diff.files.get("a//b").unwrap().summary, Changes { added: 1, removed: 1 });
    assert_eq!(diff.files.get("a/b").unwrap().summary, Changes { added: 0, removed: 0 });
    let keys: Vec<&str> = diff.summary.slots.iter().map(|slot| slot.key.as_str()).collect();
    assert_eq!(keys, vec!["", "a", "a//b", "a/b"]);
    assert_eq!(diff.summary.get(""), Some(&(1, 1)));
    assert_eq!(diff.summary.get("a"), Some(&(1, 1)));
    assert_eq!(diff.summary.get("a//b"), Some(&(1, 1)));
    assert_eq!(diff.summary.get("a/b"), Some(&(0, 0)));
    assert_eq!(names(&diff.tree), vec!["a".to_string()]);
    let a = child(&diff.tree, "a");
    assert_eq!(names(a), vec!["b".to_string()]);
    assert_eq!(a.changes, Changes { added: 1, removed: 1 });
    assert_eq!(child(a, "b").changes, Changes { added: 0, removed: 0 });
    assert_eq!(diff.tree.changes, Changes { added: 1, removed: 1 });
}

#[test]
fn a_directory_is_summed_once_where_slashes_follow_one_another() {
    let left = store("p", "1.0.0", &[("src//lib.rs", b"1\n"), ("/top", b"2\n")]);
    let right = store("p", "2.0.0", &[("src//lib.rs", b"1\n2\n")]);
    let diff = VersionDiff::new(left, right);
    let keys: Vec<&str> = diff.summary.slots.iter().map(|slot| slot.key.as_str()).collect();
    assert_eq!(keys, vec!["", "/top", "src", "src//lib.rs"]);
    assert_eq!(diff.summary.get(""), Some(&(1, 1)));
    assert_eq!(diff.summary.get("/top"), Some(&(0, 1)));
    assert_eq!(diff.summary.get("src"), Some(&(1, 0)));
    assert_eq!(diff.summary.get("src//lib.rs"), Some(&(1, 0)));
    assert!(diff.summary.get("src/").is_none());
    assert_eq!(names(&diff.tree), vec!["src".to_string(), "top".to_string()]);
    assert!(sums_hold(&diff.tree));
}
