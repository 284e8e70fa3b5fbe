use bytes::Bytes;
use diff_rs::anchor::{is_location_in_range, line_numbers, ChangeFileIdx};
use diff_rs::archive::CrateSource;
use diff_rs::browse::{determine_display_files, join_paths, rel_filepaths_in_tree};
use diff_rs::changes::Changes;
use diff_rs::display::DiffGroupInfo;
use diff_rs::file_diff::FileDiff;
use diff_rs::filter::{ChangeFilter, SearchFilter};
use diff_rs::hunk::ChangeKind;
use diff_rs::registry::VersionInfo;
use diff_rs::route::Route;
use diff_rs::syntax::{extension, file_name, first_text_line, style_to_css};
use diff_rs::text_map::TextMap;
use diff_rs::tree::{Entry, Item};
use diff_rs::version::{VersionId, VersionNamed};
use diff_rs::version_diff::VersionDiff;
use std::sync::Arc;

fn store(number: &str, files: &[(&str, &'static [u8])]) -> Arc<CrateSource> {
    let mut map: TextMap<Bytes> = TextMap::new();
    for (path, data) in files {
        map.insert(path.to_string(), Bytes::from_static(data));
    }
    Arc::new(CrateSource {
        version: VersionInfo {
            checksum: vec![],
            krate: "demo".to_string(),
            dl_path: String::new(),
            yanked: false,
            version: number.to_string(),
        },
        files: map,
    })
}

fn demo_diff() -> VersionDiff {
    let left = store(
        "1.0.0",
        &[
            ("Cargo.toml", b"[package]\n"),
            ("src/lib.rs", b"a\nb\n"),
            ("src/same.rs", b"same\n"),
            ("src/util/io.rs", b"io\n"),
            ("tests/same.rs", b"t\n"),
        ],
    );
    let right = store(
        "1.1.0",
        &[
            ("Cargo.toml", b"[package]\n"),
            ("src/lib.rs", b"a\nc\n"),
            ("src/same.rs", b"same\n"),
            ("src/util/io.rs", b"io\nmore\n"),
            ("src/util/net.rs", b"net\n"),
            ("tests/same.rs", b"t\n"),
        ],
    );
    VersionDiff::new(left, right)
}

fn dir(entry: &Entry) -> &TextMap<Entry> {
    match &entry.item {
        Item::Dir(entries) => entries,
        Item::File => panic!("{} is a file", entry.name),
    }
}

#[test]
fn a_file_is_shown_alone() {
    let diff = demo_diff();
    assert_eq!(determine_display_files(&diff, "src/same.rs"), vec!["src/same.rs"]);
    assert_eq!(determine_display_files(&diff, "src/lib.rs"), vec!["src/lib.rs"]);
}

#[test]
fn a_directory_shows_its_changed_files() {
    let diff = demo_diff();
    assert_eq!(
        determine_display_files(&diff, "src"),
        vec!["src/lib.rs", "src/util/io.rs", "src/util/net.rs"]
    );
    assert_eq!(
        determine_display_files(&diff, "src/util/"),
        vec!["src/util/io.rs", "src/util/net.rs"]
    );
    assert_eq!(
        determine_display_files(&diff, ""),
        vec!["src/lib.rs", "src/util/io.rs", "src/util/net.rs"]
    );
}

#[test]
fn an_unchanged_or_unknown_path_is_shown_as_it_is() {
    let diff = demo_diff();
    assert_eq!(determine_display_files(&diff, "tests"), vec!["tests"]);
    assert_eq!(determine_display_files(&diff, "missing/dir"), vec!["missing/dir"]);
    assert_eq!(determine_display_files(&diff, "src//lib.rs"), vec!["src//lib.rs"]);
}

#[test]
fn files_below_a_directory_are_listed_in_order() {
    let diff = demo_diff();
    let all = rel_filepaths_in_tree(dir(&diff.tree), false);
    assert_eq!(
        all,
        vec![
            "Cargo.toml",
            "src/lib.rs",
            "src/same.rs",
            "src/util/io.rs",
            "src/util/net.rs",
            "tests/same.rs"
        ]
    );
    let changed = rel_filepaths_in_tree(dir(&diff.tree), true);
    assert_eq!(changed, vec!["src/lib.rs", "src/util/io.rs", "src/util/net.rs"]);
    assert_eq!(join_paths("", "a"), "a");
    assert_eq!(join_paths("src", "a"), "src/a");
    assert_eq!(join_paths("src/", "a"), "src/a");
}

fn group_ranges(groups: &[DiffGroupInfo]) -> Vec<(usize, usize, usize, usize, bool)> {
    groups
        .iter()
        .map(|group| {
            (
                group.range.start(),
                group.range.end(),
                group.range.left_start,
                group.range.right_start,
                group.in_context,
            )
        })
        .collect()
}

#[test]
fn lines_are_grouped_into_windows_and_stretches() {
    let mut old = Vec::new();
    let mut new = Vec::new();
    for i in 0..30 {
        old.extend_from_slice(format!("line {i}\n").as_bytes());
        if i == 10 {
            new.extend_from_slice(b"inserted\n");
        }
        if i != 20 {
            new.extend_from_slice(format!("line {i}\n").as_bytes());
        }
    }
    let diff = FileDiff::compute(&Bytes::from(old), &Bytes::from(new), 3);
    // the diff has 31 lines: an insertion at 10 and a deletion at 21
    assert_eq!(diff.changes[10].0, ChangeKind::Insert);
    assert_eq!(diff.changes[21].0, ChangeKind::Delete);
    assert_eq!(
        group_ranges(&diff.groups(false)),
        vec![
            (0, 7, 0, 0, false),
            (7, 14, 7, 7, true),
            (14, 18, 13, 14, false),
            (18, 25, 17, 18, true),
            (25, 31, 24, 24, false),
        ]
    );
    assert_eq!(group_ranges(&diff.groups(true)).last(), Some(&(25, 31, 24, 24, true)));
}

#[test]
fn an_unchanged_file_is_one_group() {
    let text = Bytes::from_static(b"a\nb\nc\n");
    let diff = FileDiff::compute(&text, &text, 3);
    assert_eq!(group_ranges(&diff.groups(true)), vec![(0, 3, 0, 0, true)]);
    assert_eq!(group_ranges(&diff.groups(false)), vec![(0, 3, 0, 0, false)]);
    let empty = FileDiff::default();
    assert!(empty.groups(true).is_empty());
}

#[test]
fn a_window_at_the_start_has_no_stretch_before_it() {
    let diff = FileDiff::compute(&Bytes::from_static(b"a\nb\n"), &Bytes::from_static(b"x\nb\n"), 0);
    assert_eq!(group_ranges(&diff.groups(false)), vec![(0, 2, 0, 0, true), (2, 3, 1, 1, false)]);
}

#[test]
fn filters_choose_the_entries_of_the_tree() {
    let none = Changes::default();
    let some = Changes { added: 0, removed: 1 };
    assert!(ChangeFilter::All.matches(none));
    assert!(ChangeFilter::All.matches(some));
    assert!(!ChangeFilter::Changed.matches(none));
    assert!(ChangeFilter::Changed.matches(some));
    assert!(ChangeFilter::default().is_all());
    assert!(!ChangeFilter::All.is_changed());
    assert!(ChangeFilter::Changed.is_changed());
    assert_eq!(SearchFilter::default(), SearchFilter::All);
    assert!(SearchFilter::All.matches("anything"));
    let filter = SearchFilter::Filter("LIB".to_string());
    assert_eq!(filter.text(), "LIB");
    assert_eq!(SearchFilter::All.text(), "");
    assert!(filter.matches("lib.rs"));
    assert!(filter.matches("MyLib"));
    assert!(!filter.matches("main.rs"));
    let diff = demo_diff();
    let src = dir(&diff.tree).get("src").unwrap();
    let tests = dir(&diff.tree).get("tests").unwrap();
    assert!(filter.match_entry(src));
    assert!(filter.match_entry(&diff.tree));
    assert!(!filter.match_entry(tests));
    assert!(SearchFilter::Filter("TESTS".to_string()).match_entry(tests));
    assert!(SearchFilter::Filter("net".to_string()).match_entry(src));
}

#[test]
fn name_and_extension_follow_the_last_mark() {
    assert_eq!(file_name("src/util/io.rs"), "io.rs");
    assert_eq!(file_name("Cargo.toml"), "Cargo.toml");
    assert_eq!(file_name("src/"), "");
    assert_eq!(extension("io.rs"), "rs");
    assert_eq!(extension("archive.tar.gz"), "gz");
    assert_eq!(extension("Makefile"), "Makefile");
}

#[test]
fn first_line_skips_deletions() {
    let changes = vec![
        (ChangeKind::Delete, Bytes::from_static(b"#!/bin/sh\n")),
        (ChangeKind::Insert, Bytes::from_static(b"#!/usr/bin/env python\n")),
        (ChangeKind::Equal, Bytes::from_static(b"print()\n")),
    ];
    assert_eq!(first_text_line(&changes), Some("#!/usr/bin/env python\n"));
    let binary = vec![
        (ChangeKind::Equal, Bytes::from_static(b"\xff\xfe")),
        (ChangeKind::Equal, Bytes::from_static(b"text\n")),
    ];
    assert_eq!(first_text_line(&binary), None);
    assert_eq!(first_text_line(&changes[..1]), None);
    assert_eq!(first_text_line(&[]), None);
}

#[test]
fn style_is_written_as_css() {
    assert_eq!(style_to_css(0, 0, 0, false, false), "color:#000000;");
    assert_eq!(style_to_css(255, 10, 171, false, false), "color:#ff0aab;");
    assert_eq!(
        style_to_css(1, 2, 3, true, false),
        "color:#010203;text-decoration:underline;"
    );
    assert_eq!(
        style_to_css(1, 2, 3, true, true),
        "color:#010203;text-decoration:underline;font-weight:bold;font-style:italic;"
    );
}

#[test]
fn anchors_point_at_lines_of_one_side() {
    let start = ChangeFileIdx { overall: 10, left: 8, right: 9 };
    let end = start + 5;
    assert_eq!(end, ChangeFileIdx { overall: 15, left: 13, right: 14 });
    assert_eq!(start - 9, ChangeFileIdx { overall: 1, left: 0, right: 0 });
    assert!(is_location_in_range("#R9", start, end));
    assert!(is_location_in_range("#R14", start, end));
    assert!(!is_location_in_range("#R15", start, end));
    assert!(is_location_in_range("#L8", start, end));
    assert!(!is_location_in_range("#L14", start, end));
    assert!(!is_location_in_range("#L", start, end));
    assert!(!is_location_in_range("#Lx", start, end));
    assert!(!is_location_in_range("R9", start, end));
    assert!(!is_location_in_range("", start, end));
}

#[test]
fn line_numbers_of_anchors_are_read_as_decimal_numbers() {
    let start = ChangeFileIdx { overall: 0, left: 7, right: 7 };
    let end = ChangeFileIdx { overall: 0, left: 9, right: usize::MAX };
    assert!(is_location_in_range("#L+8", start, end));
    assert!(is_location_in_range("#L008", start, end));
    assert!(!is_location_in_range("#L-8", start, end));
    assert!(!is_location_in_range("#L+", start, end));
    assert!(!is_location_in_range("#L8 ", start, end));
    assert!(!is_location_in_range("#L 8", start, end));
    assert!(!is_location_in_range("#L++8", start, end));
    assert!(!is_location_in_range("#L８", start, end));
    assert!(!is_location_in_range("#L0x8", start, end));
    assert!(is_location_in_range("#R18446744073709551615", start, end));
    assert!(!is_location_in_range("#R18446744073709551616", start, end));
    assert!(!is_location_in_range("#R99999999999999999999999", start, end));
    for text in ["8", "+8", "008", "-8", "+", "", "18446744073709551615", "18446744073709551616"] {
        let expected = text.parse::<u64>().ok().map_or(false, |id| (7..=9).contains(&id));
        assert_eq!(is_location_in_range(&format!("#L{text}"), start, end), expected, "{text}");
    }
}

#[test]
fn routes_for_one_package_are_simplified() {
    let latest = VersionId::Named(VersionNamed::Latest);
    let exact = VersionId::Exact("1.0.0".to_string());
    let file = Route::File {
        old_krate: "log".to_string(),
        old_version: exact.clone(),
        new_krate: "log".to_string(),
        new_version: latest.clone(),
        path: "src/lib.rs".to_string(),
    };
    assert_eq!(
        file.simplify(),
        Route::SingleSourceFile {
            krate: "log".to_string(),
            old_version: exact.clone(),
            new_version: latest.clone(),
            path: "src/lib.rs".to_string(),
        }
    );
    let two = Route::File {
        old_krate: "log".to_string(),
        old_version: exact.clone(),
        new_krate: "tracing".to_string(),
        new_version: latest.clone(),
        path: "src/lib.rs".to_string(),
    };
    assert_eq!(two.clone().simplify(), two);
    let same = Route::Crates { old_krate: "log".to_string(), new_krate: "log".to_string() };
    assert_eq!(same.simplify(), Route::Crate { krate: "log".to_string() });
    let other = Route::Crates { old_krate: "log".to_string(), new_krate: "tracing".to_string() };
    assert_eq!(other.clone().simplify(), other);
    assert_eq!(Route::Home.simplify(), Route::Home);
}

#[test]
fn lines_of_a_group_are_numbered_in_the_file_that_holds_them() {
    let group = vec![
        (ChangeKind::Equal, "a"),
        (ChangeKind::Delete, "b"),
        (ChangeKind::Insert, "B"),
        (ChangeKind::Insert, "C"),
        (ChangeKind::Equal, "c"),
        (ChangeKind::Delete, "d"),
    ];
    assert_eq!(
        line_numbers(&group, 8, 11),
        vec![
            (Some(8), Some(11)),
            (Some(9), None),
            (None, Some(12)),
            (None, Some(13)),
            (Some(10), Some(14)),
            (Some(11), None),
        ]
    );
    assert_eq!(line_numbers(&group[..0], 1, 1), vec![]);
    assert_eq!(
        line_numbers(&group[1..3], usize::MAX - 2, usize::MAX - 2),
        vec![(Some(usize::MAX - 2), None), (None, Some(usize::MAX - 2))]
    );
}
