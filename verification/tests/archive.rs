use bytes::Bytes;
use diff_rs::archive::{CrateSource, CrateSourceError, RawEntry};
use diff_rs::registry::VersionInfo;
use flate2::write::GzEncoder;
use flate2::Compression;
use sha2::{Digest, Sha256};

fn pack(files: &[(&str, &[u8])]) -> Vec<u8> {
    let mut builder = tar::Builder::new(GzEncoder::new(Vec::new(), Compression::default()));
    for (path, data) in files {
        let mut header = tar::Header::new_gnu();
        header.set_size(data.len() as u64);
        header.set_mode(0o644);
        header.set_cksum();
        builder.append_data(&mut header, path, *data).unwrap();
    }
    builder.into_inner().unwrap().finish().unwrap()
}

fn pack_as_spelled(files: &[(&[u8], &[u8])]) -> Vec<u8> {
    let mut builder = tar::Builder::new(GzEncoder::new(Vec::new(), Compression::default()));
    for (path, data) in files {
        let mut header = tar::Header::new_gnu();
        header.as_old_mut().name[..path.len()].copy_from_slice(path);
        header.set_size(data.len() as u64);
        header.set_mode(0o644);
        header.set_cksum();
        builder.append(&header, *data).unwrap();
    }
    builder.into_inner().unwrap().finish().unwrap()
}

fn version_of(krate: &str, number: &str, data: &[u8]) -> VersionInfo {
    VersionInfo {
        checksum: Sha256::digest(data).to_vec(),
        krate: krate.to_string(),
        dl_path: format!("/api/v1/crates/{krate}/{number}/download"),
        yanked: false,
        version: number.to_string(),
    }
}

fn file(path: &[u8], data: &'static [u8]) -> RawEntry {
    RawEntry { is_file: true, path: path.to_vec(), data: Bytes::from_static(data), intact: true }
}

fn paths(source: &CrateSource) -> Vec<String> {
    source.files.slots.iter().map(|slot| slot.key.clone()).collect()
}

#[test]
fn archive_files_are_stored_below_the_prefix() {
    let data = pack(&[
        ("demo-1.0.0/src/lib.rs", b"pub fn one() {}\n"),
        ("demo-1.0.0/Cargo.toml", b"[package]\n"),
    ]);
    let source = CrateSource::new(version_of("demo", "1.0.0", &data), &data).unwrap();
    assert_eq!(paths(&source), vec!["Cargo.toml".to_string(), "src/lib.rs".to_string()]);
    assert_eq!(&source.files.get("src/lib.rs").unwrap()[..], b"pub fn one() {}\n");
    assert_eq!(&source.files.get("Cargo.toml").unwrap()[..], b"[package]\n");
    assert!(source.files.get("src/main.rs").is_none());
}

#[test]
fn checksum_mismatch_is_refused_before_unpacking() {
    let data = pack(&[("demo-1.0.0/src/lib.rs", b"pub fn one() {}\n")]);
    let mut version = version_of("demo", "1.0.0", &data);
    let actual = version.checksum.clone();
    version.checksum = vec![0u8; 32];
    match CrateSource::new(version, &data) {
        Err(CrateSourceError::HashsumMismatch { expected, got }) => {
            assert_eq!(expected, vec![0u8; 32]);
            assert_eq!(got, actual);
        }
        other => panic!("unexpected outcome: {other:?}"),
    }
}

#[test]
fn checksum_is_checked_on_bytes_that_are_no_archive() {
    let data = b"not an archive".to_vec();
    let mut version = version_of("demo", "1.0.0", &data);
    version.checksum[0] ^= 0xff;
    assert!(matches!(
        CrateSource::new(version, &data),
        Err(CrateSourceError::HashsumMismatch { .. })
    ));
}

#[test]
fn digest_is_sha256() {
    let digest: Vec<u8> = vec![
        0xba, 0x78, 0x16, 0xbf, 0x8f, 0x01, 0xcf, 0xea, 0x41, 0x41, 0x40, 0xde, 0x5d, 0xae, 0x22,
        0x23, 0xb0, 0x03, 0x61, 0xa3, 0x96, 0x17, 0x7a, 0x9c, 0xb4, 0x10, 0xff, 0x61, 0xf2, 0x00,
        0x15, 0xad,
    ];
    let version = VersionInfo {
        checksum: digest,
        krate: "demo".to_string(),
        dl_path: String::new(),
        yanked: false,
        version: "1.0.0".to_string(),
    };
    // the digest matches, so the failure is that of the archive reader
    assert!(matches!(CrateSource::new(version, b"abc"), Err(CrateSourceError::Io(_))));
}

#[test]
fn malformed_archive_is_an_io_error() {
    let data = b"certainly not gzip".to_vec();
    let version = version_of("demo", "1.0.0", &data);
    assert!(matches!(CrateSource::new(version, &data), Err(CrateSourceError::Io(_))));
}

#[test]
fn truncated_archive_is_an_io_error() {
    let mut data = pack(&[("demo-1.0.0/src/lib.rs", &[b'x'; 4096])]);
    data.truncate(data.len() / 2);
    let version = version_of("demo", "1.0.0", &data);
    assert!(matches!(CrateSource::new(version, &data), Err(CrateSourceError::Io(_))));
}

#[test]
fn file_outside_the_prefix_is_refused_in_strict_mode() {
    let data = pack(&[
        ("demo-1.0.0/src/lib.rs", b"pub fn one() {}\n"),
        ("other-1.0.0/src/lib.rs", b"pub fn two() {}\n"),
    ]);
    match CrateSource::new(version_of("demo", "1.0.0", &data), &data) {
        Err(CrateSourceError::InvalidPrefix { path, prefix }) => {
            assert_eq!(path, "other-1.0.0/src/lib.rs");
            assert_eq!(prefix, "demo-1.0.0/");
        }
        other => panic!("unexpected outcome: {other:?}"),
    }
}

#[test]
fn file_outside_the_prefix_is_skipped_in_permissive_mode() {
    let data = pack(&[
        ("repo-abc/crates/demo/src/lib.rs", b"pub fn one() {}\n"),
        ("repo-abc/README.md", b"# repo\n"),
    ]);
    let files = CrateSource::parse_archive("repo-abc/crates/demo/", &data, false).unwrap();
    assert_eq!(files.len(), 1);
    assert_eq!(&files.get("src/lib.rs").unwrap()[..], b"pub fn one() {}\n");
}

#[test]
fn directories_are_ignored() {
    let mut builder = tar::Builder::new(GzEncoder::new(Vec::new(), Compression::default()));
    let mut header = tar::Header::new_gnu();
    header.set_entry_type(tar::EntryType::Directory);
    header.set_size(0);
    header.set_mode(0o755);
    header.set_cksum();
    builder.append_data(&mut header, "elsewhere/src", &b""[..]).unwrap();
    let mut header = tar::Header::new_gnu();
    header.set_size(2);
    header.set_mode(0o644);
    header.set_cksum();
    builder.append_data(&mut header, "demo-1.0.0/a", &b"a\n"[..]).unwrap();
    let data = builder.into_inner().unwrap().finish().unwrap();
    let source = CrateSource::new(version_of("demo", "1.0.0", &data), &data).unwrap();
    assert_eq!(paths(&source), vec!["a".to_string()]);
}

#[test]
fn later_entry_replaces_earlier_entry_of_the_same_path() {
    let data = pack(&[("demo-1.0.0/a", b"first\n"), ("demo-1.0.0/a", b"second\n")]);
    let source = CrateSource::new(version_of("demo", "1.0.0", &data), &data).unwrap();
    assert_eq!(source.files.len(), 1);
    assert_eq!(&source.files.get("a").unwrap()[..], b"second\n");
}

#[test]
fn path_that_is_not_utf8_is_refused() {
    let entries = vec![file(b"demo-1.0.0/ok", b"ok\n"), file(b"demo-1.0.0/\xff\xfe", b"bad\n")];
    let outcome = diff_rs::archive::parse_entries("demo-1.0.0/", &entries, None, true);
    assert!(matches!(outcome, Err(CrateSourceError::PathEncoding)));
}

#[test]
fn path_that_leaves_the_prefix_is_refused_in_strict_mode() {
    let entries = vec![file(b"demo-1.0.0/../../etc/passwd", b"root\n")];
    match diff_rs::archive::parse_entries("demo-1.0.0/", &entries, None, true) {
        Err(CrateSourceError::InvalidPrefix { path, prefix }) => {
            assert_eq!(path, "demo-1.0.0/../../etc/passwd");
            assert_eq!(prefix, "demo-1.0.0/");
        }
        other => panic!("unexpected outcome: {other:?}"),
    }
}

#[test]
fn path_that_leaves_the_prefix_is_absent_in_permissive_mode() {
    let entries = vec![
        file(b"demo-1.0.0/../../etc/passwd", b"root\n"),
        file(b"demo-1.0.0/src/../../x", b"x\n"),
        file(b"demo-1.0.0/", b"marker\n"),
        file(b"demo-1.0.0/kept", b"kept\n"),
    ];
    let files = diff_rs::archive::parse_entries("demo-1.0.0/", &entries, None, false).unwrap();
    assert_eq!(files.len(), 1);
    assert!(files.get("kept").is_some());
    assert!(files.get("etc/passwd").is_none());
    assert!(files.get("../../etc/passwd").is_none());
    assert!(files.get("x").is_none());
    assert!(files.get("").is_none());
}

#[test]
fn file_at_the_prefix_itself_is_refused_in_strict_mode() {
    let entries = vec![file(b"demo-1.0.0/", b"marker\n")];
    match diff_rs::archive::parse_entries("demo-1.0.0/", &entries, None, true) {
        Err(CrateSourceError::InvalidPrefix { path, prefix }) => {
            assert_eq!(path, "demo-1.0.0/");
            assert_eq!(prefix, "demo-1.0.0/");
        }
        other => panic!("unexpected outcome: {other:?}"),
    }
}

#[test]
fn path_with_an_empty_piece_is_stored_as_it_is_spelled() {
    let data = pack_as_spelled(&[(b"demo-1.0.0/a//b", b"kept\n")]);
    let source = CrateSource::new(version_of("demo", "1.0.0", &data), &data).unwrap();
    assert_eq!(paths(&source), vec!["a//b".to_string()]);
    assert_eq!(&source.files.get("a//b").unwrap()[..], b"kept\n");
    assert!(source.files.get("a/b").is_none());
    assert!(source.is_well_formed());

    let entries = vec![
        file(b"demo-1.0.0//etc/passwd", b"root\n"),
        file(b"demo-1.0.0/src//lib.rs", b"x\n"),
        file(b"demo-1.0.0/src/", b"y\n"),
        file(b"demo-1.0.0/src/lib.rs", b"z\n"),
        file(b"elsewhere/src/lib.rs", b"w\n"),
    ];
    for strict in [false, true] {
        let kept = &entries[..if strict { 4 } else { 5 }].to_vec();
        let files = diff_rs::archive::parse_entries("demo-1.0.0/", kept, None, strict).unwrap();
        let paths: Vec<&str> = files.slots.iter().map(|slot| slot.key.as_str()).collect();
        assert_eq!(paths, vec!["/etc/passwd", "src/", "src//lib.rs", "src/lib.rs"]);
        assert_eq!(&files.get("src//lib.rs").unwrap()[..], b"x\n");
        assert_eq!(&files.get("src/lib.rs").unwrap()[..], b"z\n");
    }
}

#[test]
fn later_entry_wins_at_a_path_with_an_empty_piece() {
    let data = pack_as_spelled(&[
        (b"demo-1.0.0/a//b", b"first\n"),
        (b"demo-1.0.0/a/b", b"other\n"),
        (b"demo-1.0.0/a//b", b"second\n"),
    ]);
    for strict in [false, true] {
        let files = CrateSource::parse_archive("demo-1.0.0/", &data, strict).unwrap();
        let paths: Vec<&str> = files.slots.iter().map(|slot| slot.key.as_str()).collect();
        assert_eq!(paths, vec!["a//b", "a/b"]);
        assert_eq!(&files.get("a//b").unwrap()[..], b"second\n");
        assert_eq!(&files.get("a/b").unwrap()[..], b"other\n");
    }
}

#[test]
fn parent_link_after_an_empty_piece_is_refused_or_absent() {
    let entries = vec![file(b"demo-1.0.0/a//../b", b"x\n"), file(b"demo-1.0.0/a", b"y\n")];
    match diff_rs::archive::parse_entries("demo-1.0.0/", &entries, None, true) {
        Err(CrateSourceError::InvalidPrefix { path, prefix }) => {
            assert_eq!(path, "demo-1.0.0/a//../b");
            assert_eq!(prefix, "demo-1.0.0/");
        }
        other => panic!("unexpected outcome: {other:?}"),
    }
    let files = diff_rs::archive::parse_entries("demo-1.0.0/", &entries, None, false).unwrap();
    let paths: Vec<&str> = files.slots.iter().map(|slot| slot.key.as_str()).collect();
    assert_eq!(paths, vec!["a"]);
}

#[test]
fn broken_content_is_an_io_error() {
    let mut entry = file(b"demo-1.0.0/a", b"partial");
    entry.intact = false;
    let outcome = diff_rs::archive::parse_entries(
        "demo-1.0.0/",
        &vec![entry],
        Some("unexpected end of file".to_string()),
        true,
    );
    match outcome {
        Err(CrateSourceError::Io(message)) => assert_eq!(message, "unexpected end of file"),
        other => panic!("unexpected outcome: {other:?}"),
    }
}

#[test]
fn first_refused_entry_decides_the_error() {
    let mut broken = file(b"demo-1.0.0/b", b"partial");
    broken.intact = false;
    let entries = vec![file(b"demo-1.0.0/a", b"a\n"), file(b"elsewhere/c", b"c\n"), broken];
    let outcome = diff_rs::archive::parse_entries(
        "demo-1.0.0/",
        &entries,
        Some("unexpected end of file".to_string()),
        true,
    );
    assert!(matches!(outcome, Err(CrateSourceError::InvalidPrefix { .. })));
}

#[test]
fn failure_after_the_last_entry_is_an_io_error() {
    let entries = vec![file(b"demo-1.0.0/a", b"a\n")];
    let outcome = diff_rs::archive::parse_entries(
        "demo-1.0.0/",
        &entries,
        Some("corrupt deflate stream".to_string()),
        false,
    );
    assert!(matches!(outcome, Err(CrateSourceError::Io(_))));
}

#[test]
fn store_is_well_formed_while_its_paths_are_sorted_and_safe() {
    let data = pack(&[("demo-1.0.0/src/lib.rs", b"a\n"), ("demo-1.0.0/Cargo.toml", b"b\n")]);
    let mut source = CrateSource::new(version_of("demo", "1.0.0", &data), &data).unwrap();
    assert!(source.is_well_formed());
    source.files.insert("../outside".to_string(), Bytes::from_static(b"x"));
    assert!(source.files.is_sorted());
    assert!(!source.is_well_formed());
}

#[test]
fn prefix_is_name_hyphen_version_slash() {
    let version = version_of("serde_json", "1.0.108", b"");
    assert_eq!(diff_rs::archive::prefix_of(&version), "serde_json-1.0.108/");
}
