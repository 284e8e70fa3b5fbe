use diff_rs::archive::{CrateSource, CrateSourceError};
use diff_rs::registry::{CrateResponse, VersionInfo};
use diff_rs::path::split_pieces;
use diff_rs::repository::{CargoGitInfo, CargoVcsInfo, CargoVcsInfoError, RepositoryInfo};
use flate2::write::GzEncoder;
use flate2::Compression;
use sha2::{Digest, Sha256};

fn info(repository: &str, path_in_vcs: &str) -> RepositoryInfo {
    RepositoryInfo {
        repository: repository.to_string(),
        vcs_info: CargoVcsInfo {
            git: CargoGitInfo { sha1: "0123abcd".to_string() },
            path_in_vcs: path_in_vcs.to_string(),
        },
    }
}

fn pack(files: &[(&str, &[u8])]) -> Vec<u8> {
    let mut builder = tar::Builder::new(GzEncoder::new(Vec::new(), Compression::default()));
    for (path, data) in files {
        let mut header = tar::Header::new_gnu();
        header.set_size(data.len() as u64);
        header.set_mode(0o644);
        header.set_cksum();
        builder.append_data(&mut header, path, *data).unwrap();
    }
    builder.into_inner().unwrap().finish().unwrap()
}

#[test]
fn github_snapshot_is_served_by_codeload() {
    assert_eq!(
        info("https://github.com/rust-lang/log", "").url().unwrap(),
        "https://corsproxy.io/?https://codeload.github.com/rust-lang/log/tar.gz/0123abcd"
    );
}

#[test]
fn gitlab_snapshot_is_served_below_the_repository() {
    assert_eq!(
        info("https://gitlab.com/group/project", "").url().unwrap(),
        "https://corsproxy.io/?https://gitlab.com/group/project/-/archive/0123abcd.tar.gz"
    );
}

#[test]
fn other_hosts_have_no_snapshot() {
    assert_eq!(info("https://example.org/group/project", "").url(), None);
    assert_eq!(info("not an address", "").url(), None);
}

#[test]
fn snapshot_prefix_names_repository_commit_and_place() {
    assert_eq!(info("https://github.com/rust-lang/log", "").prefix(), "log-0123abcd/");
    assert_eq!(
        info("https://github.com/serde-rs/serde", "serde_derive").prefix(),
        "serde-0123abcd/serde_derive/"
    );
    assert_eq!(info("https://github.com/rust-lang/log/", "").prefix(), "-0123abcd/");
    assert_eq!(split_pieces("/a//b/"), vec!["", "a", "", "b", ""]);
    assert_eq!(split_pieces(""), vec![""]);
}

#[test]
fn snapshot_files_outside_the_package_are_passed_over() {
    let data = pack(&[
        ("serde-0123abcd/README.md", b"# serde\n"),
        ("serde-0123abcd/serde_derive/src/lib.rs", b"//! derive\n"),
        ("serde-0123abcd/serde_derive/Cargo.toml", b"[package]\n"),
    ]);
    let source =
        info("https://github.com/serde-rs/serde", "serde_derive").source_from(&data).unwrap();
    let paths: Vec<&str> = source.files.slots.iter().map(|slot| slot.key.as_str()).collect();
    assert_eq!(paths, vec!["Cargo.toml", "src/lib.rs"]);
    assert_eq!(source.version.version, "0.0.0");
    assert_eq!(source.version.krate, "");
    assert!(source.version.checksum.is_empty());
    assert!(matches!(
        info("https://github.com/serde-rs/serde", "").source_from(b"junk"),
        Err(CrateSourceError::Io(_))
    ));
}

#[test]
fn repository_record_is_found_or_missing() {
    let record = b"{\"git\":{\"sha1\":\"0123abcd\"},\"path_in_vcs\":\"\"}";
    let data = pack(&[("demo-1.0.0/.cargo_vcs_info.json", record), ("demo-1.0.0/src/lib.rs", b"")]);
    let version = VersionInfo {
        checksum: Sha256::digest(&data).to_vec(),
        krate: "demo".to_string(),
        dl_path: String::new(),
        yanked: false,
        version: "1.0.0".to_string(),
    };
    let source = CrateSource::new(version.clone(), &data).unwrap();
    assert_eq!(&source.cargo_vcs_info().unwrap()[..], record);
    let data = pack(&[("demo-1.0.0/src/lib.rs", b"")]);
    let version = VersionInfo { checksum: Sha256::digest(&data).to_vec(), ..version };
    let source = CrateSource::new(version, &data).unwrap();
    assert_eq!(source.cargo_vcs_info(), Err(CargoVcsInfoError::Missing));
}

#[test]
fn archive_is_downloaded_from_the_file_server() {
    let version = VersionInfo {
        checksum: vec![],
        krate: "serde_json".to_string(),
        dl_path: "/api/v1/crates/serde_json/1.0.108/download".to_string(),
        yanked: false,
        version: "1.0.108".to_string(),
    };
    assert_eq!(
        version.download_url().unwrap(),
        "https://static.crates.io/crates/serde_json/serde_json-1.0.108.crate"
    );
    assert_eq!(
        CrateResponse::location("log").unwrap(),
        "https://crates.io/api/v1/crates/log"
    );
}
