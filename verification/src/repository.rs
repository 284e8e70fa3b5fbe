//! The source repository that a package version was published from, and
//! where a snapshot of it can be had.

use crate::archive::{parsed, unpacked, CrateSource, CrateSourceError};
use crate::path::{after_prefix, pieces, split_pieces};
use crate::registry::VersionInfo;
use crate::web::{
    extended, normalized, path_of, segment_texts, spelled, url_extended, url_form, url_path,
};
use vstd::prelude::*;
use vstd::string::StringExecFns;

verus! {

/// The commit that a package version was published from.
#[derive(Clone, Debug, PartialEq, Eq)]
pub struct CargoGitInfo {
    pub sha1: String,
}

/// What a package version records about its source repository.
#[derive(Clone, Debug, PartialEq, Eq)]
pub struct CargoVcsInfo {
    pub git: CargoGitInfo,
    /// Where in the repository the package lies; empty for its root.
    pub path_in_vcs: String,
}

/// Why the record of the source repository could not be had.
#[derive(Debug, PartialEq, Eq)]
pub enum CargoVcsInfoError {
    /// The package version holds no such record.
    Missing,
    /// The record could not be read; the message says why.
    Decode(String),
}

/// A source repository and the commit that a package version was published
/// from.
#[derive(Clone, Debug, PartialEq, Eq)]
pub struct RepositoryInfo {
    /// Address of the repository, as the `url` crate writes it.
    pub repository: String,
    pub vcs_info: CargoVcsInfo,
}

impl CrateSource {
    /// The file in which a package version records its source repository,
    /// for the caller to decode.
    pub fn cargo_vcs_info(&self) -> (file: Result<&bytes::Bytes, CargoVcsInfoError>)
        requires
            self.files.wf(),
        ensures
            match file {
                Ok(raw) => self.files@.dom().contains(".cargo_vcs_info.json"@) && *raw
                    == self.files@[".cargo_vcs_info.json"@],
                Err(error) => error is Missing && !self.files@.dom().contains(
                    ".cargo_vcs_info.json"@,
                ),
            },
    {
        match self.files.get(".cargo_vcs_info.json") {
            Some(raw) => Ok(raw),
            None => Err(CargoVcsInfoError::Missing),
        }
    }
}

impl RepositoryInfo {
    /// Where a snapshot of the repository at the recorded commit is served:
    /// for a repository on GitHub the archive that `codeload.github.com`
    /// makes of the commit, for one on GitLab the archive below the
    /// repository's own address, both by way of a relay that allows requests
    /// from other origins; nothing for other hosts.
    pub open spec fn snapshot_url(self) -> Option<Seq<char>> {
        let sha1 = self.vcs_info.git.sha1@;
        if "https://github.com/"@.is_prefix_of(self.repository@) {
            match url_path(self.repository@) {
                Some(path) => if "/"@.is_prefix_of(path) {
                    match url_extended(
                        "https://codeload.github.com/"@,
                        pieces(path.skip("/"@.len() as int)) + seq!["tar.gz"@, sha1],
                    ) {
                        Some(url) => url_form("https://corsproxy.io/?"@ + url),
                        None => None,
                    }
                } else {
                    None
                },
                None => None,
            }
        } else if "https://gitlab.com/"@.is_prefix_of(self.repository@) {
            match url_extended(self.repository@, seq!["-"@, "archive"@, sha1 + ".tar.gz"@]) {
                Some(url) => url_form("https://corsproxy.io/?"@ + url),
                None => None,
            }
        } else {
            None
        }
    }

    /// Where a snapshot of the repository at the recorded commit is served.
    pub fn url(&self) -> (url: Option<String>)
        ensures
            spelled(url) == self.snapshot_url(),
    {
        let repository = self.repository.as_str();
        let sha1 = self.vcs_info.git.sha1.as_str();
        let direct = if after_prefix(repository, "https://github.com/").is_some() {
            let path = match path_of(repository) {
                Some(path) => path,
                None => {
                    return None;
                },
            };
            let below = match after_prefix(path.as_str(), "/") {
                Some(below) => below,
                None => {
                    return None;
                },
            };
            assert(path@.skip("/"@.len() as int) =~= below@);
            let mut segments = split_pieces(below);
            segments.push("tar.gz".to_owned());
            segments.push(sha1.to_owned());
            assert(segment_texts(segments@) =~= pieces(below@) + seq!["tar.gz"@, sha1@]);
            extended("https://codeload.github.com/", &segments)
        } else if after_prefix(repository, "https://gitlab.com/").is_some() {
            let mut file = sha1.to_owned();
            file.append(".tar.gz");
            let mut segments: Vec<String> = Vec::new();
            segments.push("-".to_owned());
            segments.push("archive".to_owned());
            segments.push(file);
            assert(segment_texts(segments@) =~= seq!["-"@, "archive"@, sha1@ + ".tar.gz"@]);
            extended(repository, &segments)
        } else {
            return None;
        };
        match direct {
            Some(direct) => {
                let mut relayed = "https://corsproxy.io/?".to_owned();
                relayed.append(direct.as_str());
                normalized(relayed.as_str())
            },
            None => None,
        }
    }

    /// The directory below which the package lies in a snapshot: the last
    /// piece of the repository's path, a hyphen, the commit and a slash,
    /// then the package's place in the repository and a slash, if it is not
    /// the root.
    pub open spec fn snapshot_prefix(self) -> Seq<char> {
        let name = match url_path(self.repository@) {
            Some(path) => pieces(path).last(),
            None => Seq::empty(),
        };
        let top = name + "-"@ + self.vcs_info.git.sha1@ + "/"@;
        if self.vcs_info.path_in_vcs@.len() > 0 {
            top + self.vcs_info.path_in_vcs@ + "/"@
        } else {
            top
        }
    }

    /// The directory below which the package lies in a snapshot.
    pub fn prefix(&self) -> (prefix: String)
        ensures
            prefix@ == self.snapshot_prefix(),
    {
        let mut prefix = match path_of(self.repository.as_str()) {
            Some(path) => {
                let mut list = split_pieces(path.as_str());
                let name = list.pop();
                match name {
                    Some(name) => {
                        name
                    },
                    None => String::new(),
                }
            },
            None => String::new(),
        };
        prefix.append("-");
        prefix.append(self.vcs_info.git.sha1.as_str());
        prefix.append("/");
        if !self.vcs_info.path_in_vcs.as_str().is_empty() {
            prefix.append(self.vcs_info.path_in_vcs.as_str());
            prefix.append("/");
        }
        prefix
    }

    /// The version that the files of a snapshot are filed under: no package
    /// name, no checksum, version number `0.0.0`.
    pub open spec fn is_placeholder(version: VersionInfo) -> bool {
        &&& version.checksum@.len() == 0
        &&& version.krate@.len() == 0
        &&& version.dl_path@.len() == 0
        &&& !version.yanked
        &&& version.version@ == "0.0.0"@
    }

    /// Reads the files of the package from a snapshot of the repository.
    /// Files elsewhere in the repository are passed over.
    pub fn source_from(&self, data: &[u8]) -> (result: Result<CrateSource, CrateSourceError>)
        ensures
            match result {
                Ok(source) => source.wf() && Self::is_placeholder(source.version) && parsed(
                    Ok(source.files),
                    self.snapshot_prefix(),
                    unpacked(data@).0,
                    unpacked(data@).1,
                    false,
                ),
                Err(error) => parsed(
                    Err(error),
                    self.snapshot_prefix(),
                    unpacked(data@).0,
                    unpacked(data@).1,
                    false,
                ),
            },
    {
        let version = VersionInfo {
            checksum: Vec::new(),
            krate: String::new(),
            dl_path: String::new(),
            yanked: false,
            version: "0.0.0".to_owned(),
        };
        let prefix = self.prefix();
        match CrateSource::parse_archive(prefix.as_str(), data, false) {
            Ok(files) => Ok(CrateSource { version, files }),
            Err(error) => Err(error),
        }
    }
}

} // verus!
