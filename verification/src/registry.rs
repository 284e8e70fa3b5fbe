//! What the package registry tells about a package and its versions, and
//! which of the versions a caller means.

use crate::version::{
    admits, precedes, requirement_admits, same_text, version_precedes, VersionId, VersionNamed,
};
use crate::web::{joined, normalized, spelled, url_form, url_joined};
use vstd::prelude::*;
use vstd::string::StringExecFns;

verus! {

/// One published version of a package.
#[derive(Clone, Debug, PartialEq, Eq)]
pub struct VersionInfo {
    /// SHA-256 digest that the registry lists for the version's archive.
    pub checksum: Vec<u8>,
    /// Name of the package.
    pub krate: String,
    /// Where the registry serves the archive from.
    pub dl_path: String,
    /// Whether the version was withdrawn.
    pub yanked: bool,
    /// The version number.
    pub version: String,
}

/// What the registry lists about a package.
#[derive(Clone, Debug, PartialEq, Eq)]
pub struct CrateDetail {
    pub id: String,
    pub max_version: String,
    pub max_stable_version: Option<String>,
    pub newest_version: String,
    pub description: String,
    pub downloads: u64,
    pub recent_downloads: Option<u64>,
    pub exact_match: bool,
    pub homepage: Option<String>,
    pub repository: Option<String>,
    pub documentation: Option<String>,
}

/// The registry's answer to a search.
#[derive(Clone, Debug, PartialEq, Eq)]
pub struct SearchResponse {
    pub crates: Vec<CrateDetail>,
}

/// The registry's overview of its packages.
#[derive(Clone, Debug, PartialEq, Eq)]
pub struct SummaryResponse {
    pub just_updated: Vec<CrateDetail>,
    pub most_downloaded: Vec<CrateDetail>,
    pub most_recently_downloaded: Vec<CrateDetail>,
    pub new_crates: Vec<CrateDetail>,
}

/// The lists of the registry's overview.
#[derive(Clone, Copy, Debug, PartialEq, Eq, Structural)]
pub enum SummaryCategory {
    MostDownloaded,
    MostRecent,
    JustUpdated,
    RecentDownloads,
}

impl SummaryCategory {
    /// The heading of the list.
    pub open spec fn spec_title(self) -> Seq<char> {
        match self {
            SummaryCategory::MostDownloaded => "Most Downloaded"@,
            SummaryCategory::MostRecent => "New Crates"@,
            SummaryCategory::JustUpdated => "Just Updated"@,
            SummaryCategory::RecentDownloads => "Most Recent Downloads"@,
        }
    }

    /// The heading of the list.
    pub fn title(&self) -> (title: &str)
        ensures
            title@ == self.spec_title(),
    {
        match self {
            SummaryCategory::MostDownloaded => "Most Downloaded",
            SummaryCategory::MostRecent => "New Crates",
            SummaryCategory::JustUpdated => "Just Updated",
            SummaryCategory::RecentDownloads => "Most Recent Downloads",
        }
    }
}

impl SummaryResponse {
    /// The list of a category.
    pub fn get(&self, cat: SummaryCategory) -> (list: &Vec<CrateDetail>)
        ensures
            *list == match cat {
                SummaryCategory::JustUpdated => self.just_updated,
                SummaryCategory::MostDownloaded => self.most_downloaded,
                SummaryCategory::RecentDownloads => self.most_recently_downloaded,
                SummaryCategory::MostRecent => self.new_crates,
            },
    {
        match cat {
            SummaryCategory::JustUpdated => &self.just_updated,
            SummaryCategory::MostDownloaded => &self.most_downloaded,
            SummaryCategory::RecentDownloads => &self.most_recently_downloaded,
            SummaryCategory::MostRecent => &self.new_crates,
        }
    }
}

/// The registry's answer about one package: the package and its versions,
/// the newest first.
#[derive(Clone, Debug, PartialEq, Eq)]
pub struct CrateResponse {
    pub krate: CrateDetail,
    pub versions: Vec<VersionInfo>,
}

/// Version `i` has the number `number`, and no version before it has.
pub open spec fn is_first_with_number(
    versions: Seq<VersionInfo>,
    number: Seq<char>,
    i: int,
) -> bool {
    &&& 0 <= i < versions.len()
    &&& versions[i].version@ == number
    &&& forall|j: int| 0 <= j < i ==> (#[trigger] versions[j]).version@ != number
}

/// The first version that has the number `number`.
pub open spec fn first_with_number(versions: Seq<VersionInfo>, number: Seq<char>) -> Option<int> {
    if exists|i: int| is_first_with_number(versions, number, i) {
        Some(choose|i: int| is_first_with_number(versions, number, i))
    } else {
        None
    }
}

/// The highest of the first `n` versions that meet the requirement, and
/// of several that are equally high the last.
pub open spec fn best_match(versions: Seq<VersionInfo>, requirement: Seq<char>, n: int) -> Option<
    int,
>
    decreases n,
{
    if n <= 0 || n > versions.len() {
        None
    } else {
        let before = best_match(versions, requirement, n - 1);
        if !requirement_admits(requirement, versions[n - 1].version@) {
            before
        } else {
            match before {
                Some(best) => if version_precedes(
                    versions[n - 1].version@,
                    versions[best].version@,
                ) {
                    Some(best)
                } else {
                    Some(n - 1)
                },
                None => Some(n - 1),
            }
        }
    }
}

/// Which version a caller means: the first for the latest, the second for
/// the previous one, or the first where there is no second; the first with
/// the number asked for; or the highest that meets the requirement.
pub open spec fn resolve(versions: Seq<VersionInfo>, id: VersionId) -> Option<int> {
    match id {
        VersionId::Named(VersionNamed::Latest) => if versions.len() > 0 {
            Some(0int)
        } else {
            None
        },
        VersionId::Named(VersionNamed::Previous) => if versions.len() > 1 {
            Some(1int)
        } else if versions.len() > 0 {
            Some(0int)
        } else {
            None
        },
        VersionId::Exact(number) => first_with_number(versions, number@),
        VersionId::Requirement(requirement) => best_match(
            versions,
            requirement@,
            versions.len() as int,
        ),
    }
}

impl VersionInfo {
    /// Where the archive of the version is served from: the registry's
    /// file server rather than the address in `dl_path`, so that a look at
    /// the sources does not count as a download.
    pub open spec fn download_location(self) -> Seq<char> {
        "https://static.crates.io/crates/"@ + self.krate@ + "/"@ + self.krate@ + "-"@
            + self.version@ + ".crate"@
    }

    /// The address that the archive of the version is served from; nothing
    /// where name and version make no address.
    pub fn download_url(&self) -> (url: Option<String>)
        ensures
            spelled(url) == url_form(self.download_location()),
    {
        let mut text = "https://static.crates.io/crates/".to_owned();
        text.append(self.krate.as_str());
        text.append("/");
        text.append(self.krate.as_str());
        text.append("-");
        text.append(self.version.as_str());
        text.append(".crate");
        normalized(text.as_str())
    }
}

impl CrateResponse {
    /// The address at which the registry answers about a package; nothing
    /// where the name makes no address.
    pub fn location(name: &str) -> (url: Option<String>)
        ensures
            spelled(url) == url_joined("https://crates.io/api/v1/crates/"@, name@),
    {
        joined("https://crates.io/api/v1/crates/", name)
    }

    /// The position of the version that the caller means.
    pub fn position(&self, version: &VersionId) -> (at: Option<usize>)
        ensures
            match at {
                Some(i) => resolve(self.versions@, *version) == Some(i as int) && i
                    < self.versions@.len(),
                None => resolve(self.versions@, *version) is None,
            },
    {
        let count = self.versions.len();
        match version {
            VersionId::Named(VersionNamed::Latest) => if count > 0 {
                Some(0)
            } else {
                None
            },
            VersionId::Named(VersionNamed::Previous) => if count > 1 {
                Some(1)
            } else if count > 0 {
                Some(0)
            } else {
                None
            },
            VersionId::Exact(number) => {
                let mut n: usize = 0;
                while n < count
                    invariant
                        n <= count,
                        count == self.versions@.len(),
                        *version == VersionId::Exact(*number),
                        forall|j: int|
                            0 <= j < n ==> (#[trigger] self.versions@[j]).version@ != number@,
                    decreases count - n,
                {
                    if same_text(self.versions[n].version.as_str(), number.as_str()) {
                        proof {
                            assert(is_first_with_number(self.versions@, number@, n as int));
                            let i = choose|i: int| is_first_with_number(self.versions@, number@, i);
                        }
                        return Some(n);
                    }
                    n = n + 1;
                }
                None
            },
            VersionId::Requirement(requirement) => {
                let mut best: Option<usize> = None;
                let mut n: usize = 0;
                while n < count
                    invariant
                        n <= count,
                        count == self.versions@.len(),
                        *version == VersionId::Requirement(*requirement),
                        match best {
                            Some(i) => best_match(self.versions@, requirement@, n as int) == Some(
                                i as int,
                            ) && i < n,
                            None => best_match(self.versions@, requirement@, n as int) is None,
                        },
                    decreases count - n,
                {
                    let candidate = self.versions[n].version.as_str();
                    if admits(requirement.as_str(), candidate) {
                        best = match best {
                            Some(i) => if precedes(candidate, self.versions[i].version.as_str()) {
                                Some(i)
                            } else {
                                Some(n)
                            },
                            None => Some(n),
                        };
                    }
                    n = n + 1;
                }
                best
            },
        }
    }

    /// The version that the caller means, if the package has one.
    pub fn version(&self, version: &VersionId) -> (info: Option<&VersionInfo>)
        ensures
            match info {
                Some(info) => resolve(self.versions@, *version) is Some && *info
                    == self.versions@[resolve(self.versions@, *version)->0],
                None => resolve(self.versions@, *version) is None,
            },
    {
        match self.position(version) {
            Some(i) => Some(&self.versions[i]),
            None => None,
        }
    }
}

} // verus!
