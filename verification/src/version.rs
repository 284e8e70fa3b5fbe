//! How a caller names the version of a package that it wants: by role, by
//! number, or by a requirement that the number has to meet.

use crate::order::same_bytes;
use crate::text_map::lemma_key_bytes_injective;
use semver::{Version, VersionReq};
use std::str::FromStr;
use vstd::prelude::*;

verus! {

/// The text is a version number that `semver::Version::parse` accepts.
pub uninterp spec fn is_version(text: Seq<char>) -> bool;

/// The text is a requirement that `semver::VersionReq::parse` accepts.
pub uninterp spec fn is_requirement(text: Seq<char>) -> bool;

/// Both texts parse, and `semver::VersionReq::matches` finds that the
/// version meets the requirement.
pub uninterp spec fn requirement_admits(requirement: Seq<char>, version: Seq<char>) -> bool;

/// Both texts parse as version numbers, and the first is the lower one in
/// the order of `semver::Version`.
pub uninterp spec fn version_precedes(lower: Seq<char>, higher: Seq<char>) -> bool;

/// `semver::Version::parse`: whether the text is a version number.
#[verifier::external_body]
pub(crate) fn version_is_valid(text: &str) -> (valid: bool)
    ensures
        valid == is_version(text@),
{
    Version::parse(text).is_ok()
}

/// `semver::VersionReq::parse`: nothing where the text is a requirement,
/// and the parser's complaint where it is not.
#[verifier::external_body]
pub(crate) fn requirement_problem(text: &str) -> (problem: Option<String>)
    ensures
        problem is None <==> is_requirement(text@),
{
    VersionReq::parse(text).err().map(|error| error.to_string())
}

/// `semver::VersionReq::matches` on the parsed texts; false where one of
/// them does not parse.
#[verifier::external_body]
pub(crate) fn admits(requirement: &str, version: &str) -> (met: bool)
    ensures
        met == requirement_admits(requirement@, version@),
{
    match (VersionReq::parse(requirement), Version::parse(version)) {
        (Ok(requirement), Ok(version)) => requirement.matches(&version),
        _ => false,
    }
}

/// The order of `semver::Version` on the parsed texts; false where one of
/// them does not parse.
#[verifier::external_body]
pub(crate) fn precedes(lower: &str, higher: &str) -> (below: bool)
    ensures
        below == version_precedes(lower@, higher@),
{
    match (Version::parse(lower), Version::parse(higher)) {
        (Ok(lower), Ok(higher)) => lower < higher,
        _ => false,
    }
}

/// Are the two texts the same?
pub fn same_text(a: &str, b: &str) -> (same: bool)
    ensures
        same == (a@ == b@),
{
    let same = same_bytes(a.as_bytes(), b.as_bytes());
    proof {
        if same {
            lemma_key_bytes_injective(a@, b@);
        }
    }
    same
}

/// A version named by its role among the versions of a package.
#[derive(Clone, Copy, Debug, PartialEq, Eq, Structural)]
pub enum VersionNamed {
    /// The version that the registry lists first.
    Latest,
    /// The version that the registry lists second.
    Previous,
}

impl VersionNamed {
    /// The name as it is written in an address.
    pub open spec fn spec_name(self) -> Seq<char> {
        match self {
            VersionNamed::Latest => "latest"@,
            VersionNamed::Previous => "previous"@,
        }
    }

    /// The name as it is written in an address.
    pub fn name(&self) -> (name: &'static str)
        ensures
            name@ == self.spec_name(),
    {
        match self {
            VersionNamed::Latest => "latest",
            VersionNamed::Previous => "previous",
        }
    }

    /// Reads a name as it is written in an address.
    pub fn parse(input: &str) -> (named: Option<Self>)
        ensures
            named == if input@ == "latest"@ {
                Some(VersionNamed::Latest)
            } else if input@ == "previous"@ {
                Some(VersionNamed::Previous)
            } else {
                None::<VersionNamed>
            },
    {
        if same_text(input, "latest") {
            Some(VersionNamed::Latest)
        } else if same_text(input, "previous") {
            Some(VersionNamed::Previous)
        } else {
            None
        }
    }
}

/// The version of a package that a caller asks for.
#[derive(Clone, Debug, PartialEq, Eq)]
pub enum VersionId {
    /// A version named by its role.
    Named(VersionNamed),
    /// The version with this number.
    Exact(String),
    /// The highest version that meets this requirement.
    Requirement(String),
}

/// A text that names no version.
#[derive(Clone, Debug, PartialEq, Eq)]
pub struct VersionIdError {
    /// What the requirement parser found wrong with the text.
    pub message: String,
}

impl VersionId {
    /// `id` is what the text `input` reads as: a role if the text names one;
    /// else the version with that number if the text is a version number;
    /// else the requirement if the text is one; else an error.
    pub open spec fn reads_as(input: Seq<char>, id: Result<VersionId, VersionIdError>) -> bool {
        match id {
            Ok(VersionId::Named(named)) => input == named.spec_name(),
            Ok(VersionId::Exact(number)) => {
                &&& input != "latest"@
                &&& input != "previous"@
                &&& is_version(input)
                &&& number@ == input
            },
            Ok(VersionId::Requirement(requirement)) => {
                &&& input != "latest"@
                &&& input != "previous"@
                &&& !is_version(input)
                &&& is_requirement(input)
                &&& requirement@ == input
            },
            Err(_) => {
                &&& input != "latest"@
                &&& input != "previous"@
                &&& !is_version(input)
                &&& !is_requirement(input)
            },
        }
    }

    /// Reads a version as it is written in an address.
    pub fn parse(input: &str) -> (id: Result<Self, VersionIdError>)
        ensures
            Self::reads_as(input@, id),
    {
        if let Some(named) = VersionNamed::parse(input) {
            return Ok(VersionId::Named(named));
        }
        if version_is_valid(input) {
            return Ok(VersionId::Exact(input.to_owned()));
        }
        match requirement_problem(input) {
            None => Ok(VersionId::Requirement(input.to_owned())),
            Some(message) => Err(VersionIdError { message }),
        }
    }

    /// The version as it is written in an address.
    pub fn text(&self) -> (text: String)
        ensures
            text@ == match self {
                VersionId::Named(VersionNamed::Latest) => "latest"@,
                VersionId::Named(VersionNamed::Previous) => "previous"@,
                VersionId::Exact(number) => number@,
                VersionId::Requirement(requirement) => requirement@,
            },
    {
        match self {
            VersionId::Named(named) => named.name().to_owned(),
            VersionId::Exact(number) => number.clone(),
            VersionId::Requirement(requirement) => requirement.clone(),
        }
    }
}

impl From<VersionNamed> for VersionId {
    fn from(named: VersionNamed) -> (id: Self) {
        VersionId::Named(named)
    }
}

impl vstd::std_specs::convert::FromSpecImpl<VersionNamed> for VersionId {
    open spec fn obeys_from_spec() -> bool {
        true
    }

    open spec fn from_spec(named: VersionNamed) -> VersionId {
        VersionId::Named(named)
    }
}

impl FromStr for VersionId {
    type Err = VersionIdError;

    fn from_str(input: &str) -> (id: Result<Self, VersionIdError>)
        ensures
            VersionId::reads_as(input@, id),
    {
        VersionId::parse(input)
    }
}

} // verus!
