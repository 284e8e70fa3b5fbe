//! Addresses, as the `url` crate reads and writes them.

use url::Url;
use vstd::prelude::*;

verus! {

/// The text as `Url::parse` reads it and writes it again; nothing where it
/// is no address.
pub uninterp spec fn url_form(text: Seq<char>) -> Option<Seq<char>>;

/// The path of the address that the text spells (`Url::path`); nothing
/// where the text is no address.
pub uninterp spec fn url_path(text: Seq<char>) -> Option<Seq<char>>;

/// The address `base` with the segments added to its path
/// (`PathSegmentsMut::extend`); nothing where `base` is no address or one
/// that cannot have path segments.
pub uninterp spec fn url_extended(base: Seq<char>, segments: Seq<Seq<char>>) -> Option<Seq<char>>;

/// The address that `reference` means relative to `base` (`Url::join`);
/// nothing where one of the two cannot be read.
pub uninterp spec fn url_joined(base: Seq<char>, reference: Seq<char>) -> Option<Seq<char>>;

/// The text of a string, if there is one.
pub open spec fn spelled(text: Option<String>) -> Option<Seq<char>> {
    match text {
        Some(text) => Some(text@),
        None => None,
    }
}

/// The texts of a list of strings.
pub open spec fn segment_texts(segments: Seq<String>) -> Seq<Seq<char>> {
    Seq::new(segments.len(), |i: int| segments[i]@)
}

/// `Url::parse`, and the address written out again.
#[verifier::external_body]
pub(crate) fn normalized(text: &str) -> (form: Option<String>)
    ensures
        spelled(form) == url_form(text@),
{
    Url::parse(text).ok().map(String::from)
}

/// `Url::path` of the address that the text spells.
#[verifier::external_body]
pub(crate) fn path_of(text: &str) -> (path: Option<String>)
    ensures
        spelled(path) == url_path(text@),
{
    Url::parse(text).ok().map(|url| url.path().to_owned())
}

/// `Url::path_segments_mut` and `PathSegmentsMut::extend` on the address
/// that `base` spells.
#[verifier::external_body]
pub(crate) fn extended(base: &str, segments: &Vec<String>) -> (longer: Option<String>)
    ensures
        spelled(longer) == url_extended(base@, segment_texts(segments@)),
{
    let mut url = Url::parse(base).ok()?;
    url.path_segments_mut().ok()?.extend(segments);
    Some(url.into())
}

/// `Url::join` on the address that `base` spells.
#[verifier::external_body]
pub(crate) fn joined(base: &str, reference: &str) -> (target: Option<String>)
    ensures
        spelled(target) == url_joined(base@, reference@),
{
    Url::parse(base).ok()?.join(reference).ok().map(String::from)
}

} // verus!
