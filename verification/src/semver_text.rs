//! Version numbers and version requirements, held as text and read by the
//! `semver` crate.

use vstd::prelude::*;

verus! {

/// The error with which `semver` refuses a text.
#[verifier::external_type_specification]
#[verifier::external_body]
pub struct ExSemverError(semver::Error);

/// What `semver::Version::parse` makes of a text, written out again by the
/// version's `Display`: `None` where the text is no version number.
pub uninterp spec fn version_text(text: Seq<char>) -> Option<Seq<char>>;

/// What `semver::VersionReq::parse` makes of a text, written out again by the
/// requirement's `Display`: `None` where the text is no requirement.
pub uninterp spec fn requirement_text(text: Seq<char>) -> Option<Seq<char>>;

/// Whether `semver::VersionReq::matches` lets the version number through, both
/// given as text; `false` where either text does not parse.
pub uninterp spec fn requirement_admits(req: Seq<char>, vers: Seq<char>) -> bool;

/// Calls `semver::Version::parse` and renders the version with its `Display`.
/// Claimed: the rendering is the named function of the text, and the call fails
/// exactly where that function has no value.
#[verifier::external_body]
pub(crate) fn parse_version(text: &str) -> (r: Result<String, semver::Error>)
    ensures
        match r {
            Ok(v) => version_text(text@) == Some(v@),
            Err(_) => version_text(text@).is_none(),
        },
{
    match semver::Version::parse(text) {
        Ok(v) => Ok(v.to_string()),
        Err(e) => Err(e),
    }
}

/// Calls `semver::VersionReq::parse` and renders the requirement with its
/// `Display`. Claimed: the rendering is the named function of the text, and the
/// call fails exactly where that function has no value.
#[verifier::external_body]
pub(crate) fn parse_requirement(text: &str) -> (r: Result<String, semver::Error>)
    ensures
        match r {
            Ok(v) => requirement_text(text@) == Some(v@),
            Err(_) => requirement_text(text@).is_none(),
        },
{
    match semver::VersionReq::parse(text) {
        Ok(v) => Ok(v.to_string()),
        Err(e) => Err(e),
    }
}

/// Calls `semver::VersionReq::matches` on the two texts once `semver` has parsed
/// them. Claimed: the answer is the named function of the two texts.
#[verifier::external_body]
pub(crate) fn requirement_matches(req: &str, vers: &str) -> (r: bool)
    ensures
        r == requirement_admits(req@, vers@),
{
    match (semver::VersionReq::parse(req), semver::Version::parse(vers)) {
        (Ok(r), Ok(v)) => r.matches(&v),
        _ => false,
    }
}

} // verus!
