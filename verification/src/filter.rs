//! The range-filter capability. Whether a version lies in a range such
//! as `>1.2` is delegated to the `semver` crate; this module gives that
//! collaborator a name the sorter's contracts can speak about.

use vstd::prelude::*;
use crate::text::text_chars;
use crate::version::{Version, canonical, is_valid_text, lemma_parse_canonical};

verus! {

/// Whether `req` is a well-formed version-range expression: the
/// outcome of `semver::VersionReq::parse`, which depends on the text
/// alone.
pub uninterp spec fn req_wf(req: Seq<char>) -> bool;

/// Whether the version written `ver` satisfies the range written
/// `req`: the outcome of `semver::VersionReq::matches`, which depends
/// on the two texts alone.
pub uninterp spec fn req_match(req: Seq<char>, ver: Seq<char>) -> bool;

/// Relies on `semver::VersionReq::parse`: whether a range expression
/// is accepted depends on its text alone.
#[verifier::external_body]
pub(crate) fn check_filter(req: &str) -> (r: bool)
    ensures
        r == req_wf(req@),
{
    semver::VersionReq::parse(req).is_ok()
}

/// Relies on `semver::VersionReq::parse` (`req` is well formed, so it
/// parses), on `semver::Version::parse` (it accepts every string of
/// the SemVer 2.0.0 grammar whose numeric components fit in 64 bits,
/// which `ver` is), and on `semver::VersionReq::matches`, whose
/// outcome depends on the two texts alone.
#[verifier::external_body]
pub(crate) fn filter_matches(req: &str, ver: &str) -> (r: bool)
    requires
        req_wf(req@),
        is_valid_text(vstd::utf8::encode_utf8(ver@)),
    ensures
        r == req_match(req@, ver@),
{
    match (semver::VersionReq::parse(req), semver::Version::parse(ver)) {
        (Ok(rq), Ok(v)) => rq.matches(&v),
        _ => false,
    }
}

/// Test one version against a range expression: `Err` exactly on a
/// malformed range, otherwise whether the version lies in the range.
pub fn filter_test(req: &str, version: &Version) -> (r: Result<bool, crate::version::ParseError>)
    requires
        version.wf(),
    ensures
        match r {
            Ok(b) => req_wf(req@) && b == req_match(req@, text_chars(canonical(version@))),
            Err(_) => !req_wf(req@),
        },
{
    if !check_filter(req) {
        return Err(crate::version::ParseError);
    }
    let text = version.to_canonical_string();
    proof {
        lemma_parse_canonical(version@);
    }
    Ok(filter_matches(req, text.as_str()))
}

} // verus!
