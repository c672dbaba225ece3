use vstd::prelude::*;

verus! {

/// The Unix-second value that a stored timestamp string denotes: the parsed
/// RFC 3339 instant, or the epoch sentinel for a string that does not parse.
/// A function of the characters alone.
pub uninterp spec fn rfc3339_secs(s: Seq<char>) -> i64;

/// Relies on chrono's `DateTime::parse_from_rfc3339` and
/// `DateTime::timestamp`: both are pure functions of the string, so the
/// composite is named by `rfc3339_secs`. A malformed string falls back to
/// chrono's `Default` datetime, which is the Unix epoch.
#[verifier::external_body]
pub(crate) fn parse_time(t: &str) -> (secs: i64)
    ensures
        secs == rfc3339_secs(t@),
{
    chrono::DateTime::parse_from_rfc3339(t).unwrap_or_default().timestamp()
}

} // verus!
