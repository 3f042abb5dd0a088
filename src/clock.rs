use vstd::prelude::*;

verus! {

/// Seconds since the Unix epoch of an RFC 3339 instant; none where the text
/// is no such instant.
pub uninterp spec fn rfc3339_seconds(s: Seq<char>) -> Option<i64>;

/// Seconds since the Unix epoch of an RFC 2822 date; none where the text is
/// no such date.
pub uninterp spec fn rfc2822_seconds(s: Seq<char>) -> Option<i64>;

/// Relies on `chrono::DateTime::parse_from_rfc3339` and `timestamp`: the
/// instant's seconds since the epoch where the text parses.
#[verifier::external_body]
pub fn parse_rfc3339(s: &str) -> (r: Option<i64>)
    ensures
        r == rfc3339_seconds(s@),
{
    chrono::DateTime::parse_from_rfc3339(s).ok().map(|d| d.timestamp())
}

/// Relies on `chrono::DateTime::parse_from_rfc2822` and `timestamp`: the
/// date's seconds since the epoch where the text parses.
#[verifier::external_body]
pub fn parse_rfc2822(s: &str) -> (r: Option<i64>)
    ensures
        r == rfc2822_seconds(s@),
{
    chrono::DateTime::parse_from_rfc2822(s).ok().map(|d| d.timestamp())
}

} // verus!
