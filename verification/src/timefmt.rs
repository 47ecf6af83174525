//! Timestamp text codecs.
//!
//! Publish dates arrive from feeds in RFC 2822 form and are persisted in the
//! canonical RFC 3339 (UTC) text form; in between, the library computes on
//! plain Unix timestamps. The three codecs below are outside calls whose
//! results depend on the input alone, so each result is given a name that the
//! callers' contracts are stated over.

use vstd::prelude::*;

verus! {

/// The Unix timestamp (seconds, UTC) that an RFC 2822 date-time string
/// denotes, or `None` where the string is not a valid RFC 2822 date-time.
pub uninterp spec fn rfc2822_ts(s: Seq<char>) -> Option<int>;

/// The canonical RFC 3339 rendering of a Unix timestamp (seconds, UTC), or
/// `None` where the timestamp lies outside the representable date range.
pub uninterp spec fn rfc3339_text(t: int) -> Option<Seq<char>>;

/// The Unix timestamp (seconds, UTC) that an RFC 3339 date-time string
/// denotes, or `None` where the string is not a valid RFC 3339 date-time.
pub uninterp spec fn rfc3339_ts(s: Seq<char>) -> Option<int>;

/// The timestamps whose UTC date has a four-digit year (0000-01-01 to
/// 9999-12-31): exactly those render as strict RFC 3339 text that parses
/// back. Outside this window the rendering carries a signed, wider year,
/// which the strict parser rejects.
pub open spec fn rfc3339_encodable(t: int) -> bool {
    -62167219200 <= t <= 253402300799
}

/// Relies on chrono's `DateTime::parse_from_rfc2822` and
/// `DateTime::timestamp`: whether the text parses, and the instant it
/// denotes, depend on the characters alone.
#[verifier::external_body]
pub(crate) fn parse_rfc2822(s: &str) -> (r: Option<i64>)
    ensures
        r is Some <==> rfc2822_ts(s@) is Some,
        r matches Some(t) ==> rfc2822_ts(s@) == Some(t as int),
{
    chrono::DateTime::parse_from_rfc2822(s).ok().map(|d| d.timestamp())
}

/// Relies on chrono's `DateTime::from_timestamp`, which is defined on every
/// second of the four-digit-year window, and `DateTime::to_rfc3339`, whose
/// rendering within that window is a plain four-digit-year RFC 3339 string
/// that `parse_from_rfc3339` reads back to the same instant. (Outside the
/// window the rendering widens and signs the year, which the strict parser
/// rejects, so no claim is made there: the window is required.)
#[verifier::external_body]
pub(crate) fn format_rfc3339(t: i64) -> (r: Option<String>)
    requires
        rfc3339_encodable(t as int),
    ensures
        r is Some,
        r matches Some(s) ==> rfc3339_text(t as int) == Some(s@) && rfc3339_ts(s@) == Some(
            t as int,
        ),
{
    chrono::DateTime::from_timestamp(t, 0).map(|d| d.to_rfc3339())
}

/// Relies on chrono's `DateTime::parse_from_rfc3339` and
/// `DateTime::timestamp`: whether the text parses, and the instant it
/// denotes, depend on the characters alone.
#[verifier::external_body]
pub(crate) fn parse_rfc3339(s: &str) -> (r: Option<i64>)
    ensures
        r is Some <==> rfc3339_ts(s@) is Some,
        r matches Some(t) ==> rfc3339_ts(s@) == Some(t as int),
{
    chrono::DateTime::parse_from_rfc3339(s).ok().map(|d| d.timestamp())
}

} // verus!
