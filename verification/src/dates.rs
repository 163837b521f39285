//! Timestamp parsing, through chrono.
//!
//! Both layouts are pure functions of the text, so each result is given a
//! name (`history_datetime_of`, `rfc3339_of`) and the verified code speaks
//! of those names. A timestamp is carried as milliseconds since the Unix
//! epoch.

use vstd::prelude::*;

#[allow(unused_imports)]
use chrono::TimeZone;

verus! {

/// What the history timestamp layout ("Jun 29, 2021, 4:49:36 PM EDT")
/// parses a given text to: milliseconds since the Unix epoch, or nothing if
/// the text does not fit the layout. A function of the text alone.
pub uninterp spec fn history_datetime_of(s: Seq<char>) -> Option<i64>;

/// Relies on chrono's `TimeZone::datetime_from_str` over `Utc` with the
/// fixed layout `%h %e, %Y, %I:%M:%S\u{202f}%p %Z`: whether a text parses,
/// and to which instant, depends on the text alone. The zone name is read
/// over but supplies no offset, so the clock time is taken as UTC.
#[verifier::external_body]
#[allow(deprecated)]
pub(crate) fn parse_history_datetime(s: &str) -> (r: Result<i64, String>)
    ensures
        r is Ok <==> history_datetime_of(s@) is Some,
        r is Ok ==> r->Ok_0 == history_datetime_of(s@)->Some_0,
{
    match chrono::Utc.datetime_from_str(s, "%h %e, %Y, %I:%M:%S\u{202f}%p %Z") {
        Ok(dt) => Ok(dt.timestamp_millis()),
        Err(e) => Err(format!("{}", e)),
    }
}

/// What an RFC 3339 timestamp text denotes: milliseconds since the Unix
/// epoch, or nothing if the text is not one. A function of the text alone.
pub uninterp spec fn rfc3339_of(s: Seq<char>) -> Option<i64>;

/// Relies on chrono's `DateTime::parse_from_rfc3339`: whether a text parses,
/// and to which instant, depends on the text alone.
#[verifier::external_body]
pub(crate) fn parse_rfc3339(s: &str) -> (r: Result<i64, String>)
    ensures
        r is Ok <==> rfc3339_of(s@) is Some,
        r is Ok ==> r->Ok_0 == rfc3339_of(s@)->Some_0,
{
    match chrono::DateTime::parse_from_rfc3339(s) {
        Ok(dt) => Ok(dt.timestamp_millis()),
        Err(e) => Err(format!("{}", e)),
    }
}

} // verus!
