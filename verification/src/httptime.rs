//! Timestamps at the HTTP and cache boundary, as seconds since the Unix
//! epoch. Parsing and formatting of date text is delegated to outside
//! libraries; each result is named, since it depends on the text or the
//! timestamp alone.

use vstd::prelude::*;

verus! {

/// Seconds from the Unix epoch to the year ten thousand. HTTP dates lie
/// strictly below this bound.
pub const HTTP_DATE_LIMIT: u64 = 253402300800;

/// The timestamp that the HTTP-date text `s` denotes, if any.
pub uninterp spec fn http_date_value(s: Seq<char>) -> Option<u64>;

/// The IMF-fixdate text for the timestamp `t`.
pub uninterp spec fn http_date_text(t: u64) -> Seq<char>;

/// The RFC 3339 text for the timestamp `t`.
pub uninterp spec fn rfc3339_text(t: u64) -> Seq<char>;

/// The timestamp that the RFC 3339 text `s` denotes, if any.
pub uninterp spec fn rfc3339_value(s: Seq<char>) -> Option<i64>;

/// Relies on httpdate::parse_http_date: parses the IMF-fixdate and legacy
/// HTTP date formats into a time between 1970 and the year ten thousand; the
/// result depends on the text alone.
#[verifier::external_body]
pub(crate) fn parse_http_date_secs(s: &str) -> (r: Option<u64>)
    ensures
        r == http_date_value(s@),
        r matches Some(t) ==> t < HTTP_DATE_LIMIT,
{
    match httpdate::parse_http_date(s) {
        Ok(time) => match time.duration_since(std::time::UNIX_EPOCH) {
            Ok(d) => Some(d.as_secs()),
            Err(_) => None,
        },
        Err(_) => None,
    }
}

/// Relies on httpdate::fmt_http_date: formats a timestamp before the year
/// ten thousand as the 29-character IMF-fixdate; the result depends on the
/// timestamp alone.
#[verifier::external_body]
pub(crate) fn format_http_date(t: u64) -> (r: String)
    requires
        t < HTTP_DATE_LIMIT,
    ensures
        r@ == http_date_text(t),
        r@.len() == 29,
{
    httpdate::fmt_http_date(std::time::UNIX_EPOCH + std::time::Duration::from_secs(t))
}

/// Relies on chrono: DateTime::from_timestamp puts a timestamp below the
/// year ten thousand well inside its range, and to_rfc3339 formats it; the
/// result depends on the timestamp alone.
#[verifier::external_body]
pub(crate) fn format_rfc3339(t: u64) -> (r: String)
    requires
        t < HTTP_DATE_LIMIT,
    ensures
        r@ == rfc3339_text(t),
{
    match chrono::DateTime::from_timestamp(t as i64, 0) {
        Some(dt) => dt.to_rfc3339(),
        None => String::new(),
    }
}

/// Relies on chrono: DateTime::parse_from_rfc3339 and timestamp; the result
/// depends on the text alone, and parsing inverts chrono's own RFC 3339
/// formatting of a whole-second UTC timestamp.
#[verifier::external_body]
pub(crate) fn parse_rfc3339_secs(s: &str) -> (r: Option<i64>)
    ensures
        r == rfc3339_value(s@),
        forall|t: u64| t < HTTP_DATE_LIMIT && s@ == rfc3339_text(t) ==> r == Some(t as i64),
{
    match chrono::DateTime::parse_from_rfc3339(s) {
        Ok(dt) => Some(dt.timestamp()),
        Err(_) => None,
    }
}

} // verus!
