//! The failure taxonomy of the sync engine. Transport-level failures carry the
//! server status; protocol failures name the offending header or content type;
//! cache corruption names the cache path; everything else is internal.

use vstd::prelude::*;

verus! {

/// Spec-level picture of an [`Error`], with text as character sequences.
pub enum ErrorSpec {
    /// Non-success server status with any embedded error message.
    BadStatus(u16, Seq<char>),
    /// A required response header was absent.
    MissingHeader(Seq<char>),
    /// An integer-valued header did not parse as one.
    BadIntFormat(Seq<char>),
    /// An integer-valued header was out of the usable range.
    BadIntRange(Seq<char>),
    /// The response content type was not the expected media type.
    BadContentType(Seq<char>),
    /// The envelope carried an error despite a successful transport status.
    ResponseError(Seq<char>),
    /// A timestamp header did not parse as an HTTP date.
    BadHttpDate(Seq<char>),
    /// A cached timestamp did not parse as an RFC 3339 date.
    BadRfc3339(Seq<char>),
    /// A cache file at the given path is corrupt, for the given reason.
    CorruptCache(Seq<char>, Seq<char>),
    /// An invariant of the protocol or of the engine failed.
    Internal(Seq<char>),
}

/// A fatal failure of one unit of sync work.
#[derive(Debug, PartialEq)]
pub enum Error {
    BadStatus(u16, String),
    MissingHeader(String),
    BadIntFormat(String),
    BadIntRange(String),
    BadContentType(String),
    ResponseError(String),
    BadHttpDate(String),
    BadRfc3339(String),
    CorruptCache(String, String),
    Internal(String),
}

impl View for Error {
    type V = ErrorSpec;

    open spec fn view(&self) -> ErrorSpec {
        match self {
            Error::BadStatus(c, m) => ErrorSpec::BadStatus(*c, m@),
            Error::MissingHeader(h) => ErrorSpec::MissingHeader(h@),
            Error::BadIntFormat(h) => ErrorSpec::BadIntFormat(h@),
            Error::BadIntRange(h) => ErrorSpec::BadIntRange(h@),
            Error::BadContentType(t) => ErrorSpec::BadContentType(t@),
            Error::ResponseError(m) => ErrorSpec::ResponseError(m@),
            Error::BadHttpDate(h) => ErrorSpec::BadHttpDate(h@),
            Error::BadRfc3339(t) => ErrorSpec::BadRfc3339(t@),
            Error::CorruptCache(p, m) => ErrorSpec::CorruptCache(p@, m@),
            Error::Internal(m) => ErrorSpec::Internal(m@),
        }
    }
}

/// An internal error with the given message.
pub fn internal(msg: &str) -> (e: Error)
    ensures
        e@ == ErrorSpec::Internal(msg@),
{
    Error::Internal(msg.to_owned())
}

/// A cache-corruption error for the cache at `path`.
pub fn corrupt_cache(path: &str, msg: &str) -> (e: Error)
    ensures
        e@ == ErrorSpec::CorruptCache(path@, msg@),
{
    Error::CorruptCache(path.to_owned(), msg.to_owned())
}

/// A fatal-status error carrying the server status and its message.
pub fn bad_status(status: u16, message: String) -> (e: Error)
    ensures
        e@ == ErrorSpec::BadStatus(status, message@),
{
    Error::BadStatus(status, message)
}

} // verus!
