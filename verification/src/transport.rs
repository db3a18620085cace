//! The conditional-fetch transport layer, as decisions over one response at
//! a time: success is validated and yields snapshot metadata plus the
//! envelope, a not-modified status is a first-class cache hit, rate limiting
//! asks for a delayed retry of the same request, and everything else is
//! fatal. A driver folds the decision over a whole exchange, so that rate
//! limiting is provably transparent to callers.

use vstd::prelude::*;

use crate::digits::dec_value;
use crate::digits::parse_u64;
use crate::digits::parses_as_u64;
use crate::envelope::envelope_bad_status;
use crate::envelope::envelope_error_text;
use crate::envelope::ensure_ok;
use crate::envelope::status_is_success;
use crate::envelope::Envelope;
use crate::error::bad_status;
use crate::error::internal;
use crate::error::Error;
use crate::error::ErrorSpec;
use crate::headers::ensure_json;
use crate::headers::extract_header;
use crate::headers::media_type_ok;
use crate::headers::snapshot_time;
use crate::headers::trimmed;
use crate::headers::CacheHeader;
use crate::httptime::http_date_value;

verus! {

/// The retry delay when the rate-limit response names none, or an unusable
/// one, in seconds.
pub const DEFAULT_RETRY_SECS: u64 = 60;

/// The not-modified status.
pub const STATUS_NOT_MODIFIED: u16 = 304;

/// The rate-limited status.
pub const STATUS_TOO_MANY_REQUESTS: u16 = 429;

/// The plain-value picture of one HTTP exchange: transport status, the
/// consumed headers, the parsed envelope when the body parsed, and the
/// failure text the runtime derived from a non-success body.
#[derive(Debug)]
pub struct FetchResponse {
    pub status: u16,
    pub content_type: Option<String>,
    pub date: Option<String>,
    pub age: Option<String>,
    pub etag: Option<String>,
    pub retry_after: Option<String>,
    pub envelope: Option<Envelope>,
    pub fail_text: String,
}

/// What the transport layer does with one response.
#[derive(Debug, PartialEq)]
pub enum FetchStep {
    /// Validated success: snapshot metadata and the envelope.
    Done(CacheHeader, Envelope),
    /// The resource is unchanged; the caller keeps its cache.
    CacheHit,
    /// Rate-limited: wait this many seconds, then retry the same request.
    Retry(u64),
    /// A fatal error.
    Fail(Error),
}

/// Whether the response asks for a delayed retry.
pub open spec fn is_throttled(res: FetchResponse) -> bool {
    !status_is_success(res.status) && res.status == STATUS_TOO_MANY_REQUESTS
}

/// The delay a rate-limited response asks for: its retry-after header when
/// that is a decimal number of seconds, the default otherwise.
pub open spec fn throttle_delay(res: FetchResponse) -> u64 {
    match res.retry_after {
        Some(a) => if parses_as_u64(a@) {
            dec_value(a@) as u64
        } else {
            DEFAULT_RETRY_SECS
        },
        None => DEFAULT_RETRY_SECS,
    }
}

/// The spec-level age header of a response.
pub open spec fn age_text(res: FetchResponse) -> Option<Seq<char>> {
    match res.age {
        Some(a) => Some(a@),
        None => None,
    }
}

/// Whether `out` is the outcome that the success path owes for `res`:
/// the checks run in order — content type, snapshot metadata, body
/// presence, envelope status — and the first to fail names the error;
/// when all pass, the outcome carries the snapshot metadata and envelope.
pub open spec fn success_outcome_matches(
    res: FetchResponse,
    out: Result<Option<(CacheHeader, Envelope)>, Error>,
) -> bool {
    if res.content_type is None {
        out matches Err(e) && e@ == ErrorSpec::MissingHeader("content-type"@)
    } else if !media_type_ok(res.content_type->0@) {
        out matches Err(e) && e@ == ErrorSpec::BadContentType(trimmed(res.content_type->0@))
    } else if res.date is None {
        out matches Err(e) && e@ == ErrorSpec::MissingHeader("date"@)
    } else if http_date_value(res.date->0@) is None {
        out matches Err(e) && e@ == ErrorSpec::BadHttpDate(res.date->0@)
    } else if res.age is Some && !parses_as_u64(res.age->0@) {
        out matches Err(e) && e@ == ErrorSpec::BadIntFormat("age"@)
    } else if res.age is Some && dec_value(res.age->0@) > http_date_value(res.date->0@)->0 {
        out matches Err(e) && e@ == ErrorSpec::BadIntRange("age"@)
    } else if res.envelope is None {
        out matches Err(e) && e@ == ErrorSpec::Internal("missing response body"@)
    } else if envelope_bad_status(res.envelope->0) {
        out matches Err(e) && e@ == ErrorSpec::BadStatus(
            res.envelope->0.status->0,
            envelope_error_text(res.envelope->0),
        )
    } else if res.envelope->0.error is Some {
        out matches Err(e) && e@ == ErrorSpec::ResponseError(res.envelope->0.error->0@)
    } else {
        out matches Ok(o) && o matches Some(p) && {
            &&& p.0.date_secs == snapshot_time(res.date->0@, age_text(res))
            &&& (match (p.0.etag, res.etag) {
                (Some(a), Some(b)) => a@ == b@,
                (None, None) => true,
                _ => false,
            })
            &&& p.1 == res.envelope->0
        }
    }
}

/// Whether `out` is the outcome that one exchange owes for `res`, over all
/// status classes; a rate-limited response owes no outcome.
pub open spec fn outcome_matches(
    res: FetchResponse,
    out: Result<Option<(CacheHeader, Envelope)>, Error>,
) -> bool {
    if status_is_success(res.status) {
        success_outcome_matches(res, out)
    } else if res.status == STATUS_NOT_MODIFIED {
        out == Ok::<Option<(CacheHeader, Envelope)>, Error>(None)
    } else {
        out matches Err(e) && e@ == ErrorSpec::BadStatus(res.status, res.fail_text@)
    }
}

/// Whether the step `st` is the one owed for `res`.
pub open spec fn step_matches(res: FetchResponse, st: FetchStep) -> bool {
    match st {
        FetchStep::Done(h, env) => status_is_success(res.status) && success_outcome_matches(
            res,
            Ok(Some((h, env))),
        ),
        FetchStep::CacheHit => !status_is_success(res.status) && res.status
            == STATUS_NOT_MODIFIED,
        FetchStep::Retry(d) => is_throttled(res) && d == throttle_delay(res),
        FetchStep::Fail(e) => if status_is_success(res.status) {
            success_outcome_matches(res, Err(e))
        } else {
            &&& res.status != STATUS_NOT_MODIFIED
            &&& res.status != STATUS_TOO_MANY_REQUESTS
            &&& e@ == ErrorSpec::BadStatus(res.status, res.fail_text@)
        },
    }
}

/// Decides what one response means: a validated success, a cache hit, a
/// delayed retry, or a fatal error.
pub fn fetch_step(res: FetchResponse) -> (r: FetchStep)
    ensures
        step_matches(res, r),
        status_is_success(res.status) ==> r is Done || r is Fail,
        !status_is_success(res.status) && res.status == STATUS_NOT_MODIFIED ==> r is CacheHit,
        is_throttled(res) ==> r is Retry,
        !status_is_success(res.status) && res.status != STATUS_NOT_MODIFIED && res.status
            != STATUS_TOO_MANY_REQUESTS ==> r is Fail,
{
    let status = res.status;
    if 200 <= status && status <= 299 {
        let ct = match res.content_type {
            Some(ct) => ct,
            None => {
                let st = FetchStep::Fail(Error::MissingHeader("content-type".to_owned()));
                proof {
                    assert(step_matches(res, st));
                }
                return st;
            },
        };
        if let Err(e) = ensure_json(ct.as_str()) {
            let st = FetchStep::Fail(e);
            proof {
                assert(step_matches(res, st));
            }
            return st;
        }
        let date_ref = match &res.date {
            Some(d) => Some(d.as_str()),
            None => None,
        };
        let age_ref = match &res.age {
            Some(a) => Some(a.as_str()),
            None => None,
        };
        let etag_ref = match &res.etag {
            Some(t) => Some(t.as_str()),
            None => None,
        };
        let header = match extract_header(date_ref, age_ref, etag_ref) {
            Ok(h) => h,
            Err(e) => {
                let st = FetchStep::Fail(e);
                proof {
                    assert(step_matches(res, st));
                }
                return st;
            },
        };
        let env = match res.envelope {
            Some(env) => env,
            None => {
                let st = FetchStep::Fail(internal("missing response body"));
                proof {
                    assert(step_matches(res, st));
                }
                return st;
            },
        };
        if let Err(e) = ensure_ok(&env) {
            let st = FetchStep::Fail(e);
            proof {
                assert(step_matches(res, st));
            }
            return st;
        }
        let st = FetchStep::Done(header, env);
        proof {
            assert(step_matches(res, st));
        }
        st
    } else if status == STATUS_NOT_MODIFIED {
        FetchStep::CacheHit
    } else if status == STATUS_TOO_MANY_REQUESTS {
        let delay = match &res.retry_after {
            Some(a) => match parse_u64(a.as_str()) {
                Some(n) => n,
                None => DEFAULT_RETRY_SECS,
            },
            None => DEFAULT_RETRY_SECS,
        };
        let st = FetchStep::Retry(delay);
        proof {
            assert(step_matches(res, st));
        }
        st
    } else {
        let st = FetchStep::Fail(bad_status(status, res.fail_text));
        proof {
            assert(step_matches(res, st));
        }
        st
    }
}

/// The delays that the leading rate-limited responses ask for.
pub open spec fn spec_sleeps(rs: Seq<FetchResponse>) -> Seq<u64>
    decreases rs.len(),
{
    if rs.len() == 0 {
        Seq::<u64>::empty()
    } else if is_throttled(rs[0]) {
        seq![throttle_delay(rs[0])] + spec_sleeps(rs.drop_first())
    } else {
        Seq::<u64>::empty()
    }
}

/// The index of the first response that is not rate-limited, if any: the one
/// that decides the exchange.
pub open spec fn spec_decisive(rs: Seq<FetchResponse>) -> Option<int>
    decreases rs.len(),
{
    if rs.len() == 0 {
        None
    } else if !is_throttled(rs[0]) {
        Some(0int)
    } else {
        match spec_decisive(rs.drop_first()) {
            Some(i) => Some(i + 1),
            None => None,
        }
    }
}

/// Rate limiting is transparent to callers: a leading rate-limited response
/// only prepends its delay to the recorded sleeps, and the exchange is
/// decided by the same response that would decide it without the throttle.
pub proof fn lemma_throttle_transparent(rs: Seq<FetchResponse>)
    requires
        rs.len() > 0,
        is_throttled(rs[0]),
    ensures
        spec_sleeps(rs) == seq![throttle_delay(rs[0])] + spec_sleeps(rs.drop_first()),
        spec_decisive(rs) is Some <==> spec_decisive(rs.drop_first()) is Some,
        spec_decisive(rs) matches Some(i) ==> 1 <= i <= rs.len() - 1 && spec_decisive(
            rs.drop_first(),
        ) == Some(i - 1) && rs[i] == rs.drop_first()[i - 1],
{
    lemma_decisive_in_range(rs.drop_first());
}

/// The decisive index lies inside the sequence.
pub proof fn lemma_decisive_in_range(rs: Seq<FetchResponse>)
    ensures
        spec_decisive(rs) matches Some(i) ==> 0 <= i < rs.len() && !is_throttled(rs[i]),
    decreases rs.len(),
{
    if rs.len() > 0 && is_throttled(rs[0]) {
        lemma_decisive_in_range(rs.drop_first());
    }
}

/// Folds the transport decision over a whole exchange, one response per
/// attempt: the recorded sleeps are the delays of the leading rate-limited
/// responses, and the outcome is owed by the first decisive response. With
/// no decisive response the exchange is still waiting.
pub fn run_fetch(responses: Vec<FetchResponse>) -> (r: (
    Vec<u64>,
    Option<Result<Option<(CacheHeader, Envelope)>, Error>>,
))
    ensures
        r.0@ == spec_sleeps(responses@),
        r.1 is None <==> spec_decisive(responses@) is None,
        r.1 matches Some(out) ==> spec_decisive(responses@) matches Some(i) && outcome_matches(
            responses@[i],
            out,
        ),
    decreases responses@.len(),
{
    let mut responses = responses;
    if responses.len() == 0 {
        return (Vec::new(), None);
    }
    let ghost rs0 = responses@;
    let first = responses.remove(0);
    proof {
        assert(responses@ =~= rs0.drop_first());
        assert(first == rs0[0]);
    }
    match fetch_step(first) {
        FetchStep::Retry(d) => {
            let (mut sleeps, out) = run_fetch(responses);
            sleeps.insert(0, d);
            proof {
                assert(sleeps@ =~= spec_sleeps(rs0));
                if out is Some {
                    lemma_decisive_in_range(rs0.drop_first());
                }
            }
            (sleeps, out)
        },
        FetchStep::Done(h, env) => (Vec::new(), Some(Ok(Some((h, env))))),
        FetchStep::CacheHit => (Vec::new(), Some(Ok(None))),
        FetchStep::Fail(e) => (Vec::new(), Some(Err(e))),
    }
}

} // verus!
