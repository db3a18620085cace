//! The response envelope: the top-level JSON wrapper of every API response,
//! either a page of results with its paging counters or a status/error pair.

use vstd::prelude::*;

use crate::digits::dec_digits;
use crate::digits::u64_string;
use crate::error::internal;
use crate::error::Error;
use crate::error::ErrorSpec;
use crate::value::field_value;
use crate::value::fields_unique;
use crate::value::has_field;
use crate::value::str_concat;
use crate::value::Object;
use crate::value::Value;

verus! {

/// A parsed response envelope. A success carries paging counters and the
/// result records; a failure carries a status and an error message. Either
/// side may be partially absent, so every field is optional.
#[derive(Debug, PartialEq)]
pub struct Envelope {
    pub page: Option<u64>,
    pub per_page: Option<u64>,
    pub total_results: Option<u64>,
    pub results: Option<Vec<Object>>,
    pub status: Option<u16>,
    pub error: Option<String>,
}

impl Envelope {
    /// Every result record is well-formed.
    pub open spec fn wf(self) -> bool {
        self.results matches Some(rs) ==> forall|i: int|
            0 <= i < rs@.len() ==> (#[trigger] rs@[i]).wf()
    }
}

/// Whether a server status is a success status.
pub open spec fn status_is_success(c: u16) -> bool {
    200 <= c <= 299
}

/// Whether a number is a server status at all.
pub open spec fn status_is_valid(c: u16) -> bool {
    100 <= c <= 999
}

/// Whether the envelope carries a valid non-success status.
pub open spec fn envelope_bad_status(env: Envelope) -> bool {
    env.status matches Some(c) && status_is_valid(c) && !status_is_success(c)
}

/// The message text of the envelope, empty when absent.
pub open spec fn envelope_error_text(env: Envelope) -> Seq<char> {
    match env.error {
        Some(m) => m@,
        None => Seq::<char>::empty(),
    }
}

/// Rejects an envelope that reports failure despite a successful transport
/// status: a valid non-success embedded status, or an embedded error message.
pub fn ensure_ok(env: &Envelope) -> (r: Result<(), Error>)
    ensures
        r is Ok <==> !envelope_bad_status(*env) && env.error is None,
        envelope_bad_status(*env) ==> (r matches Err(e) && e@ == ErrorSpec::BadStatus(
            env.status->0,
            envelope_error_text(*env),
        )),
        !envelope_bad_status(*env) && env.error is Some ==> (r matches Err(e) && e@
            == ErrorSpec::ResponseError(env.error->0@)),
{
    if let Some(status) = env.status {
        if 100 <= status && status <= 999 && !(200 <= status && status <= 299) {
            let msg = match &env.error {
                Some(m) => m.clone(),
                None => String::new(),
            };
            return Err(Error::BadStatus(status, msg));
        }
    }
    match &env.error {
        Some(m) => Err(Error::ResponseError(m.clone())),
        None => Ok(()),
    }
}

/// Whether the page described by the envelope's counters is the final page:
/// `page * per_page >= total_results`.
pub fn is_last_page(env: &Envelope) -> (r: Result<bool, Error>)
    ensures
        env.page is Some && env.per_page is Some && env.total_results is Some ==> r == Ok::<
            bool,
            Error,
        >((env.page->0 as int) * (env.per_page->0 as int) >= env.total_results->0 as int),
        env.page is None ==> (r matches Err(e) && e@ == ErrorSpec::Internal("missing: page"@)),
        env.page is Some && env.per_page is None ==> (r matches Err(e) && e@
            == ErrorSpec::Internal("missing: per_page"@)),
        env.page is Some && env.per_page is Some && env.total_results is None ==> (r matches Err(
            e,
        ) && e@ == ErrorSpec::Internal("missing: total_results"@)),
{
    let page = match env.page {
        Some(v) => v,
        None => {
            return Err(internal("missing: page"));
        },
    };
    let per_page = match env.per_page {
        Some(v) => v,
        None => {
            return Err(internal("missing: per_page"));
        },
    };
    let total_results = match env.total_results {
        Some(v) => v,
        None => {
            return Err(internal("missing: total_results"));
        },
    };
    match page.checked_mul(per_page) {
        Some(prod) => Ok(prod >= total_results),
        None => Ok(true),
    }
}

/// Whether a record carries a numeric id.
pub open spec fn id_ok(o: Object) -> bool {
    has_field(o@, "id"@) && field_value(o@, "id"@) is UInt
}

/// The id of a record that carries one.
pub open spec fn id_of(o: Object) -> u64 {
    field_value(o@, "id"@)->UInt_0
}

/// Why a record carries no id.
pub open spec fn id_err(o: Object) -> ErrorSpec {
    if !has_field(o@, "id"@) {
        ErrorSpec::Internal("missing id"@)
    } else {
        ErrorSpec::Internal("id is not u64"@)
    }
}

/// Reads the numeric `id` field every entity must carry.
pub fn extract_id(obj: &Object) -> (r: Result<u64, Error>)
    requires
        fields_unique(obj@),
    ensures
        r matches Ok(id) ==> id_ok(*obj) && id == id_of(*obj),
        r matches Err(e) ==> !id_ok(*obj) && e@ == id_err(*obj),
{
    match obj.get("id") {
        None => Err(internal("missing id")),
        Some(v) => match v {
            Value::UInt(id) => Ok(*id),
            _ => Err(internal("id is not u64")),
        },
    }
}

/// Takes the result records out of the envelope; their absence is an error.
pub fn expect_results(env: Envelope) -> (r: Result<Vec<Object>, Error>)
    ensures
        env.results matches Some(rs) ==> r == Ok::<Vec<Object>, Error>(rs),
        env.results is None ==> (r matches Err(e) && e@ == ErrorSpec::Internal("no results"@)),
{
    match env.results {
        Some(rs) => Ok(rs),
        None => Err(internal("no results")),
    }
}

/// Whether `e` is the failure of the first record in `rs` without a usable
/// id, every earlier record having one.
pub open spec fn first_id_failure(rs: Seq<Object>, e: ErrorSpec) -> bool {
    exists|i: int|
        {
            &&& 0 <= i < rs.len()
            &&& !id_ok(#[trigger] rs[i])
            &&& e == id_err(rs[i])
            &&& forall|j: int| 0 <= j < i ==> id_ok(#[trigger] rs[j])
        }
}

/// The ids of the envelope's result records, in order.
pub fn extract_ids(env: Envelope) -> (r: Result<Vec<u64>, Error>)
    requires
        env.wf(),
    ensures
        r matches Ok(ids) ==> {
            &&& env.results matches Some(rs)
            &&& ids@.len() == rs@.len()
            &&& forall|i: int|
                0 <= i < rs@.len() ==> id_ok(#[trigger] rs@[i]) && ids@[i] == id_of(rs@[i])
        },
        r matches Err(e) ==> {
            ||| (env.results is None && e@ == ErrorSpec::Internal("no results"@))
            ||| (env.results is Some && first_id_failure(env.results->0@, e@))
        },
{
    let rs = match expect_results(env) {
        Ok(rs) => rs,
        Err(e) => {
            return Err(e);
        },
    };
    let mut ids: Vec<u64> = Vec::new();
    let n = rs.len();
    let mut i: usize = 0;
    while i < n
        invariant
            env.results is Some,
            rs == env.results->0,
            0 <= i <= n,
            n == rs@.len(),
            ids@.len() == i,
            forall|k: int| 0 <= k < rs@.len() ==> (#[trigger] rs@[k]).wf(),
            forall|j: int| 0 <= j < i ==> id_ok(#[trigger] rs@[j]) && ids@[j] == id_of(rs@[j]),
        decreases n - i,
    {
        match extract_id(&rs[i]) {
            Ok(id) => {
                ids.push(id);
            },
            Err(e) => {
                proof {
                    let w = i as int;
                    assert(0 <= w < rs@.len() && !id_ok(rs@[w]) && e@ == id_err(rs@[w]) && (forall|
                        j: int,
                    | 0 <= j < w ==> id_ok(#[trigger] rs@[j])));
                    assert(first_id_failure(rs@, e@));
                }
                return Err(e);
            },
        }
        i += 1;
    }
    Ok(ids)
}

/// Whether counter `c` is compatible with a single-value response, where every
/// present counter must equal one.
pub open spec fn counter_is_one(c: Option<u64>) -> bool {
    c matches Some(v) ==> v == 1
}

/// The complaint for a counter that should have been one.
pub open spec fn counter_complaint(name: Seq<char>, v: u64) -> Seq<char> {
    "expected "@ + name + ": 1; got: "@ + dec_digits(v as nat)
}

fn check_counter_is_one(c: Option<u64>, name: &str) -> (r: Result<(), Error>)
    ensures
        counter_is_one(c) ==> r is Ok,
        !counter_is_one(c) ==> (r matches Err(e) && e@ == ErrorSpec::Internal(
            counter_complaint(name@, c->0),
        )),
{
    match c {
        Some(v) => {
            if v != 1 {
                let msg = str_concat(
                    str_concat(str_concat("expected ", name).as_str(), ": 1; got: ").as_str(),
                    u64_string(v).as_str(),
                );
                Err(Error::Internal(msg))
            } else {
                Ok(())
            }
        },
        None => Ok(()),
    }
}

/// Takes the single record out of a single-value response, after checking
/// that every present counter equals one.
pub fn extract_single_value(env: Envelope) -> (r: Result<Object, Error>)
    ensures
        r matches Ok(o) ==> {
            &&& counter_is_one(env.page)
            &&& counter_is_one(env.per_page)
            &&& counter_is_one(env.total_results)
            &&& env.results matches Some(rs) && rs@.len() > 0 && o == rs@[0]
        },
        !counter_is_one(env.page) ==> (r matches Err(e) && e@ == ErrorSpec::Internal(
            counter_complaint("page"@, env.page->0),
        )),
        counter_is_one(env.page) && !counter_is_one(env.per_page) ==> (r matches Err(e) && e@
            == ErrorSpec::Internal(counter_complaint("per_page"@, env.per_page->0))),
        counter_is_one(env.page) && counter_is_one(env.per_page) && !counter_is_one(
            env.total_results,
        ) ==> (r matches Err(e) && e@ == ErrorSpec::Internal(
            counter_complaint("total_results"@, env.total_results->0),
        )),
        counter_is_one(env.page) && counter_is_one(env.per_page) && counter_is_one(
            env.total_results,
        ) ==> {
            ||| (env.results is None && (r matches Err(e) && e@ == ErrorSpec::Internal(
                "no results"@,
            )))
            ||| (env.results matches Some(rs) && rs@.len() == 0 && (r matches Err(e) && e@
                == ErrorSpec::Internal("empty results array"@)))
            ||| (env.results matches Some(rs) && rs@.len() > 0 && r == Ok::<Object, Error>(rs@[0]))
        },
{
    if let Err(e) = check_counter_is_one(env.page, "page") {
        return Err(e);
    }
    if let Err(e) = check_counter_is_one(env.per_page, "per_page") {
        return Err(e);
    }
    if let Err(e) = check_counter_is_one(env.total_results, "total_results") {
        return Err(e);
    }
    let mut rs = match expect_results(env) {
        Ok(rs) => rs,
        Err(e) => {
            return Err(e);
        },
    };
    if rs.len() == 0 {
        return Err(internal("empty results array"));
    }
    let first = rs.remove(0);
    Ok(first)
}

} // verus!
