//! Owner-account sync decisions: the conditional headers a prior snapshot
//! contributes to a request, and the identity taken out of a fetched user
//! record.

use vstd::prelude::*;

use crate::envelope::extract_id;
use crate::envelope::id_err;
use crate::envelope::id_of;
use crate::envelope::id_ok;
use crate::error::internal;
use crate::error::Error;
use crate::error::ErrorSpec;
use crate::headers::CacheHeader;
use crate::httptime::http_date_text;
use crate::value::field_value;
use crate::value::fields_unique;
use crate::value::has_field;
use crate::value::Object;
use crate::value::Value;

verus! {

/// The conditional request headers a prior snapshot contributes: its time as
/// an HTTP date, and its entity tag when it has one.
pub fn conditional_headers(prior: &Option<CacheHeader>) -> (r: Vec<(String, String)>)
    requires
        prior matches Some(h) ==> h.wf(),
    ensures
        prior is None ==> r@.len() == 0,
        prior matches Some(h) ==> {
            &&& r@.len() == (if h.etag is Some {
                2int
            } else {
                1int
            })
            &&& r@[0].0@ == "if-modified-since"@ && r@[0].1@ == http_date_text(h.date_secs)
            &&& (h.etag matches Some(tag) ==> r@[1].0@ == "if-none-match"@ && r@[1].1@ == tag@)
        },
{
    let mut r: Vec<(String, String)> = Vec::new();
    if let Some(h) = prior {
        r.push(("if-modified-since".to_owned(), h.if_modified_since()));
        if let Some(tag) = &h.etag {
            r.push(("if-none-match".to_owned(), tag.clone()));
        }
    }
    r
}

/// The identity of a fetched user record: its numeric id and its login name.
pub fn user_identity(record: &Object) -> (r: Result<(u64, String), Error>)
    requires
        fields_unique(record@),
    ensures
        r is Ok <==> id_ok(*record) && has_field(record@, "login"@) && field_value(
            record@,
            "login"@,
        ) is Str,
        r matches Ok(p) ==> {
            &&& id_ok(*record) && p.0 == id_of(*record)
            &&& has_field(record@, "login"@)
            &&& field_value(record@, "login"@) matches Value::Str(s) && p.1@ == s@
        },
        !id_ok(*record) ==> (r matches Err(e) && e@ == id_err(*record)),
        id_ok(*record) && !has_field(record@, "login"@) ==> (r matches Err(e) && e@
            == ErrorSpec::Internal("user login not found"@)),
        id_ok(*record) && has_field(record@, "login"@) && !(field_value(record@, "login"@) is Str)
            ==> (r matches Err(e) && e@ == ErrorSpec::Internal("user login was not a string"@)),
{
    let id = match extract_id(record) {
        Ok(id) => id,
        Err(e) => {
            return Err(e);
        },
    };
    match record.get("login") {
        None => Err(internal("user login not found")),
        Some(v) => match v {
            Value::Str(s) => Ok((id, s.clone())),
            _ => Err(internal("user login was not a string")),
        },
    }
}

} // verus!
