//! The transport layer: envelope checks, content types, snapshot metadata,
//! and the retry/cache-hit/fatal decision, including the rate-limit and
//! not-modified scenarios.

use inat::envelope::{ensure_ok, extract_single_value, is_last_page, Envelope};
use inat::error::Error;
use inat::headers::{ensure_json, extract_header, trim_str};
use inat::transport::{fetch_step, run_fetch, FetchResponse, FetchStep};
use inat::value::{Object, Value};

fn empty_envelope() -> Envelope {
    Envelope {
        page: None,
        per_page: None,
        total_results: None,
        results: None,
        status: None,
        error: None,
    }
}

fn user_record() -> Object {
    let mut o = Object::new();
    o.put("id", Value::UInt(7));
    o.put("login", Value::Str("x".to_string()));
    o
}

fn ok_response() -> FetchResponse {
    let mut env = empty_envelope();
    env.page = Some(1);
    env.per_page = Some(1);
    env.total_results = Some(1);
    env.results = Some(vec![user_record()]);
    FetchResponse {
        status: 200,
        content_type: Some("application/json; charset=utf-8".to_string()),
        date: Some("Fri, 15 May 2015 15:34:21 GMT".to_string()),
        age: Some("60".to_string()),
        etag: Some("\"abc\"".to_string()),
        retry_after: None,
        envelope: Some(env),
        fail_text: String::new(),
    }
}

#[test]
fn accepts_expected_media_types() {
    assert!(ensure_json("application/json").is_ok());
    assert!(ensure_json("application/json; charset=utf-8").is_ok());
    assert!(ensure_json("  Application/JSON ;charset=UTF-8  ").is_ok());
}

#[test]
fn rejects_other_media_types() {
    assert_eq!(
        ensure_json("text/html"),
        Err(Error::BadContentType("text/html".to_string()))
    );
    assert!(ensure_json("application/json; charset=utf-16").is_err());
    // anything after the charset qualifier is fatal too
    assert!(ensure_json("application/json;charset=utf-8;whatever").is_err());
    assert!(ensure_json("").is_err());
}

#[test]
fn trims_header_values() {
    assert_eq!(trim_str("  a b\t"), "a b");
    assert_eq!(trim_str("\r\n"), "");
    assert_eq!(trim_str("x"), "x");
}

#[test]
fn extracts_snapshot_metadata() {
    // the true resource time is the date header less the age header
    let h = extract_header(
        Some("Fri, 15 May 2015 15:34:21 GMT"),
        Some("60"),
        Some("\"abc\""),
    )
    .unwrap();
    assert_eq!(h.date_secs, 1431704001);
    assert_eq!(h.date_secs, 1431704061 - 60);
    assert_eq!(h.etag, Some("\"abc\"".to_string()));
    let plain = extract_header(Some("Fri, 15 May 2015 15:34:21 GMT"), None, None).unwrap();
    assert_eq!(plain.date_secs, 1431704061);
    assert_eq!(plain.etag, None);
}

#[test]
fn rejects_bad_snapshot_metadata() {
    assert_eq!(
        extract_header(None, None, None),
        Err(Error::MissingHeader("date".to_string()))
    );
    assert_eq!(
        extract_header(Some("yesterday"), None, None),
        Err(Error::BadHttpDate("yesterday".to_string()))
    );
    assert_eq!(
        extract_header(Some("Fri, 15 May 2015 15:34:21 GMT"), Some("sixty"), None),
        Err(Error::BadIntFormat("age".to_string()))
    );
    assert_eq!(
        extract_header(Some("Thu, 01 Jan 1970 00:00:10 GMT"), Some("11"), None),
        Err(Error::BadIntRange("age".to_string()))
    );
}

#[test]
fn envelope_failure_pairs_are_fatal() {
    let mut env = empty_envelope();
    env.status = Some(404);
    env.error = Some("not found".to_string());
    assert_eq!(
        ensure_ok(&env),
        Err(Error::BadStatus(404, "not found".to_string()))
    );
    let mut env2 = empty_envelope();
    env2.error = Some("broken".to_string());
    assert_eq!(
        ensure_ok(&env2),
        Err(Error::ResponseError("broken".to_string()))
    );
    let mut env3 = empty_envelope();
    env3.status = Some(200);
    assert!(ensure_ok(&env3).is_ok());
}

#[test]
fn last_page_formula() {
    let mut env = empty_envelope();
    env.page = Some(3);
    env.per_page = Some(20);
    env.total_results = Some(45);
    assert_eq!(is_last_page(&env), Ok(true));
    env.page = Some(2);
    assert_eq!(is_last_page(&env), Ok(false));
    env.per_page = None;
    assert_eq!(
        is_last_page(&env),
        Err(Error::Internal("missing: per_page".to_string()))
    );
}

#[test]
fn single_value_checks_counters() {
    let mut env = empty_envelope();
    env.page = Some(5);
    assert_eq!(
        extract_single_value(env),
        Err(Error::Internal("expected page: 1; got: 5".to_string()))
    );
    let mut good = empty_envelope();
    good.page = Some(1);
    good.per_page = Some(1);
    good.total_results = Some(1);
    good.results = Some(vec![user_record()]);
    assert_eq!(extract_single_value(good), Ok(user_record()));
    let mut empty = empty_envelope();
    empty.results = Some(vec![]);
    assert_eq!(
        extract_single_value(empty),
        Err(Error::Internal("empty results array".to_string()))
    );
}

#[test]
fn success_is_validated_and_carries_metadata() {
    match fetch_step(ok_response()) {
        FetchStep::Done(h, env) => {
            assert_eq!(h.date_secs, 1431704061 - 60);
            assert_eq!(h.etag, Some("\"abc\"".to_string()));
            assert_eq!(env.results.unwrap()[0], user_record());
        }
        other => panic!("expected a validated success, got {:?}", other),
    }
}

#[test]
fn bad_content_type_is_fatal() {
    let mut res = ok_response();
    res.content_type = Some("text/plain".to_string());
    assert_eq!(
        fetch_step(res),
        FetchStep::Fail(Error::BadContentType("text/plain".to_string()))
    );
}

#[test]
fn not_modified_keeps_the_cache() {
    // a cached etag and a not-modified response: no error, no new content,
    // so the existing cache file is left untouched
    let res = FetchResponse {
        status: 304,
        content_type: None,
        date: None,
        age: None,
        etag: Some("\"abc\"".to_string()),
        retry_after: None,
        envelope: None,
        fail_text: String::new(),
    };
    assert_eq!(fetch_step(res), FetchStep::CacheHit);
    let res2 = FetchResponse {
        status: 304,
        content_type: None,
        date: None,
        age: None,
        etag: Some("\"abc\"".to_string()),
        retry_after: None,
        envelope: None,
        fail_text: String::new(),
    };
    let (sleeps, outcome) = run_fetch(vec![res2]);
    assert!(sleeps.is_empty());
    assert_eq!(outcome, Some(Ok(None)));
}

#[test]
fn fatal_status_carries_body_text() {
    let res = FetchResponse {
        status: 500,
        content_type: None,
        date: None,
        age: None,
        etag: None,
        retry_after: None,
        envelope: None,
        fail_text: "server exploded".to_string(),
    };
    assert_eq!(
        fetch_step(res),
        FetchStep::Fail(Error::BadStatus(500, "server exploded".to_string()))
    );
}

#[test]
fn throttled_request_retries_after_delay() {
    // a rate-limited response with a 2-second delay: the request is retried
    // after that delay and the eventual result is identical to an
    // unthrottled fetch of the same resource
    let throttled = FetchResponse {
        status: 429,
        content_type: None,
        date: None,
        age: None,
        etag: None,
        retry_after: Some("2".to_string()),
        envelope: None,
        fail_text: String::new(),
    };
    let (sleeps, outcome) = run_fetch(vec![throttled, ok_response()]);
    let (no_sleeps, unthrottled) = run_fetch(vec![ok_response()]);
    assert_eq!(sleeps, vec![2]);
    assert!(no_sleeps.is_empty());
    assert_eq!(outcome, unthrottled);
    assert!(matches!(outcome, Some(Ok(Some(_)))));
}

#[test]
fn missing_retry_delay_defaults_to_a_minute() {
    let res = FetchResponse {
        status: 429,
        content_type: None,
        date: None,
        age: None,
        etag: None,
        retry_after: None,
        envelope: None,
        fail_text: String::new(),
    };
    assert_eq!(fetch_step(res), FetchStep::Retry(60));
    let res2 = FetchResponse {
        status: 429,
        content_type: None,
        date: None,
        age: None,
        etag: None,
        retry_after: Some("soon".to_string()),
        envelope: None,
        fail_text: String::new(),
    };
    assert_eq!(fetch_step(res2), FetchStep::Retry(60));
}
