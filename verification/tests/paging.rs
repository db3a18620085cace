//! The id-listing cursor and the batch plan: keyset pagination, the ascending
//! invariant, batch chunking and the first-error collector.

use inat::batch::{batch_outcome, batch_plan};
use inat::cursor::{cursor_run, observations_query, Cursor};
use inat::envelope::Envelope;
use inat::error::Error;
use inat::headers::CacheHeader;
use inat::transport::{fetch_step, FetchResponse, FetchStep};
use inat::value::{Object, Value};

fn id_record(id: u64) -> Object {
    let mut o = Object::new();
    o.put("id", Value::UInt(id));
    o
}

fn listing_page(page: u64, total: u64, ids: &[u64]) -> (CacheHeader, Envelope) {
    let header = CacheHeader { date_secs: 1431696861, etag: Some("\"p\"".to_string()) };
    let env = Envelope {
        page: Some(page),
        per_page: Some(20),
        total_results: Some(total),
        results: Some(ids.iter().map(|id| id_record(*id)).collect()),
        status: None,
        error: None,
    };
    (header, env)
}

#[test]
fn three_pages_cover_forty_five_results() {
    // per_page 20 and total_results 45: exactly 3 pages are fetched, and
    // page 3 satisfies 3 * 20 >= 45
    let ids1: Vec<u64> = (1..=20).collect();
    let ids2: Vec<u64> = (21..=40).collect();
    let ids3: Vec<u64> = (41..=45).collect();
    let ids4: Vec<u64> = (46..=50).collect();
    let pages = vec![
        listing_page(1, 45, &ids1),
        listing_page(2, 45, &ids2),
        listing_page(3, 45, &ids3),
        listing_page(4, 45, &ids4),
    ];
    let start = Cursor::new(Vec::new(), None);
    let (used, done) = cursor_run(start, pages).unwrap();
    assert_eq!(used, 3);
    assert_eq!(done.ids, (1..=45).collect::<Vec<u64>>());
    // the final page's metadata is kept, with the etag discarded
    let saved = done.save_header.unwrap();
    assert_eq!(saved.date_secs, 1431696861);
    assert_eq!(saved.etag, None);
    assert!(3 * 20 >= 45);
}

#[test]
fn pages_resume_above_the_cached_ids() {
    let cached = CacheHeader { date_secs: 100, etag: Some("\"c\"".to_string()) };
    let mut c = Cursor::new(vec![3, 8], Some(cached));
    assert_eq!(c.id_above(), Some(8));
    assert_eq!(c.request_date, Some(100));
    let (h, env) = listing_page(1, 2, &[9, 12]);
    let last = c.apply_page(h, env).unwrap();
    assert!(last);
    assert_eq!(c.ids, vec![3, 8, 9, 12]);
    assert_eq!(c.id_above(), Some(12));
}

#[test]
fn a_page_below_the_bound_is_refused() {
    let mut c = Cursor::new(vec![10], None);
    let (h, env) = listing_page(1, 2, &[5, 12]);
    assert_eq!(
        c.apply_page(h, env),
        Err(Error::Internal("page ids not ascending".to_string()))
    );
    // the cursor is untouched
    assert_eq!(c.ids, vec![10]);
    let (h2, env2) = listing_page(1, 2, &[12, 11]);
    assert!(c.apply_page(h2, env2).is_err());
}

#[test]
fn listing_query_names_owner_and_bound() {
    let q = observations_query(77, Some(45));
    let pairs: Vec<(String, String)> = q;
    assert_eq!(pairs.len(), 6);
    assert_eq!(pairs[0], ("only_id".to_string(), "true".to_string()));
    assert_eq!(pairs[1], ("order".to_string(), "asc".to_string()));
    assert_eq!(pairs[2], ("order_by".to_string(), "id".to_string()));
    assert_eq!(pairs[3], ("per_page".to_string(), "200".to_string()));
    assert_eq!(pairs[4], ("user_id".to_string(), "77".to_string()));
    assert_eq!(pairs[5], ("id_above".to_string(), "45".to_string()));
    let q0 = observations_query(77, None);
    assert_eq!(q0.len(), 5);
}

#[test]
fn batches_chunk_in_order() {
    let ids: Vec<u64> = (1..=45).collect();
    let plan = batch_plan(&ids);
    assert_eq!(plan.len(), 3);
    assert_eq!(plan[0], (1..=20).collect::<Vec<u64>>());
    assert_eq!(plan[1], (21..=40).collect::<Vec<u64>>());
    assert_eq!(plan[2], (41..=45).collect::<Vec<u64>>());
    assert!(batch_plan(&Vec::new()).is_empty());
}

fn item_response(id: u64, fatal: bool) -> FetchResponse {
    if fatal {
        FetchResponse {
            status: 500,
            content_type: None,
            date: None,
            age: None,
            etag: None,
            retry_after: None,
            envelope: None,
            fail_text: "item failed".to_string(),
        }
    } else {
        FetchResponse {
            status: 200,
            content_type: Some("application/json".to_string()),
            date: Some("Fri, 15 May 2015 15:34:21 GMT".to_string()),
            age: None,
            etag: None,
            retry_after: None,
            envelope: Some(Envelope {
                page: Some(1),
                per_page: Some(1),
                total_results: Some(1),
                results: Some(vec![id_record(id)]),
                status: None,
                error: None,
            }),
            fail_text: String::new(),
        }
    }
}

#[test]
fn one_fatal_item_fails_the_batch_but_not_its_siblings() {
    // in a batch of 5 ids where item 3 fails fatally: items 1, 2, 4, 5 are
    // cached successfully, item 3's error is returned by the call, and item
    // 3 yields no content at all, so no partial file can exist for it
    let mut results: Vec<Result<(), Error>> = Vec::new();
    let mut cached: Vec<u64> = Vec::new();
    for id in 1..=5u64 {
        match fetch_step(item_response(id, id == 3)) {
            FetchStep::Done(_, env) => {
                cached.push(id);
                assert!(env.results.is_some());
                results.push(Ok(()));
            }
            FetchStep::CacheHit => {
                cached.push(id);
                results.push(Ok(()));
            }
            FetchStep::Fail(e) => {
                // nothing fetched, nothing written for this item
                results.push(Err(e));
            }
            FetchStep::Retry(_) => panic!("no throttling in this batch"),
        }
    }
    assert_eq!(cached, vec![1, 2, 4, 5]);
    assert_eq!(
        batch_outcome(results),
        Err(Error::BadStatus(500, "item failed".to_string()))
    );
}

#[test]
fn an_error_free_batch_succeeds() {
    let results: Vec<Result<(), Error>> = vec![Ok(()), Ok(()), Ok(())];
    assert_eq!(batch_outcome(results), Ok(()));
    assert_eq!(batch_outcome(Vec::new()), Ok(()));
}

#[test]
fn the_first_error_wins() {
    let results: Vec<Result<(), Error>> = vec![
        Ok(()),
        Err(Error::Internal("first".to_string())),
        Err(Error::Internal("second".to_string())),
    ];
    assert_eq!(
        batch_outcome(results),
        Err(Error::Internal("first".to_string()))
    );
}
