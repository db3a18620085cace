//! The normalization engine and the cache file format.

use inat::cachefile::{
    cache_from_record, cache_header_from_text, frame_cache_documents, ids_cache_from_values,
    split_cache_documents,
};
use inat::error::Error;
use inat::headers::CacheHeader;
use inat::normalise::{extract_object, extract_objects, kind_names, Normaliser};
use inat::table::Table;
use inat::users::{conditional_headers, user_identity};
use inat::value::{Object, Value};

fn header() -> CacheHeader {
    CacheHeader { date_secs: 1431704061, etag: None }
}

fn user_object() -> Object {
    let mut u = Object::new();
    u.put("id", Value::UInt(7));
    u.put("login", Value::Str("x".to_string()));
    u
}

fn observation_with_user() -> Object {
    let mut obs = Object::new();
    obs.put("id", Value::UInt(1));
    obs.put("user", Value::Obj(user_object()));
    obs.put("user_id", Value::UInt(7));
    obs
}

#[test]
fn extracting_an_object_leaves_the_id_behind() {
    let mut obs = observation_with_user();
    let extracted = extract_object(&mut obs, "user").unwrap();
    let (id, user) = extracted.unwrap();
    assert_eq!(id, 7);
    assert_eq!(user, user_object());
    assert_eq!(obs.get("user"), Some(&Value::UInt(7)));
    assert!(!obs.has("user_id"));
}

#[test]
fn absent_and_null_fields_extract_nothing() {
    let mut obs = observation_with_user();
    assert_eq!(extract_object(&mut obs, "taxon"), Ok(None));
    obs.put("taxon", Value::Null);
    assert_eq!(extract_object(&mut obs, "taxon"), Ok(None));
    assert_eq!(obs.get("taxon"), Some(&Value::Null));
}

#[test]
fn non_objects_and_missing_ids_are_errors() {
    let mut obs = Object::new();
    obs.put("user", Value::Str("seven".to_string()));
    assert_eq!(
        extract_object(&mut obs, "user"),
        Err(Error::Internal("user: not an object".to_string()))
    );
    let mut obs2 = Object::new();
    obs2.put("user", Value::Obj(Object::new()));
    assert_eq!(
        extract_object(&mut obs2, "user"),
        Err(Error::Internal("missing id".to_string()))
    );
    let mut bad = Object::new();
    bad.put("id", Value::Str("seven".to_string()));
    let mut obs3 = Object::new();
    obs3.put("user", Value::Obj(bad));
    assert_eq!(
        extract_object(&mut obs3, "user"),
        Err(Error::Internal("id is not u64".to_string()))
    );
}

fn bare_record(id: u64) -> Object {
    let mut o = Object::new();
    o.put("id", Value::UInt(id));
    o
}

#[test]
fn extracting_an_array_leaves_the_ordered_ids() {
    let mut obs = Object::new();
    obs.put(
        "comments",
        Value::Arr(vec![Value::Obj(bare_record(31)), Value::Obj(bare_record(32))]),
    );
    obs.put("comments_ids", Value::Arr(vec![Value::UInt(31), Value::UInt(32)]));
    let pairs = extract_objects(&mut obs, "comments").unwrap();
    assert_eq!(pairs, vec![(31, bare_record(31)), (32, bare_record(32))]);
    assert_eq!(
        obs.get("comments"),
        Some(&Value::Arr(vec![Value::UInt(31), Value::UInt(32)]))
    );
    assert!(!obs.has("comments_ids"));
    assert_eq!(extract_objects(&mut obs, "faves"), Ok(Vec::new()));
    obs.put("faves", Value::Null);
    assert_eq!(
        extract_objects(&mut obs, "faves"),
        Err(Error::Internal("faves: not an array".to_string()))
    );
    obs.put("photos", Value::Arr(vec![Value::UInt(1)]));
    assert_eq!(
        extract_objects(&mut obs, "photos"),
        Err(Error::Internal("photos item: not an object".to_string()))
    );
}

#[test]
fn normalization_flattens_an_embedded_user() {
    // an observation embedding {"user": {"id": 7, "login": "x"}}: afterwards
    // the observation's user field equals 7, any user_id field is absent,
    // and the users table holds id 7 mapped to the whole embedded object
    let mut observations = Table::new();
    observations.insert(1, observation_with_user());
    let run = Normaliser::new(header(), observations);
    let (meta, tables) = run.run().unwrap();
    assert_eq!(meta, header());
    let obs = tables.observations.get(1).unwrap();
    assert_eq!(obs.get("user"), Some(&Value::UInt(7)));
    assert!(!obs.has("user_id"));
    assert_eq!(tables.users.get(7), Some(&user_object()));
}

#[test]
fn normalization_follows_the_dependency_order() {
    // a taxon surfaces through an identification, and its ancestors land in
    // the taxa table keyed by their own ids
    let mut taxon = Object::new();
    taxon.put("id", Value::UInt(500));
    taxon.put("ancestors", Value::Arr(vec![Value::Obj(bare_record(900))]));
    let mut ident = Object::new();
    ident.put("id", Value::UInt(50));
    ident.put("taxon", Value::Obj(taxon));
    ident.put("user", Value::Obj(user_object()));
    let mut obs = Object::new();
    obs.put("id", Value::UInt(1));
    obs.put("identifications", Value::Arr(vec![Value::Obj(ident)]));
    let mut observations = Table::new();
    observations.insert(1, obs);
    let (_, tables) = Normaliser::new(header(), observations).run().unwrap();
    // the identification moved out of the observation
    let obs_after = tables.observations.get(1).unwrap();
    assert_eq!(
        obs_after.get("identifications"),
        Some(&Value::Arr(vec![Value::UInt(50)]))
    );
    // its taxon moved on, with the ancestor extracted into the same table
    let ident_after = tables.identifications.get(50).unwrap();
    assert_eq!(ident_after.get("taxon"), Some(&Value::UInt(500)));
    assert_eq!(ident_after.get("user"), Some(&Value::UInt(7)));
    let taxon_after = tables.taxa.get(500).unwrap();
    assert_eq!(
        taxon_after.get("ancestors"),
        Some(&Value::Arr(vec![Value::UInt(900)]))
    );
    assert_eq!(tables.taxa.get(900), Some(&bare_record(900)));
    // the user surfaced through the identification, extracted last
    assert_eq!(tables.users.get(7), Some(&user_object()));
}

#[test]
fn annotations_feed_the_controlled_terms() {
    let mut term = Object::new();
    term.put("id", Value::UInt(200));
    term.put("values", Value::Arr(vec![Value::Obj(bare_record(201))]));
    term.put("labels", Value::Arr(vec![Value::Obj(bare_record(300))]));
    let mut ann = Object::new();
    ann.put("controlled_attribute", Value::Obj(term));
    let mut obs = Object::new();
    obs.put("id", Value::UInt(1));
    obs.put("annotations", Value::Arr(vec![Value::Obj(ann)]));
    let mut observations = Table::new();
    observations.insert(1, obs);
    let (_, tables) = Normaliser::new(header(), observations).run().unwrap();
    // the term was recorded, with its own values extracted first
    let term_after = tables.controlled_terms.get(200).unwrap();
    assert_eq!(term_after.get("values"), Some(&Value::Arr(vec![Value::UInt(201)])));
    assert_eq!(tables.controlled_terms.get(201), Some(&bare_record(201)));
    // the term's labels were extracted from the controlled-terms table
    assert_eq!(term_after.get("labels"), Some(&Value::Arr(vec![Value::UInt(300)])));
    assert_eq!(tables.controlled_term_labels.get(300), Some(&bare_record(300)));
    // the annotation itself stays embedded, pointing at the term by id
    let obs_after = tables.observations.get(1).unwrap();
    match obs_after.get("annotations") {
        Some(Value::Arr(items)) => match &items[0] {
            Value::Obj(a) => {
                assert_eq!(a.get("controlled_attribute"), Some(&Value::UInt(200)));
            }
            other => panic!("annotation should stay an object, got {:?}", other),
        },
        other => panic!("annotations should stay an array, got {:?}", other),
    }
}

#[test]
fn there_are_twenty_one_kinds() {
    let names = kind_names();
    assert_eq!(names.len(), 21);
    assert_eq!(names[0], "applications");
    assert_eq!(names[20], "votes");
    assert!(names.contains(&"controlled_term_labels".to_string()));
}

#[test]
fn cache_files_hold_two_documents() {
    let doc1 = b"date: 2015-05-15T15:34:21+00:00\n".to_vec();
    let doc2 = b"id: 7\nlogin: x\n".to_vec();
    let framed = frame_cache_documents(&doc1, &doc2);
    let (a, b) = split_cache_documents(&framed, "users/7.yaml").unwrap();
    assert_eq!(a, doc1);
    assert_eq!(b, doc2);
}

#[test]
fn corrupt_cache_files_fail_loudly() {
    assert_eq!(
        split_cache_documents(&Vec::new(), "users/7.yaml"),
        Err(Error::CorruptCache(
            "users/7.yaml".to_string(),
            "contains no document".to_string()
        ))
    );
    let single = b"date: 2015-05-15T15:34:21+00:00\n".to_vec();
    assert_eq!(
        split_cache_documents(&single, "users/7.yaml"),
        Err(Error::CorruptCache(
            "users/7.yaml".to_string(),
            "contains only one document".to_string()
        ))
    );
}

#[test]
fn cached_dates_round_trip_through_rfc3339() {
    let h = header();
    let text = h.date_rfc3339();
    assert_eq!(text, "2015-05-15T15:34:21+00:00");
    let back = cache_header_from_text(text.as_str(), None).unwrap();
    assert_eq!(back.date_secs, h.date_secs);
    assert!(cache_header_from_text("yesterday", None).is_err());
}

#[test]
fn cached_records_must_carry_ids() {
    let c = cache_from_record(header(), &user_object(), "users/x.yaml").unwrap();
    assert_eq!(c.id, 7);
    let anonymous = Object::new();
    assert_eq!(
        cache_from_record(header(), &anonymous, "users/x.yaml"),
        Err(Error::CorruptCache(
            "users/x.yaml".to_string(),
            "missing id".to_string()
        ))
    );
}

#[test]
fn cached_id_listings_must_ascend() {
    let good = vec![Value::UInt(1), Value::UInt(5), Value::UInt(9)];
    let c = ids_cache_from_values(header(), &good, "users/7.observations.yaml").unwrap();
    assert_eq!(c.ids, vec![1, 5, 9]);
    let unsorted = vec![Value::UInt(5), Value::UInt(1)];
    assert_eq!(
        ids_cache_from_values(header(), &unsorted, "users/7.observations.yaml"),
        Err(Error::CorruptCache(
            "users/7.observations.yaml".to_string(),
            "ids not ascending".to_string()
        ))
    );
    let mixed = vec![Value::UInt(1), Value::Str("two".to_string())];
    assert_eq!(
        ids_cache_from_values(header(), &mixed, "users/7.observations.yaml"),
        Err(Error::CorruptCache(
            "users/7.observations.yaml".to_string(),
            "element is not u64".to_string()
        ))
    );
}

#[test]
fn conditional_headers_carry_the_snapshot() {
    let none = conditional_headers(&None);
    assert!(none.is_empty());
    let h = CacheHeader { date_secs: 1431704061, etag: Some("\"abc\"".to_string()) };
    let hs = conditional_headers(&Some(h));
    assert_eq!(hs.len(), 2);
    assert_eq!(
        hs[0],
        (
            "if-modified-since".to_string(),
            "Fri, 15 May 2015 15:34:21 GMT".to_string()
        )
    );
    assert_eq!(hs[1], ("if-none-match".to_string(), "\"abc\"".to_string()));
}

#[test]
fn user_identity_reads_id_and_login() {
    assert_eq!(user_identity(&user_object()), Ok((7, "x".to_string())));
    let mut nameless = Object::new();
    nameless.put("id", Value::UInt(7));
    assert_eq!(
        user_identity(&nameless),
        Err(Error::Internal("user login not found".to_string()))
    );
    let mut numbered = Object::new();
    numbered.put("id", Value::UInt(7));
    numbered.put("login", Value::UInt(9));
    assert_eq!(
        user_identity(&numbered),
        Err(Error::Internal("user login was not a string".to_string()))
    );
}
