//! The on-disk cache format: one file per entity, holding exactly two
//! sequential documents split by a literal separator line — the snapshot
//! header, then the entity's field map. Fewer than two documents is
//! corruption and fails loudly; cache corruption is never silently rebuilt.

use vstd::prelude::*;

use crate::cursor::lemma_adjacent_ascending;
use crate::cursor::strictly_ascending;
use crate::envelope::id_of;
use crate::envelope::id_ok;
use crate::error::corrupt_cache;
use crate::error::Error;
use crate::error::ErrorSpec;
use crate::headers::CacheHeader;
use crate::httptime::parse_rfc3339_secs;
use crate::httptime::rfc3339_value;
use crate::httptime::HTTP_DATE_LIMIT;
use crate::value::field_value;
use crate::value::fields_unique;
use crate::value::has_field;
use crate::value::Object;
use crate::value::Value;

verus! {

/// The separator between the two documents of a cache file: a line of three
/// dashes.
pub open spec fn sep_bytes() -> Seq<u8> {
    seq![45u8, 45u8, 45u8, 10u8]
}

/// Whether a separator line starts at `p` in `b`: the four separator bytes,
/// at the start of a line.
pub open spec fn is_sep_at(b: Seq<u8>, p: int) -> bool {
    &&& 0 <= p
    &&& p + 4 <= b.len()
    &&& b.subrange(p, p + 4) == sep_bytes()
    &&& (p == 0 || b[p - 1] == 10)
}

/// The first separator position at or after `from`, or the length.
pub open spec fn sep_at(b: Seq<u8>, from: int) -> int
    decreases b.len() - from,
{
    if from < 0 || from + 4 > b.len() {
        b.len() as int
    } else if is_sep_at(b, from) {
        from
    } else {
        sep_at(b, from + 1)
    }
}

proof fn lemma_sep_at(b: Seq<u8>, from: int, p: int)
    requires
        0 <= from <= p,
        p + 4 <= b.len() || p == b.len(),
        forall|q: int| from <= q < p ==> !is_sep_at(b, q),
        p + 4 <= b.len() ==> is_sep_at(b, p),
        p == b.len() ==> forall|q: int| from <= q ==> !is_sep_at(b, q),
    ensures
        sep_at(b, from) == p,
    decreases p - from + 4,
{
    if from + 4 > b.len() {
        assert(p == b.len() || !(p + 4 <= b.len()) || is_sep_at(b, p));
        if p < b.len() {
            assert(p + 4 <= b.len());
            assert(is_sep_at(b, p));
            assert(false);
        }
    } else if from == p {
    } else {
        assert(!is_sep_at(b, from));
        lemma_sep_at(b, from + 1, p);
    }
}

/// The bytes of `v` from `a` up to `b`.
fn copy_range(v: &Vec<u8>, a: usize, b: usize) -> (r: Vec<u8>)
    requires
        a <= b <= v@.len(),
    ensures
        r@ == v@.subrange(a as int, b as int),
{
    let mut r: Vec<u8> = Vec::new();
    let mut i: usize = a;
    #[verifier::loop_isolation(false)]
    while i < b
        invariant
            a <= i <= b,
            r@ =~= v@.subrange(a as int, i as int),
        decreases b - i,
    {
        r.push(v[i]);
        proof {
            assert(r@ =~= v@.subrange(a as int, i as int + 1));
        }
        i += 1;
    }
    r
}

/// Splits one cache file into its two documents at the first separator line.
/// An empty file holds no document; a file without a separator holds only
/// one; either is corruption.
pub fn split_cache_documents(bytes: &Vec<u8>, path: &str) -> (r: Result<(Vec<u8>, Vec<u8>), Error>)
    ensures
        bytes@.len() == 0 ==> (r matches Err(e) && e@ == ErrorSpec::CorruptCache(
            path@,
            "contains no document"@,
        )),
        bytes@.len() > 0 && sep_at(bytes@, 0) == bytes@.len() ==> (r matches Err(e) && e@
            == ErrorSpec::CorruptCache(path@, "contains only one document"@)),
        bytes@.len() > 0 && sep_at(bytes@, 0) < bytes@.len() ==> (r matches Ok(p) && p.0@
            == bytes@.subrange(0, sep_at(bytes@, 0)) && p.1@ == bytes@.subrange(
            sep_at(bytes@, 0) + 4,
            bytes@.len() as int,
        )),
{
    let len = bytes.len();
    if len == 0 {
        return Err(corrupt_cache(path, "contains no document"));
    }
    let mut p: usize = 0;
    #[verifier::loop_isolation(false)]
    while len >= 4 && p <= len - 4 && !(bytes[p] == 45 && bytes[p + 1] == 45 && bytes[p + 2] == 45
        && bytes[p + 3] == 10 && (p == 0 || bytes[p - 1] == 10))
        invariant
            0 <= p <= len,
            forall|q: int| 0 <= q < p ==> !is_sep_at(bytes@, q),
        decreases len - p,
    {
        proof {
            if is_sep_at(bytes@, p as int) {
                assert(bytes@.subrange(p as int, p as int + 4)[0] == bytes@[p as int]);
                assert(bytes@.subrange(p as int, p as int + 4)[1] == bytes@[p as int + 1]);
                assert(bytes@.subrange(p as int, p as int + 4)[2] == bytes@[p as int + 2]);
                assert(bytes@.subrange(p as int, p as int + 4)[3] == bytes@[p as int + 3]);
            }
        }
        p += 1;
    }
    if len < 4 || p > len - 4 {
        proof {
            assert forall|q: int| 0 <= q implies !is_sep_at(bytes@, q) by {
                if q < p {
                } else {
                    assert(q + 4 > len);
                }
            }
            lemma_sep_at(bytes@, 0, len as int);
        }
        return Err(corrupt_cache(path, "contains only one document"));
    }
    proof {
        assert(bytes@.subrange(p as int, p as int + 4) =~= sep_bytes());
        assert(is_sep_at(bytes@, p as int));
        lemma_sep_at(bytes@, 0, p as int);
    }
    let doc1 = copy_range(bytes, 0, p);
    let doc2 = copy_range(bytes, p + 4, len);
    Ok((doc1, doc2))
}

/// Frames the two documents of one cache file: the header document, the
/// separator line, the entity document.
pub fn frame_cache_documents(doc1: &Vec<u8>, doc2: &Vec<u8>) -> (r: Vec<u8>)
    ensures
        r@ == doc1@ + sep_bytes() + doc2@,
{
    let mut r = copy_range(doc1, 0, doc1.len());
    r.push(45);
    r.push(45);
    r.push(45);
    r.push(10);
    let mut tail = copy_range(doc2, 0, doc2.len());
    r.append(&mut tail);
    proof {
        assert(doc1@.subrange(0, doc1@.len() as int) =~= doc1@);
        assert(doc2@.subrange(0, doc2@.len() as int) =~= doc2@);
        assert(r@ =~= doc1@ + sep_bytes() + doc2@);
    }
    r
}

/// Reads a cached snapshot header out of its parsed fields: the date must be
/// an RFC 3339 timestamp between the epoch and the year ten thousand.
pub fn cache_header_from_text(date: &str, etag: Option<String>) -> (r: Result<CacheHeader, Error>)
    ensures
        (match rfc3339_value(date@) {
            Some(t) => 0 <= t < HTTP_DATE_LIMIT,
            None => false,
        }) <==> r is Ok,
        r matches Ok(h) ==> {
            &&& h.date_secs == rfc3339_value(date@)->0
            &&& h.wf()
            &&& (match (h.etag, etag) {
                (Some(a), Some(b)) => a@ == b@,
                (None, None) => true,
                _ => false,
            })
        },
        r matches Err(e) ==> e@ == ErrorSpec::BadRfc3339(date@),
        forall|t: u64|
            t < HTTP_DATE_LIMIT && date@ == crate::httptime::rfc3339_text(t) ==> (r matches Ok(h)
                && h.date_secs == t),
{
    match parse_rfc3339_secs(date) {
        None => Err(Error::BadRfc3339(date.to_owned())),
        Some(t) => {
            if t < 0 || t >= HTTP_DATE_LIMIT as i64 {
                Err(Error::BadRfc3339(date.to_owned()))
            } else {
                Ok(CacheHeader { date_secs: t as u64, etag })
            }
        },
    }
}

/// A cached single entity: its snapshot header and its id.
#[derive(Debug, PartialEq)]
pub struct Cache {
    pub header: CacheHeader,
    pub id: u64,
}

/// An owner's cached id listing: its snapshot header and the strictly
/// ascending ids.
#[derive(Debug, PartialEq)]
pub struct IdsCache {
    pub header: CacheHeader,
    pub ids: Vec<u64>,
}

/// Reads a cached entity's identity: the record must carry a numeric id, or
/// the cache at `path` is corrupt.
pub fn cache_from_record(header: CacheHeader, record: &Object, path: &str) -> (r: Result<
    Cache,
    Error,
>)
    requires
        fields_unique(record@),
    ensures
        r is Ok <==> id_ok(*record),
        r matches Ok(c) ==> c.id == id_of(*record) && c.header == header,
        !has_field(record@, "id"@) ==> (r matches Err(e) && e@ == ErrorSpec::CorruptCache(
            path@,
            "missing id"@,
        )),
        has_field(record@, "id"@) && !(field_value(record@, "id"@) is UInt) ==> (r matches Err(e)
            && e@ == ErrorSpec::CorruptCache(path@, "id is not u64"@)),
{
    match record.get("id") {
        None => Err(corrupt_cache(path, "missing id")),
        Some(v) => match v {
            Value::UInt(id) => Ok(Cache { header, id: *id }),
            _ => Err(corrupt_cache(path, "id is not u64")),
        },
    }
}

/// Reads an owner's cached id listing: every element must be a number and
/// the whole list strictly ascending, or the cache at `path` is corrupt.
pub fn ids_cache_from_values(header: CacheHeader, values: &Vec<Value>, path: &str) -> (r: Result<
    IdsCache,
    Error,
>)
    ensures
        r is Ok <==> ((forall|i: int| 0 <= i < values@.len() ==> (#[trigger] values@[i]) is UInt)
            && strictly_ascending(Seq::new(values@.len(), |i: int| values@[i]->UInt_0))),
        r matches Ok(c) ==> {
            &&& c.header == header
            &&& c.ids@ == Seq::new(values@.len(), |i: int| values@[i]->UInt_0)
            &&& strictly_ascending(c.ids@)
        },
        r matches Err(e) ==> {
            ||| e@ == ErrorSpec::CorruptCache(path@, "element is not u64"@)
            ||| e@ == ErrorSpec::CorruptCache(path@, "ids not ascending"@)
        },
{
    let n = values.len();
    let mut ids: Vec<u64> = Vec::new();
    let mut i: usize = 0;
    #[verifier::loop_isolation(false)]
    while i < n
        invariant
            0 <= i <= n,
            ids@.len() == i,
            forall|j: int| 0 <= j < i ==> (#[trigger] values@[j]) is UInt,
            forall|j: int| 0 <= j < i ==> ids@[j] == values@[j]->UInt_0,
        decreases n - i,
    {
        match &values[i] {
            Value::UInt(v) => {
                ids.push(*v);
            },
            _ => {
                return Err(corrupt_cache(path, "element is not u64"));
            },
        }
        i += 1;
    }
    let mut k: usize = 0;
    #[verifier::loop_isolation(false)]
    while n > 0 && k < n - 1
        invariant
            0 <= k <= n,
            forall|j: int| 0 <= j < k ==> #[trigger] ids@[j] < ids@[j + 1],
        decreases n - k,
    {
        if ids[k] >= ids[k + 1] {
            proof {
                let s = Seq::new(values@.len(), |j: int| values@[j]->UInt_0);
                assert(s[k as int] == ids@[k as int]);
                assert(s[k as int + 1] == ids@[k as int + 1]);
                assert(!(s[k as int] < s[k as int + 1]));
                assert(!strictly_ascending(s));
            }
            return Err(corrupt_cache(path, "ids not ascending"));
        }
        k += 1;
    }
    proof {
        lemma_adjacent_ascending(ids@);
        assert(ids@ =~= Seq::new(values@.len(), |j: int| values@[j]->UInt_0));
    }
    Ok(IdsCache { header, ids })
}

} // verus!
