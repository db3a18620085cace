//! Response-header handling: the content-type gate and the snapshot metadata
//! (true resource time and entity tag) taken from a successful response.

use vstd::prelude::*;
use vstd::string::StrSliceExecFns;

use crate::digits::dec_value;
use crate::digits::parse_u64;
use crate::digits::parses_as_u64;
use crate::error::Error;
use crate::error::ErrorSpec;
use crate::httptime::format_http_date;
use crate::httptime::format_rfc3339;
use crate::httptime::http_date_text;
use crate::httptime::http_date_value;
use crate::httptime::parse_http_date_secs;
use crate::httptime::rfc3339_text;
use crate::httptime::HTTP_DATE_LIMIT;

verus! {

/// The snapshot metadata attached to every cached entity: the true resource
/// time (the server date less the response age) and the entity tag, if any.
#[derive(Debug, Clone, PartialEq)]
pub struct CacheHeader {
    pub date_secs: u64,
    pub etag: Option<String>,
}

impl CacheHeader {
    /// The resource time lies before the year ten thousand, so it can be
    /// formatted as an HTTP date.
    pub open spec fn wf(self) -> bool {
        self.date_secs < HTTP_DATE_LIMIT
    }

    /// The conditional-request header value for this snapshot's time.
    pub fn if_modified_since(&self) -> (r: String)
        requires
            self.wf(),
        ensures
            r@ == http_date_text(self.date_secs),
    {
        format_http_date(self.date_secs)
    }

    /// The resource time as RFC 3339 text, the form it is cached in.
    pub fn date_rfc3339(&self) -> (r: String)
        requires
            self.wf(),
        ensures
            r@ == rfc3339_text(self.date_secs),
    {
        format_rfc3339(self.date_secs)
    }

    /// Discards the entity tag, keeping the resource time.
    pub fn drop_etag(&mut self)
        ensures
            final(self).date_secs == old(self).date_secs,
            final(self).etag is None,
            old(self).wf() ==> final(self).wf(),
    {
        self.etag = None;
    }
}

/// Whitespace for header-value trimming.
pub open spec fn is_ws(c: char) -> bool {
    c == ' ' || c == '\t' || c == '\n' || c == '\r'
}

/// How many whitespace characters `s` starts with.
pub open spec fn ws_prefix_len(s: Seq<char>) -> int
    decreases s.len(),
{
    if s.len() == 0 || !is_ws(s[0]) {
        0
    } else {
        1 + ws_prefix_len(s.drop_first())
    }
}

/// How many whitespace characters `s` ends with.
pub open spec fn ws_suffix_len(s: Seq<char>) -> int
    decreases s.len(),
{
    if s.len() == 0 || !is_ws(s.last()) {
        0
    } else {
        1 + ws_suffix_len(s.drop_last())
    }
}

/// `s` without leading and trailing whitespace.
pub open spec fn trimmed(s: Seq<char>) -> Seq<char> {
    let a = ws_prefix_len(s);
    let b = s.len() - ws_suffix_len(s);
    if a <= b {
        s.subrange(a, b)
    } else {
        Seq::<char>::empty()
    }
}

/// The index of the first ';' in `s` at or after `from`, or the length.
pub open spec fn semi_at(s: Seq<char>, from: int) -> int
    decreases s.len() - from,
{
    if from < 0 || from >= s.len() {
        s.len() as int
    } else if s[from] == ';' {
        from
    } else {
        semi_at(s, from + 1)
    }
}

/// The character code with an upper-case ASCII letter folded to lower case.
pub open spec fn lower_code(c: char) -> int {
    if 65 <= c as int && c as int <= 90 {
        c as int + 32
    } else {
        c as int
    }
}

/// Character-wise equality up to ASCII case.
pub open spec fn eq_ignore_case(a: Seq<char>, b: Seq<char>) -> bool {
    a.len() == b.len() && forall|i: int| 0 <= i < a.len() ==> lower_code(a[i]) == lower_code(b[i])
}

/// Whether `ct` names exactly the expected media type: after trimming, the
/// part before any ';' must be `application/json` up to case, an optional
/// second ';'-separated part must be `charset=utf-8` up to case, and nothing
/// may follow it; any other value is fatal.
pub open spec fn media_type_ok(ct: Seq<char>) -> bool {
    let t = trimmed(ct);
    let p1 = semi_at(t, 0);
    if !eq_ignore_case(trimmed(t.subrange(0, p1)), "application/json"@) {
        false
    } else if p1 == t.len() {
        true
    } else {
        let p2 = semi_at(t, p1 + 1);
        eq_ignore_case(trimmed(t.subrange(p1 + 1, p2)), "charset=utf-8"@) && p2 == t.len()
    }
}

proof fn lemma_ws_prefix_len(s: Seq<char>, i: int)
    requires
        0 <= i <= s.len(),
        forall|j: int| 0 <= j < i ==> is_ws(s[j]),
        i < s.len() ==> !is_ws(s[i]),
    ensures
        ws_prefix_len(s) == i,
    decreases s.len(),
{
    if i == 0 {
    } else {
        assert(is_ws(s[0]));
        let t = s.drop_first();
        assert(forall|j: int| 0 <= j < i - 1 ==> t[j] == s[j + 1] && is_ws(t[j]));
        assert(i - 1 < t.len() ==> t[i - 1] == s[i] && !is_ws(t[i - 1]));
        lemma_ws_prefix_len(t, i - 1);
    }
}

proof fn lemma_ws_suffix_bounds(s: Seq<char>)
    ensures
        0 <= ws_suffix_len(s) <= s.len(),
    decreases s.len(),
{
    if s.len() == 0 || !is_ws(s.last()) {
    } else {
        lemma_ws_suffix_bounds(s.drop_last());
    }
}

proof fn lemma_ws_suffix_len(s: Seq<char>, k: int)
    requires
        0 <= k <= s.len(),
        forall|j: int| s.len() - k <= j < s.len() ==> is_ws(s[j]),
        k < s.len() ==> !is_ws(s[s.len() - k - 1]),
    ensures
        ws_suffix_len(s) == k,
    decreases s.len(),
{
    if k == 0 {
    } else {
        assert(is_ws(s.last()));
        let t = s.drop_last();
        assert(forall|j: int| t.len() - (k - 1) <= j < t.len() ==> t[j] == s[j] && is_ws(t[j]));
        lemma_ws_suffix_len(t, k - 1);
    }
}

/// Whether `c` is whitespace for header-value trimming.
fn is_ws_char(c: char) -> (r: bool)
    ensures
        r == is_ws(c),
{
    c == ' ' || c == '\t' || c == '\n' || c == '\r'
}

/// Returns `s` without leading and trailing whitespace.
pub fn trim_str<'a>(s: &'a str) -> (r: &'a str)
    ensures
        r@ == trimmed(s@),
{
    let len = s.unicode_len();
    let mut start: usize = 0;
    while start < len && is_ws_char(s.get_char(start))
        invariant
            0 <= start <= len,
            len == s@.len(),
            forall|j: int| 0 <= j < start ==> is_ws(s@[j]),
        decreases len - start,
    {
        start += 1;
    }
    let mut end: usize = len;
    while end > start && is_ws_char(s.get_char(end - 1))
        invariant
            start <= end <= len,
            len == s@.len(),
            forall|j: int| 0 <= j < start ==> is_ws(s@[j]),
            start < len ==> !is_ws(s@[start as int]),
            forall|j: int| end <= j < len ==> is_ws(s@[j]),
        decreases end,
    {
        end -= 1;
    }
    proof {
        if start == len {
            assert(end == len);
            lemma_ws_prefix_len(s@, start as int);
            lemma_ws_suffix_bounds(s@);
        } else {
            assert(end > start);
            lemma_ws_prefix_len(s@, start as int);
            lemma_ws_suffix_len(s@, len - end);
        }
    }
    let r = s.substring_char(start, end);
    proof {
        assert(r@ =~= trimmed(s@));
    }
    r
}

/// Returns the index of the first ';' in `s` at or after `from`, or the
/// length of `s`.
pub fn scan_semi(s: &str, from: usize) -> (r: usize)
    requires
        from <= s@.len(),
    ensures
        r == semi_at(s@, from as int),
        from <= r <= s@.len(),
{
    let len = s.unicode_len();
    let mut i: usize = from;
    while i < len && s.get_char(i) != ';'
        invariant
            from <= i <= len,
            len == s@.len(),
            forall|j: int| from <= j < i ==> s@[j] != ';',
        decreases len - i,
    {
        i += 1;
    }
    proof {
        lemma_semi_at(s@, from as int, i as int);
    }
    i
}

proof fn lemma_semi_at(s: Seq<char>, from: int, i: int)
    requires
        0 <= from <= i <= s.len(),
        forall|j: int| from <= j < i ==> s[j] != ';',
        i < s.len() ==> s[i] == ';',
    ensures
        semi_at(s, from) == i,
    decreases i - from,
{
    if from < i {
        lemma_semi_at(s, from + 1, i);
    }
}

/// Compares two strings up to ASCII case.
pub fn str_eq_ignore_case(a: &str, b: &str) -> (r: bool)
    ensures
        r == eq_ignore_case(a@, b@),
{
    let la = a.unicode_len();
    let lb = b.unicode_len();
    if la != lb {
        return false;
    }
    let mut i: usize = 0;
    while i < la
        invariant
            0 <= i <= la,
            la == a@.len(),
            la == lb,
            lb == b@.len(),
            forall|j: int| 0 <= j < i ==> lower_code(a@[j]) == lower_code(b@[j]),
        decreases la - i,
    {
        let ca = a.get_char(i) as u32;
        let cb = b.get_char(i) as u32;
        let la32 = if 65 <= ca && ca <= 90 {
            ca + 32
        } else {
            ca
        };
        let lb32 = if 65 <= cb && cb <= 90 {
            cb + 32
        } else {
            cb
        };
        if la32 != lb32 {
            proof {
                assert(lower_code(a@[i as int]) != lower_code(b@[i as int]));
            }
            return false;
        }
        i += 1;
    }
    true
}

/// Validates the response content type: exactly the expected media type,
/// optionally qualified by a UTF-8 charset token. The error carries the
/// trimmed content-type text.
pub fn ensure_json(ct: &str) -> (r: Result<(), Error>)
    ensures
        r is Ok <==> media_type_ok(ct@),
        !media_type_ok(ct@) ==> (r matches Err(e) && e@ == ErrorSpec::BadContentType(trimmed(ct@))),
{
    let t = trim_str(ct);
    let tlen = t.unicode_len();
    let p1 = scan_semi(t, 0);
    let part0 = trim_str(t.substring_char(0, p1));
    if !str_eq_ignore_case(part0, "application/json") {
        return Err(Error::BadContentType(t.to_owned()));
    }
    if p1 == tlen {
        return Ok(());
    }
    let p2 = scan_semi(t, p1 + 1);
    let part1 = trim_str(t.substring_char(p1 + 1, p2));
    if !str_eq_ignore_case(part1, "charset=utf-8") || p2 != tlen {
        return Err(Error::BadContentType(t.to_owned()));
    }
    Ok(())
}

/// The timestamp a successful response's metadata denotes: the server date
/// less the age, both as given.
pub open spec fn snapshot_time(date: Seq<char>, age: Option<Seq<char>>) -> int {
    let t = http_date_value(date)->0;
    match age {
        None => t as int,
        Some(a) => t - dec_value(a),
    }
}

/// Extracts the snapshot metadata of a successful response: the true
/// resource time (the date header less any age header) and any entity tag.
pub fn extract_header(date: Option<&str>, age: Option<&str>, etag: Option<&str>) -> (r: Result<
    CacheHeader,
    Error,
>)
    ensures
        r matches Ok(h) ==> {
            &&& date is Some && http_date_value(date->0@) is Some
            &&& (age is Some ==> parses_as_u64(age->0@) && dec_value(age->0@) <= http_date_value(
                date->0@,
            )->0)
            &&& h.date_secs == snapshot_time(date->0@, match age {
                Some(a) => Some(a@),
                None => None,
            })
            &&& (match (h.etag, etag) {
                (Some(he), Some(e)) => he@ == e@,
                (None, None) => true,
                _ => false,
            })
            &&& h.wf()
        },
        date is Some && http_date_value(date->0@) is Some && (age is None || (parses_as_u64(
            age->0@,
        ) && dec_value(age->0@) <= http_date_value(date->0@)->0)) ==> r is Ok,
        date is None ==> (r matches Err(e) && e@ == ErrorSpec::MissingHeader("date"@)),
        date is Some && http_date_value(date->0@) is None ==> (r matches Err(e) && e@
            == ErrorSpec::BadHttpDate(date->0@)),
        date is Some && http_date_value(date->0@) is Some && age is Some && !parses_as_u64(
            age->0@,
        ) ==> (r matches Err(e) && e@ == ErrorSpec::BadIntFormat("age"@)),
        date is Some && http_date_value(date->0@) is Some && age is Some && parses_as_u64(age->0@)
            && dec_value(age->0@) > http_date_value(date->0@)->0 ==> (r matches Err(e) && e@
            == ErrorSpec::BadIntRange("age"@)),
{
    let d = match date {
        Some(d) => d,
        None => {
            return Err(Error::MissingHeader("date".to_owned()));
        },
    };
    let mut ts = match parse_http_date_secs(d) {
        Some(t) => t,
        None => {
            return Err(Error::BadHttpDate(d.to_owned()));
        },
    };
    if let Some(a) = age {
        let n = match parse_u64(a) {
            Some(n) => n,
            None => {
                return Err(Error::BadIntFormat("age".to_owned()));
            },
        };
        proof {
            crate::digits::lemma_dec_value_nonneg(a@);
        }
        if n > ts {
            return Err(Error::BadIntRange("age".to_owned()));
        }
        ts = ts - n;
    }
    let tag = match etag {
        Some(e) => Some(e.to_owned()),
        None => None,
    };
    Ok(CacheHeader { date_secs: ts, etag: tag })
}

} // verus!
