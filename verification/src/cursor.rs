//! Keyset pagination of an owner's full id set: every page asks only for ids
//! strictly above the last one known, so the accumulated list stays strictly
//! ascending and concurrent inserts cannot shift pages. The final page's
//! metadata (less its entity tag, which never validates against later
//! fetches) is kept for persisting the merged list.

use vstd::prelude::*;

use crate::digits::dec_digits;
use crate::digits::u64_string;
use crate::envelope::extract_ids;
use crate::envelope::id_of;
use crate::envelope::id_ok;
use crate::envelope::is_last_page;
use crate::envelope::Envelope;
use crate::error::internal;
use crate::error::Error;
use crate::error::ErrorSpec;
use crate::headers::CacheHeader;

verus! {

/// How many ids one listing page may carry.
pub const MAX_IDS_PER_PAGE: u64 = 200;

/// Whether the ids in `s` are strictly ascending.
pub open spec fn strictly_ascending(s: Seq<u64>) -> bool {
    forall|i: int, j: int| 0 <= i < j < s.len() ==> s[i] < s[j]
}

/// The ids listed by a page, in order.
pub open spec fn ids_listed(env: Envelope) -> Seq<u64> {
    match env.results {
        Some(rs) => Seq::new(rs@.len(), |i: int| id_of(rs@[i])),
        None => Seq::<u64>::empty(),
    }
}

/// Whether the page carries all three paging counters.
pub open spec fn counters_present(env: Envelope) -> bool {
    env.page is Some && env.per_page is Some && env.total_results is Some
}

/// Whether the page's counters mark it as the final page.
pub open spec fn is_final_page(env: Envelope) -> bool {
    (env.page->0 as int) * (env.per_page->0 as int) >= env.total_results->0 as int
}

/// Whether the cursor holding `ids` accepts the page: counters present,
/// every record carries an id, and appending the listed ids keeps the whole
/// list strictly ascending.
pub open spec fn page_acceptable(ids: Seq<u64>, env: Envelope) -> bool {
    &&& counters_present(env)
    &&& env.results is Some
    &&& forall|i: int| 0 <= i < env.results->0@.len() ==> id_ok(#[trigger] env.results->0@[i])
    &&& strictly_ascending(ids + ids_listed(env))
}

/// The id-listing cursor: the ids accumulated so far, the snapshot time the
/// conditional request headers carry, and the metadata to persist with the
/// merged list.
pub struct Cursor {
    pub ids: Vec<u64>,
    pub request_date: Option<u64>,
    pub save_header: Option<CacheHeader>,
}

proof fn lemma_pair_ascending(s: Seq<u64>, i: int, j: int)
    requires
        forall|k: int| 0 <= k < s.len() - 1 ==> #[trigger] s[k] < s[k + 1],
        0 <= i < j < s.len(),
    ensures
        s[i] < s[j],
    decreases j - i,
{
    if i + 1 < j {
        lemma_pair_ascending(s, i, j - 1);
    }
}

/// Adjacent order gives strict ascent everywhere.
pub proof fn lemma_adjacent_ascending(s: Seq<u64>)
    requires
        forall|k: int| 0 <= k < s.len() - 1 ==> #[trigger] s[k] < s[k + 1],
    ensures
        strictly_ascending(s),
{
    assert forall|i: int, j: int| 0 <= i < j < s.len() implies s[i] < s[j] by {
        lemma_pair_ascending(s, i, j);
    }
}

impl Cursor {
    /// Well-formed: ids strictly ascending, dates before the year ten
    /// thousand.
    pub open spec fn wf(self) -> bool {
        &&& strictly_ascending(self.ids@)
        &&& (self.request_date matches Some(t) ==> t < crate::httptime::HTTP_DATE_LIMIT)
        &&& (self.save_header matches Some(h) ==> h.wf())
    }

    /// A cursor resuming from a cached id list and its snapshot metadata, or
    /// starting empty.
    pub fn new(ids: Vec<u64>, cached: Option<CacheHeader>) -> (r: Cursor)
        requires
            strictly_ascending(ids@),
            cached matches Some(h) ==> h.wf(),
        ensures
            r.ids == ids,
            r.wf(),
            (match (cached, r.save_header) {
                (Some(h), Some(s)) => s.date_secs == h.date_secs && s.etag is None
                    && r.request_date == Some(h.date_secs),
                (None, None) => r.request_date is None,
                _ => false,
            }),
    {
        match cached {
            Some(h) => Cursor {
                ids,
                request_date: Some(h.date_secs),
                save_header: Some(CacheHeader { date_secs: h.date_secs, etag: None }),
            },
            None => Cursor { ids, request_date: None, save_header: None },
        }
    }

    /// The keyset bound for the next page request: the last id known.
    pub fn id_above(&self) -> (r: Option<u64>)
        ensures
            self.ids@.len() > 0 ==> r == Some(self.ids@.last()),
            self.ids@.len() == 0 ==> r is None,
    {
        let n = self.ids.len();
        if n == 0 {
            None
        } else {
            Some(self.ids[n - 1])
        }
    }

    /// Merges one page into the cursor: checks the counters, reads the ids,
    /// refuses a page whose ids are not strictly above everything known, and
    /// reports whether this was the final page, keeping the final page's
    /// metadata without its entity tag.
    pub fn apply_page(&mut self, page_header: CacheHeader, env: Envelope) -> (r: Result<
        bool,
        Error,
    >)
        requires
            old(self).wf(),
            env.wf(),
            page_header.wf(),
        ensures
            final(self).wf(),
            r is Ok <==> page_acceptable(old(self).ids@, env),
            r matches Ok(last) ==> {
                &&& last == is_final_page(env)
                &&& final(self).ids@ == old(self).ids@ + ids_listed(env)
                &&& strictly_ascending(final(self).ids@)
                &&& (old(self).ids@.len() > 0 ==> forall|i: int|
                    0 <= i < ids_listed(env).len() ==> ids_listed(env)[i] > old(
                        self,
                    ).ids@.last())
                &&& final(self).request_date == old(self).request_date
                &&& (last ==> (final(self).save_header matches Some(h) && h.date_secs
                    == page_header.date_secs && h.etag is None))
                &&& (!last ==> final(self).save_header == old(self).save_header)
            },
            r is Err ==> *final(self) == *old(self),
            counters_present(env) && env.results is Some && (forall|i: int|
                0 <= i < env.results->0@.len() ==> id_ok(#[trigger] env.results->0@[i]))
                && !strictly_ascending(old(self).ids@ + ids_listed(env)) ==> (r matches Err(e) && e@
                == ErrorSpec::Internal("page ids not ascending"@)),
    {
        let last = match is_last_page(&env) {
            Ok(b) => b,
            Err(e) => {
                return Err(e);
            },
        };
        let new_ids = match extract_ids(env) {
            Ok(v) => v,
            Err(e) => {
                return Err(e);
            },
        };
        proof {
            assert(new_ids@ =~= ids_listed(env));
        }
        // the appended list must stay strictly ascending
        let n = new_ids.len();
        let mut k: usize = 0;
        let mut ok = if self.ids.len() > 0 && n > 0 {
            self.ids[self.ids.len() - 1] < new_ids[0]
        } else {
            true
        };
        proof {
            if self.ids@.len() > 0 && n > 0 && !(self.ids@.last() < new_ids@[0]) {
                let c = self.ids@ + new_ids@;
                assert(c[self.ids@.len() - 1] == self.ids@.last());
                assert(c[self.ids@.len() as int] == new_ids@[0]);
                assert(!strictly_ascending(c));
            }
        }
        while n > 0 && k < n - 1
            invariant
                0 <= k <= n,
                n == new_ids@.len(),
                ok ==> forall|i: int| 0 <= i < k ==> #[trigger] new_ids@[i] < new_ids@[i + 1],
                ok ==> (self.ids@.len() > 0 && n > 0 ==> self.ids@.last() < new_ids@[0]),
                !ok ==> !strictly_ascending(self.ids@ + new_ids@),
            decreases n - k,
        {
            proof {
                if !(new_ids@[k as int] < new_ids@[k as int + 1]) {
                    let c = self.ids@ + new_ids@;
                    assert(c[self.ids@.len() + k] == new_ids@[k as int]);
                    assert(c[self.ids@.len() + k + 1] == new_ids@[k as int + 1]);
                    assert(!strictly_ascending(c));
                }
            }
            if new_ids[k] >= new_ids[k + 1] {
                ok = false;
            }
            k += 1;
        }
        if !ok {
            proof {
                assert(!page_acceptable(old(self).ids@, env));
            }
            return Err(internal("page ids not ascending"));
        }
        proof {
            let c = self.ids@ + new_ids@;
            assert forall|i: int| 0 <= i < c.len() - 1 implies #[trigger] c[i] < c[i + 1] by {
                if i < self.ids@.len() - 1 {
                    assert(c[i] == self.ids@[i] && c[i + 1] == self.ids@[i + 1]);
                } else if i == self.ids@.len() - 1 {
                    assert(c[i] == self.ids@.last() && c[i + 1] == new_ids@[0]);
                } else {
                    let k2 = i - self.ids@.len();
                    assert(c[i] == new_ids@[k2] && c[i + 1] == new_ids@[k2 + 1]);
                }
            }
            lemma_adjacent_ascending(c);
        }
        let mut moved = new_ids;
        self.ids.append(&mut moved);
        if last {
            let mut h = page_header;
            h.drop_etag();
            self.save_header = Some(h);
        }
        proof {
            assert(final(self).ids@ == old(self).ids@ + ids_listed(env));
            assert(strictly_ascending(final(self).ids@));
            if old(self).ids@.len() > 0 {
                assert forall|i: int|
                    0 <= i < ids_listed(env).len() implies ids_listed(env)[i] > old(
                    self,
                ).ids@.last() by {
                    let c = old(self).ids@ + ids_listed(env);
                    assert(c[old(self).ids@.len() - 1] == old(self).ids@.last());
                    assert(c[old(self).ids@.len() + i] == ids_listed(env)[i]);
                }
            }
        }
        Ok(last)
    }
}

/// Whether a run from `ids` over `pages` reaches a final page: every page up
/// to the first final one is acceptable to the cursor.
pub open spec fn run_accepts(ids: Seq<u64>, pages: Seq<(CacheHeader, Envelope)>) -> bool
    decreases pages.len(),
{
    if pages.len() == 0 {
        false
    } else if !page_acceptable(ids, pages[0].1) {
        false
    } else if is_final_page(pages[0].1) {
        true
    } else {
        run_accepts(ids + ids_listed(pages[0].1), pages.drop_first())
    }
}

/// The ids listed by the first `n` pages, in order.
pub open spec fn pages_ids(pages: Seq<(CacheHeader, Envelope)>, n: int) -> Seq<u64>
    decreases n,
{
    if n <= 0 {
        Seq::<u64>::empty()
    } else {
        pages_ids(pages, n - 1) + ids_listed(pages[n - 1].1)
    }
}

proof fn lemma_pages_ids_shift(pages: Seq<(CacheHeader, Envelope)>, n: int)
    requires
        pages.len() > 0,
        0 <= n <= pages.len() - 1,
    ensures
        pages_ids(pages, n + 1) == ids_listed(pages[0].1) + pages_ids(pages.drop_first(), n),
    decreases n,
{
    if n == 0 {
        assert(pages_ids(pages, 0) == Seq::<u64>::empty());
        assert(pages_ids(pages.drop_first(), 0) == Seq::<u64>::empty());
        assert(pages_ids(pages, 1) =~= ids_listed(pages[0].1) + pages_ids(pages.drop_first(), 0));
    } else {
        lemma_pages_ids_shift(pages, n - 1);
        assert(pages.drop_first()[n - 1] == pages[n]);
        assert(pages_ids(pages, n + 1) =~= ids_listed(pages[0].1) + pages_ids(
            pages.drop_first(),
            n,
        ));
    }
}

/// Feeds successful pages to the cursor until it reports the final page:
/// returns how many pages were consumed and the finished cursor. Exactly the
/// consumed pages' ids, in order, extend the initial list; only the last
/// consumed page satisfies the final-page test.
pub fn cursor_run(start: Cursor, pages: Vec<(CacheHeader, Envelope)>) -> (r: Result<
    (usize, Cursor),
    Error,
>)
    requires
        start.wf(),
        forall|i: int|
            0 <= i < pages@.len() ==> (#[trigger] pages@[i].1).wf() && pages@[i].0.wf(),
    ensures
        r is Ok <==> run_accepts(start.ids@, pages@),
        r matches Ok(p) ==> {
            &&& 1 <= p.0 <= pages@.len()
            &&& p.1.wf()
            &&& strictly_ascending(p.1.ids@)
            &&& p.1.ids@ == start.ids@ + pages_ids(pages@, p.0 as int)
            &&& (forall|j: int|
                0 <= j < p.0 - 1 ==> counters_present(#[trigger] pages@[j].1) && !is_final_page(
                    pages@[j].1,
                ))
            &&& counters_present(pages@[p.0 - 1].1) && is_final_page(pages@[p.0 - 1].1)
        },
    decreases pages@.len(),
{
    let mut pages = pages;
    if pages.len() == 0 {
        return Err(internal("pages exhausted before the final page"));
    }
    let ghost pages0 = pages@;
    let (h, env) = pages.remove(0);
    proof {
        assert(pages@ =~= pages0.drop_first());
    }
    let mut c = start;
    match c.apply_page(h, env) {
        Err(e) => Err(e),
        Ok(true) => {
            proof {
                assert(pages_ids(pages0, 0) == Seq::<u64>::empty());
                assert(pages_ids(pages0, 1) =~= Seq::<u64>::empty() + ids_listed(env));
                assert(c.ids@ =~= start.ids@ + pages_ids(pages0, 1));
            }
            Ok((1, c))
        },
        Ok(false) => {
            match cursor_run(c, pages) {
                Ok((n, c2)) => {
                    proof {
                        lemma_pages_ids_shift(pages0, n as int);
                        assert(c2.ids@ =~= start.ids@ + pages_ids(pages0, n + 1));
                        assert forall|j: int|
                            0 <= j < n implies counters_present(#[trigger] pages0[j].1)
                            && !is_final_page(pages0[j].1) by {
                            if j > 0 {
                                assert(pages0[j] == pages0.drop_first()[j - 1]);
                            }
                        }
                        assert(pages0[n as int] == pages0.drop_first()[n - 1]);
                    }
                    Ok((n + 1, c2))
                },
                Err(e) => Err(e),
            }
        },
    }
}

/// The fixed query of an id-listing request: ascending ids only, the page
/// size, the owner, and the keyset bound when one is known.
pub fn observations_query(user_id: u64, id_above: Option<u64>) -> (r: Vec<(String, String)>)
    ensures
        r@.len() == (if id_above is Some {
            6int
        } else {
            5int
        }),
        r@[0].0@ == "only_id"@ && r@[0].1@ == "true"@,
        r@[1].0@ == "order"@ && r@[1].1@ == "asc"@,
        r@[2].0@ == "order_by"@ && r@[2].1@ == "id"@,
        r@[3].0@ == "per_page"@ && r@[3].1@ == dec_digits(MAX_IDS_PER_PAGE as nat),
        r@[4].0@ == "user_id"@ && r@[4].1@ == dec_digits(user_id as nat),
        id_above matches Some(b) ==> r@[5].0@ == "id_above"@ && r@[5].1@ == dec_digits(b as nat),
{
    let mut r: Vec<(String, String)> = Vec::new();
    r.push(("only_id".to_owned(), "true".to_owned()));
    r.push(("order".to_owned(), "asc".to_owned()));
    r.push(("order_by".to_owned(), "id".to_owned()));
    r.push(("per_page".to_owned(), u64_string(MAX_IDS_PER_PAGE)));
    r.push(("user_id".to_owned(), u64_string(user_id)));
    if let Some(b) = id_above {
        r.push(("id_above".to_owned(), u64_string(b)));
    }
    r
}

} // verus!
