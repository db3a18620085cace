//! Per-kind entity tables: ids mapped to records, kept in first-insertion
//! order, with last-write-wins on an id collision.

use vstd::prelude::*;

use crate::value::Object;

verus! {

/// One per-kind table of entities.
#[derive(Debug, PartialEq)]
pub struct Table {
    pub entries: Vec<(u64, Object)>,
}

/// The view of a table: a sequence of (id, record) rows.
pub type RowSeq = Seq<(u64, Object)>;

impl View for Table {
    type V = RowSeq;

    open spec fn view(&self) -> RowSeq {
        self.entries@
    }
}

/// Whether the rows `s` have a row with id `id`.
pub open spec fn has_id(s: RowSeq, id: u64) -> bool {
    exists|i: int| 0 <= i < s.len() && #[trigger] s[i].0 == id
}

/// An index of a row with id `id`; with distinct ids, the only one.
pub open spec fn id_at(s: RowSeq, id: u64) -> int {
    choose|i: int| 0 <= i < s.len() && #[trigger] s[i].0 == id
}

/// The record of the row with id `id`.
pub open spec fn record_for(s: RowSeq, id: u64) -> Object {
    s[id_at(s, id)].1
}

/// Whether all ids in `s` are distinct.
pub open spec fn ids_unique(s: RowSeq) -> bool {
    forall|i: int, j: int| 0 <= i < j < s.len() ==> s[i].0 != s[j].0
}

/// `s` with id `id` bound to `o`: replaced in place when present (last write
/// wins), appended otherwise.
pub open spec fn with_id_set(s: RowSeq, id: u64, o: Object) -> RowSeq {
    if has_id(s, id) {
        s.update(id_at(s, id), (id, o))
    } else {
        s.push((id, o))
    }
}

/// With distinct ids, the row keyed like row `i` is row `i`.
pub proof fn lemma_id_at(s: RowSeq, id: u64, i: int)
    requires
        ids_unique(s),
        0 <= i < s.len(),
        s[i].0 == id,
    ensures
        has_id(s, id),
        id_at(s, id) == i,
        record_for(s, id) == s[i].1,
{
    assert(has_id(s, id));
    let j = id_at(s, id);
    assert(0 <= j < s.len() && s[j].0 == id);
    if i < j {
        assert(s[i].0 != s[j].0);
    } else if j < i {
        assert(s[j].0 != s[i].0);
    }
}

/// Updating a row with one keyed like the old row keeps ids distinct.
pub proof fn lemma_ids_unique_update(s: RowSeq, i: int, p: (u64, Object))
    requires
        ids_unique(s),
        0 <= i < s.len(),
        p.0 == s[i].0,
    ensures
        ids_unique(s.update(i, p)),
{
}

/// Appending a fresh id keeps ids distinct.
pub proof fn lemma_ids_unique_push(s: RowSeq, p: (u64, Object))
    requires
        ids_unique(s),
        !has_id(s, p.0),
    ensures
        ids_unique(s.push(p)),
{
    assert forall|i: int, j: int| 0 <= i < j < s.push(p).len() implies s.push(p)[i].0 != s.push(
        p,
    )[j].0 by {
        if j < s.len() {
            assert(s[i].0 != s[j].0);
        } else {
            assert(s.push(p)[j] == p);
            assert(s.push(p)[i] == s[i]);
            assert(s[i].0 != p.0);
        }
    }
}

impl Table {
    /// Well-formed: distinct ids, and every record well-formed.
    pub open spec fn wf(self) -> bool {
        ids_unique(self@) && forall|i: int| 0 <= i < self@.len() ==> (#[trigger] self@[i].1).wf()
    }

    /// The empty table.
    pub fn new() -> (r: Table)
        ensures
            r@ =~= Seq::<(u64, Object)>::empty(),
            r.wf(),
    {
        Table { entries: Vec::new() }
    }

    /// How many rows the table has.
    pub fn len(&self) -> (r: usize)
        ensures
            r == self@.len(),
    {
        self.entries.len()
    }

    /// A borrow of row `i`.
    pub fn row_at(&self, i: usize) -> (r: &(u64, Object))
        requires
            i < self@.len(),
        ensures
            *r == self@[i as int],
    {
        &self.entries[i]
    }

    /// The index of the row with id `id`, if any.
    pub fn index_of(&self, id: u64) -> (r: Option<usize>)
        ensures
            match r {
                Some(i) => i < self@.len() && self@[i as int].0 == id,
                None => !has_id(self@, id),
            },
    {
        let mut i: usize = 0;
        let n = self.entries.len();
        while i < n
            invariant
                0 <= i <= n,
                n == self@.len(),
                forall|j: int| 0 <= j < i ==> self@[j].0 != id,
            decreases n - i,
        {
            if self.entries[i].0 == id {
                return Some(i);
            }
            i += 1;
        }
        None
    }

    /// A borrow of the record with id `id`, if present.
    pub fn get<'a>(&'a self, id: u64) -> (r: Option<&'a Object>)
        requires
            ids_unique(self@),
        ensures
            match r {
                Some(o) => has_id(self@, id) && *o == record_for(self@, id),
                None => !has_id(self@, id),
            },
    {
        match self.index_of(id) {
            Some(i) => {
                proof {
                    lemma_id_at(self@, id, i as int);
                }
                Some(&self.entries[i].1)
            },
            None => None,
        }
    }

    /// Binds id `id` to `o`, replacing any existing record for it.
    pub fn insert(&mut self, id: u64, o: Object)
        requires
            ids_unique(old(self)@),
        ensures
            final(self)@ == with_id_set(old(self)@, id, o),
            ids_unique(final(self)@),
            old(self).wf() && o.wf() ==> final(self).wf(),
    {
        match self.index_of(id) {
            Some(i) => {
                proof {
                    lemma_id_at(old(self)@, id, i as int);
                }
                let _ = self.entries.remove(i);
                self.entries.insert(i, (id, o));
                proof {
                    assert(final(self)@ =~= old(self)@.update(id_at(old(self)@, id), (id, o)));
                    lemma_ids_unique_update(old(self)@, id_at(old(self)@, id), (id, o));
                }
            },
            None => {
                self.entries.push((id, o));
                proof {
                    assert(final(self)@ =~= old(self)@.push((id, o)));
                    lemma_ids_unique_push(old(self)@, (id, o));
                }
            },
        }
    }

    /// Removes row `i` and returns it.
    pub fn remove_at(&mut self, i: usize) -> (r: (u64, Object))
        requires
            i < old(self)@.len(),
        ensures
            r == old(self)@[i as int],
            final(self)@ == old(self)@.remove(i as int),
    {
        self.entries.remove(i)
    }

    /// Inserts `(id, o)` as row `i`.
    pub fn insert_at(&mut self, i: usize, id: u64, o: Object)
        requires
            i <= old(self)@.len(),
        ensures
            final(self)@ == old(self)@.insert(i as int, (id, o)),
    {
        self.entries.insert(i, (id, o));
    }
}

} // verus!
