//! The entity data model: a JSON-like value tree and ordered field maps.
//!
//! An [`Object`] is an ordered list of named fields with distinct names; it is
//! the shape of every entity record the engine fetches, rewrites and caches.
//! Contracts speak of an object through its view, a sequence of
//! (name, value) pairs with names as character sequences.

use vstd::prelude::*;
use vstd::string::StrSliceExecFns;
use vstd::string::StringExecFns;

verus! {

/// A JSON-like value. Integer ids appear as `UInt`; any other numeric
/// literal is carried uninterpreted as its decimal text in `Num`.
#[derive(Debug, PartialEq)]
pub enum Value {
    Null,
    Bool(bool),
    UInt(u64),
    Num(String),
    Str(String),
    Arr(Vec<Value>),
    Obj(Object),
}

/// An entity record: ordered fields with distinct names.
#[derive(Debug, PartialEq)]
pub struct Object {
    pub entries: Vec<(String, Value)>,
}

/// The view of a field list: names as character sequences, values as values.
pub type FieldSeq = Seq<(Seq<char>, Value)>;

impl View for Object {
    type V = FieldSeq;

    open spec fn view(&self) -> FieldSeq {
        self.entries@.map_values(|e: (String, Value)| (e.0@, e.1))
    }
}

/// Whether the field list `s` has a field named `k`.
pub open spec fn has_field(s: FieldSeq, k: Seq<char>) -> bool {
    exists|i: int| 0 <= i < s.len() && #[trigger] s[i].0 == k
}

/// An index of a field named `k`; with distinct names, the only one.
pub open spec fn field_at(s: FieldSeq, k: Seq<char>) -> int {
    choose|i: int| 0 <= i < s.len() && #[trigger] s[i].0 == k
}

/// The value of the field named `k`.
pub open spec fn field_value(s: FieldSeq, k: Seq<char>) -> Value {
    s[field_at(s, k)].1
}

/// Whether all field names in `s` are distinct.
pub open spec fn fields_unique(s: FieldSeq) -> bool {
    forall|i: int, j: int| 0 <= i < j < s.len() ==> s[i].0 != s[j].0
}

/// `s` with the field named `k` set to `v`: replaced in place when present,
/// appended otherwise.
pub open spec fn with_field_set(s: FieldSeq, k: Seq<char>, v: Value) -> FieldSeq {
    if has_field(s, k) {
        s.update(field_at(s, k), (k, v))
    } else {
        s.push((k, v))
    }
}

/// `s` without the field named `k` (unchanged when absent).
pub open spec fn without_field(s: FieldSeq, k: Seq<char>) -> FieldSeq {
    if has_field(s, k) {
        s.remove(field_at(s, k))
    } else {
        s
    }
}

impl Value {
    /// Deep well-formedness: every object in the tree has distinct field names.
    pub open spec fn wf(self) -> bool
        decreases self,
    {
        match self {
            Value::Arr(items) => forall|i: int|
                0 <= i < items@.len() ==> (#[trigger] items@[i]).wf(),
            Value::Obj(o) => o.wf(),
            _ => true,
        }
    }
}

/// With distinct names, the field named like entry `i` is entry `i`.
pub proof fn lemma_field_at(s: FieldSeq, k: Seq<char>, i: int)
    requires
        fields_unique(s),
        0 <= i < s.len(),
        s[i].0 == k,
    ensures
        has_field(s, k),
        field_at(s, k) == i,
        field_value(s, k) == s[i].1,
{
    assert(has_field(s, k));
    let j = field_at(s, k);
    assert(0 <= j < s.len() && s[j].0 == k);
    if i < j {
        assert(s[i].0 != s[j].0);
    } else if j < i {
        assert(s[j].0 != s[i].0);
    }
}

/// Compares two strings by their character sequences.
pub fn str_eq(a: &str, b: &str) -> (r: bool)
    ensures
        r == (a@ == b@),
{
    let la = a.unicode_len();
    let lb = b.unicode_len();
    if la != lb {
        proof {
            if a@ == b@ {
                assert(a@.len() == b@.len());
            }
        }
        return false;
    }
    let mut i: usize = 0;
    while i < la
        invariant
            0 <= i <= la,
            la == a@.len(),
            la == lb,
            lb == b@.len(),
            forall|j: int| 0 <= j < i ==> a@[j] == b@[j],
        decreases la - i,
    {
        if a.get_char(i) != b.get_char(i) {
            proof {
                if a@ == b@ {
                    assert(a@[i as int] == b@[i as int]);
                }
            }
            return false;
        }
        i += 1;
    }
    proof {
        assert(a@ =~= b@);
    }
    true
}

/// The concatenation of two strings.
pub fn str_concat(a: &str, b: &str) -> (r: String)
    ensures
        r@ == a@ + b@,
{
    let mut r = a.to_owned();
    r.append(b);
    r
}

impl Object {
    /// Deep well-formedness: distinct field names here and in every nested
    /// object.
    pub open spec fn wf(self) -> bool
        decreases self,
    {
        fields_unique(self@) && forall|i: int|
            0 <= i < self.entries@.len() ==> (#[trigger] self.entries@[i]).1.wf()
    }

    /// The empty record.
    pub fn new() -> (r: Object)
        ensures
            r@ =~= Seq::<(Seq<char>, Value)>::empty(),
            r.wf(),
    {
        Object { entries: Vec::new() }
    }

    /// How many fields the record has.
    pub fn len(&self) -> (r: usize)
        ensures
            r == self@.len(),
    {
        self.entries.len()
    }

    /// A borrow of entry `i`.
    pub fn entry_at(&self, i: usize) -> (r: &(String, Value))
        requires
            i < self@.len(),
        ensures
            r.0@ == self@[i as int].0,
            r.1 == self@[i as int].1,
    {
        &self.entries[i]
    }

    /// The index of the first field named `key`, if any.
    pub fn index_of(&self, key: &str) -> (r: Option<usize>)
        ensures
            match r {
                Some(i) => i < self@.len() && self@[i as int].0 == key@,
                None => !has_field(self@, key@),
            },
    {
        let mut i: usize = 0;
        let n = self.entries.len();
        while i < n
            invariant
                0 <= i <= n,
                n == self@.len(),
                n == self.entries@.len(),
                forall|j: int| 0 <= j < i ==> self@[j].0 != key@,
            decreases n - i,
        {
            if str_eq(self.entries[i].0.as_str(), key) {
                return Some(i);
            }
            i += 1;
        }
        proof {
            assert(forall|j: int| 0 <= j < self@.len() ==> self@[j].0 != key@);
        }
        None
    }

    /// A borrow of the value of the field named `key`, if present.
    pub fn get<'a>(&'a self, key: &str) -> (r: Option<&'a Value>)
        requires
            fields_unique(self@),
        ensures
            match r {
                Some(v) => has_field(self@, key@) && *v == field_value(self@, key@),
                None => !has_field(self@, key@),
            },
    {
        match self.index_of(key) {
            Some(i) => {
                proof {
                    lemma_field_at(self@, key@, i as int);
                }
                Some(&self.entries[i].1)
            },
            None => None,
        }
    }

    /// Whether the record has a field named `key`.
    pub fn has(&self, key: &str) -> (r: bool)
        ensures
            r == has_field(self@, key@),
    {
        match self.index_of(key) {
            Some(i) => {
                proof {
                    assert(has_field(self@, key@));
                }
                true
            },
            None => false,
        }
    }

    /// Removes entry `i` and returns it.
    pub fn remove_at(&mut self, i: usize) -> (r: (String, Value))
        requires
            i < old(self)@.len(),
        ensures
            r.0@ == old(self)@[i as int].0,
            r.1 == old(self)@[i as int].1,
            final(self)@ == old(self)@.remove(i as int),
    {
        let r = self.entries.remove(i);
        proof {
            assert(final(self)@ =~= old(self)@.remove(i as int));
        }
        r
    }

    /// Inserts `(name, v)` as entry `i`.
    pub fn insert_at(&mut self, i: usize, name: String, v: Value)
        requires
            i <= old(self)@.len(),
        ensures
            final(self)@ == old(self)@.insert(i as int, (name@, v)),
    {
        self.entries.insert(i, (name, v));
        proof {
            assert(final(self)@ =~= old(self)@.insert(i as int, (name@, v)));
        }
    }

    /// Sets the field named `key` to `v`: replaces its value in place when the
    /// field exists, appends the field otherwise.
    pub fn put(&mut self, key: &str, v: Value)
        requires
            fields_unique(old(self)@),
        ensures
            final(self)@ == with_field_set(old(self)@, key@, v),
            fields_unique(final(self)@),
    {
        match self.index_of(key) {
            Some(i) => {
                proof {
                    lemma_field_at(old(self)@, key@, i as int);
                }
                let mut pair = self.entries.remove(i);
                pair.1 = v;
                self.entries.insert(i, pair);
                proof {
                    assert(final(self)@ =~= old(self)@.update(
                        field_at(old(self)@, key@),
                        (key@, v),
                    ));
                    lemma_fields_unique_update(old(self)@, field_at(old(self)@, key@), (key@, v));
                }
            },
            None => {
                let name = key.to_owned();
                self.entries.push((name, v));
                proof {
                    assert(final(self)@ =~= old(self)@.push((key@, v)));
                    lemma_fields_unique_push(old(self)@, (key@, v));
                }
            },
        }
    }

    /// Removes the field named `key`, if present.
    pub fn remove_field(&mut self, key: &str)
        requires
            fields_unique(old(self)@),
        ensures
            final(self)@ == without_field(old(self)@, key@),
            fields_unique(final(self)@),
    {
        match self.index_of(key) {
            Some(i) => {
                proof {
                    lemma_field_at(old(self)@, key@, i as int);
                }
                let _ = self.entries.remove(i);
                proof {
                    assert(final(self)@ =~= old(self)@.remove(field_at(old(self)@, key@)));
                    lemma_fields_unique_remove(old(self)@, i as int);
                }
            },
            None => {
            },
        }
    }
}

/// Updating an entry with a pair named like the old entry keeps names distinct.
pub proof fn lemma_fields_unique_update(s: FieldSeq, i: int, p: (Seq<char>, Value))
    requires
        fields_unique(s),
        0 <= i < s.len(),
        p.0 == s[i].0,
    ensures
        fields_unique(s.update(i, p)),
{
}

/// A well-formed object has distinct names and well-formed values, seen
/// through its view.
pub proof fn lemma_wf_fields(o: Object)
    requires
        o.wf(),
    ensures
        fields_unique(o@),
        forall|i: int| 0 <= i < o@.len() ==> (#[trigger] o@[i]).1.wf(),
{
    assert(o@.len() == o.entries@.len());
    assert forall|i: int| 0 <= i < o@.len() implies (#[trigger] o@[i]).1.wf() by {
        assert(o@[i].1 == o.entries@[i].1);
        assert(o.entries@[i].1.wf());
    }
}

/// Distinct names and well-formed values, seen through the view, make the
/// object well-formed.
pub proof fn lemma_wf_from_fields(o: Object)
    requires
        fields_unique(o@),
        forall|i: int| 0 <= i < o@.len() ==> (#[trigger] o@[i]).1.wf(),
    ensures
        o.wf(),
{
    assert(o@.len() == o.entries@.len());
    assert forall|i: int| 0 <= i < o.entries@.len() implies (#[trigger] o.entries@[i].1).wf() by {
        assert(o@[i].1 == o.entries@[i].1);
    }
}

/// Removing an entry keeps names distinct.
pub proof fn lemma_fields_unique_remove(s: FieldSeq, i: int)
    requires
        fields_unique(s),
        0 <= i < s.len(),
    ensures
        fields_unique(s.remove(i)),
{
    let t = s.remove(i);
    assert forall|a: int, b: int| 0 <= a < b < t.len() implies t[a].0 != t[b].0 by {
        let a0 = if a < i {
            a
        } else {
            a + 1
        };
        let b0 = if b < i {
            b
        } else {
            b + 1
        };
        assert(t[a] == s[a0]);
        assert(t[b] == s[b0]);
        assert(s[a0].0 != s[b0].0);
    }
}

/// Appending a fresh name keeps names distinct.
pub proof fn lemma_fields_unique_push(s: FieldSeq, p: (Seq<char>, Value))
    requires
        fields_unique(s),
        !has_field(s, p.0),
    ensures
        fields_unique(s.push(p)),
{
    assert forall|i: int, j: int| 0 <= i < j < s.push(p).len() implies s.push(p)[i].0 != s.push(
        p,
    )[j].0 by {
        if j < s.len() {
            assert(s[i].0 != s[j].0);
        } else {
            assert(s.push(p)[j] == p);
            assert(s.push(p)[i] == s[i]);
            assert(s[i].0 != p.0);
        }
    }
}

} // verus!
