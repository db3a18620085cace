//! The normalization engine: decomposes a batch of deeply nested entity
//! records into flat per-kind tables. Two primitives do all the work: an
//! embedded object is moved to its kind's table and replaced in the parent by
//! its id; an embedded array is moved likewise and replaced by the ordered
//! array of ids. The redundant id convenience field beside an extracted field
//! is dropped.

use vstd::prelude::*;
use vstd::pervasive::unreached;

use crate::envelope::extract_id;
use crate::headers::CacheHeader;
use crate::table::with_id_set;
use crate::table::RowSeq;
use crate::table::Table;
use crate::envelope::id_err;
use crate::envelope::id_of;
use crate::envelope::id_ok;
use crate::error::Error;
use crate::error::ErrorSpec;
use crate::value::field_value;
use crate::value::field_at;
use crate::value::fields_unique;
use crate::value::has_field;
use crate::value::lemma_field_at;
use crate::value::lemma_fields_unique_update;
use crate::value::lemma_wf_fields;
use crate::value::lemma_wf_from_fields;
use crate::value::str_concat;
use crate::value::with_field_set;
use crate::value::without_field;
use crate::value::FieldSeq;
use crate::value::Object;
use crate::value::Value;

verus! {

/// Whether the extract-object primitive accepts field `k` of `parent`:
/// absent, null, or an embedded object carrying a numeric id.
pub open spec fn obj_extractable(parent: FieldSeq, k: Seq<char>) -> bool {
    ||| !has_field(parent, k)
    ||| field_value(parent, k) is Null
    ||| (field_value(parent, k) matches Value::Obj(o) && id_ok(o))
}

/// Why the extract-object primitive refuses field `k`.
pub open spec fn obj_extract_err(parent: FieldSeq, k: Seq<char>) -> ErrorSpec {
    match field_value(parent, k) {
        Value::Obj(o) => id_err(o),
        _ => ErrorSpec::Internal(k + ": not an object"@),
    }
}

/// After removing entry `i`, values stay well-formed.
proof fn lemma_values_wf_remove(s: FieldSeq, i: int)
    requires
        0 <= i < s.len(),
        forall|j: int| 0 <= j < s.len() ==> (#[trigger] s[j]).1.wf(),
    ensures
        forall|j: int| 0 <= j < s.remove(i).len() ==> (#[trigger] s.remove(i)[j]).1.wf(),
{
    let t = s.remove(i);
    assert forall|j: int| 0 <= j < t.len() implies (#[trigger] t[j]).1.wf() by {
        if j < i {
            assert(t[j] == s[j]);
        } else {
            assert(t[j] == s[j + 1]);
        }
    }
}

/// Extract-object: if `key` holds an embedded object, moves it out, replaces
/// the field's value by the object's id, and drops any redundant `<key>_id`
/// field beside it. An absent or null field extracts nothing; a non-object
/// value, or an object without a numeric id, is an error that leaves the
/// parent unchanged.
pub fn extract_object(parent: &mut Object, key: &str) -> (r: Result<Option<(u64, Object)>, Error>)
    requires
        old(parent).wf(),
    ensures
        final(parent).wf(),
        r is Ok <==> obj_extractable(old(parent)@, key@),
        r matches Ok(opt) ==> (match opt {
            None => final(parent)@ == old(parent)@ && (!has_field(old(parent)@, key@)
                || field_value(old(parent)@, key@) is Null),
            Some(p) => {
                &&& has_field(old(parent)@, key@)
                &&& field_value(old(parent)@, key@) == Value::Obj(p.1)
                &&& p.1.wf()
                &&& id_ok(p.1) && p.0 == id_of(p.1)
                &&& final(parent)@ == without_field(
                    with_field_set(old(parent)@, key@, Value::UInt(p.0)),
                    key@ + "_id"@,
                )
            },
        }),
        r matches Err(e) ==> final(parent)@ == old(parent)@ && e@ == obj_extract_err(
            old(parent)@,
            key@,
        ),
{
    let idx = match parent.index_of(key) {
        None => {
            return Ok(None);
        },
        Some(i) => i,
    };
    proof {
        lemma_wf_fields(*parent);
        lemma_field_at(parent@, key@, idx as int);
    }
    // inspect without touching the record, so a failure leaves it unchanged
    let id = match &parent.entry_at(idx).1 {
        Value::Null => {
            return Ok(None);
        },
        Value::Obj(inner) => {
            proof {
                assert(parent@[idx as int].1.wf());
                assert(inner.wf());
                assert(fields_unique(inner@));
            }
            match extract_id(inner) {
                Ok(id) => id,
                Err(e) => {
                    return Err(e);
                },
            }
        },
        _ => {
            return Err(Error::Internal(str_concat(key, ": not an object")));
        },
    };
    // commit: move the object out and put its id in the field's place
    let ghost o0 = parent@;
    let (name, v) = parent.remove_at(idx);
    let inner = match v {
        Value::Obj(o) => o,
        _ => unreached(),
    };
    parent.insert_at(idx, name, Value::UInt(id));
    proof {
        assert(parent@ =~= o0.update(idx as int, (key@, Value::UInt(id))));
        assert(parent@ == with_field_set(o0, key@, Value::UInt(id)));
        lemma_fields_unique_update(o0, idx as int, (key@, Value::UInt(id)));
        assert forall|i: int| 0 <= i < parent@.len() implies (#[trigger] parent@[i]).1.wf() by {
            if i != idx as int {
                assert(parent@[i] == o0[i]);
            }
        }
        lemma_wf_from_fields(*parent);
    }
    let ghost mid = parent@;
    let kid = str_concat(key, "_id");
    parent.remove_field(kid.as_str());
    proof {
        assert(parent@ == without_field(mid, key@ + "_id"@));
        if has_field(mid, key@ + "_id"@) {
            lemma_values_wf_remove(mid, field_at(mid, key@ + "_id"@));
        }
        lemma_wf_from_fields(*parent);
    }
    Ok(Some((id, inner)))
}

/// Whether `v` is an embedded object carrying a numeric id.
pub open spec fn item_ok(v: Value) -> bool {
    v matches Value::Obj(o) && id_ok(o)
}

/// The embedded object inside `v`.
pub open spec fn item_obj(v: Value) -> Object {
    v->Obj_0
}

/// Why `v` cannot be extracted from the array under `k`.
pub open spec fn item_err(v: Value, k: Seq<char>) -> ErrorSpec {
    match v {
        Value::Obj(o) => id_err(o),
        _ => ErrorSpec::Internal(k + " item: not an object"@),
    }
}

/// Whether every element of `items` is an embedded object carrying an id.
pub open spec fn items_extractable(items: Seq<Value>) -> bool {
    forall|i: int| 0 <= i < items.len() ==> item_ok(#[trigger] items[i])
}

/// Whether the extract-array primitive accepts field `k` of `parent`:
/// absent, or an array of embedded objects each carrying a numeric id.
pub open spec fn arr_extractable(parent: FieldSeq, k: Seq<char>) -> bool {
    ||| !has_field(parent, k)
    ||| (field_value(parent, k) matches Value::Arr(items) && items_extractable(items@))
}

/// Whether `e` is the failure the extract-array primitive owes for field `k`:
/// not an array at all, or the first unusable element's complaint.
pub open spec fn arr_extract_err_matches(parent: FieldSeq, k: Seq<char>, e: ErrorSpec) -> bool {
    match field_value(parent, k) {
        Value::Arr(items) => exists|i: int|
            {
                &&& 0 <= i < items@.len()
                &&& !item_ok(#[trigger] items@[i])
                &&& e == item_err(items@[i], k)
                &&& forall|j: int| 0 <= j < i ==> item_ok(#[trigger] items@[j])
            },
        _ => e == ErrorSpec::Internal(k + ": not an array"@),
    }
}

/// Extract-array: if `key` holds an array of embedded objects, moves them all
/// out in order, replaces the field's value by the ordered array of their
/// ids, and drops any redundant `<key>_ids` field beside it. An absent field
/// extracts nothing; anything else in the field, or an element without a
/// numeric id, is an error that leaves the parent unchanged.
pub fn extract_objects(parent: &mut Object, key: &str) -> (r: Result<Vec<(u64, Object)>, Error>)
    requires
        old(parent).wf(),
    ensures
        final(parent).wf(),
        r is Ok <==> arr_extractable(old(parent)@, key@),
        r matches Ok(pairs) ==> (if !has_field(old(parent)@, key@) {
            pairs@.len() == 0 && final(parent)@ == old(parent)@
        } else {
            let items = field_value(old(parent)@, key@)->Arr_0;
            &&& field_value(old(parent)@, key@) is Arr
            &&& pairs@.len() == items@.len()
            &&& (forall|i: int|
                0 <= i < items@.len() ==> (#[trigger] pairs@[i]).1 == item_obj(items@[i])
                    && pairs@[i].0 == id_of(item_obj(items@[i])) && pairs@[i].1.wf())
            &&& has_field(final(parent)@, key@)
            &&& field_value(final(parent)@, key@) is Arr
            &&& field_value(final(parent)@, key@)->Arr_0@ == Seq::new(
                items@.len(),
                |i: int| Value::UInt(pairs@[i].0),
            )
            &&& final(parent)@ == without_field(
                with_field_set(old(parent)@, key@, field_value(final(parent)@, key@)),
                key@ + "_ids"@,
            )
        }),
        r matches Err(e) ==> final(parent)@ == old(parent)@ && has_field(old(parent)@, key@)
            && arr_extract_err_matches(old(parent)@, key@, e@),
{
    let idx = match parent.index_of(key) {
        None => {
            return Ok(Vec::new());
        },
        Some(i) => i,
    };
    proof {
        lemma_wf_fields(*parent);
        lemma_field_at(parent@, key@, idx as int);
    }
    // inspect without touching the record, so a failure leaves it unchanged
    match &parent.entry_at(idx).1 {
        Value::Arr(items) => {
            proof {
                assert(parent@[idx as int].1.wf());
                assert(parent@[idx as int].1 == Value::Arr(*items));
            }
            let n = items.len();
            let mut i: usize = 0;
            #[verifier::loop_isolation(false)]
            while i < n
                invariant
                    0 <= i <= n,
                    forall|j: int| 0 <= j < i ==> item_ok(#[trigger] items@[j]),
                decreases n - i,
            {
                match &items[i] {
                    Value::Obj(o) => {
                        proof {
                            assert(items@[i as int].wf());
                            assert(o.wf());
                            assert(fields_unique(o@));
                        }
                        if let Err(e) = extract_id(o) {
                            proof {
                                let w = i as int;
                                assert(0 <= w < items@.len() && !item_ok(items@[w]) && e@
                                    == item_err(items@[w], key@) && (forall|j: int|
                                    0 <= j < w ==> item_ok(#[trigger] items@[j])));
                            }
                            return Err(e);
                        }
                    },
                    _ => {
                        let e = Error::Internal(str_concat(key, " item: not an object"));
                        proof {
                            let w = i as int;
                            assert(0 <= w < items@.len() && !item_ok(items@[w]) && e@ == item_err(
                                items@[w],
                                key@,
                            ) && (forall|j: int| 0 <= j < w ==> item_ok(#[trigger] items@[j])));
                        }
                        return Err(e);
                    },
                }
                i += 1;
            }
        },
        _ => {
            return Err(Error::Internal(str_concat(key, ": not an array")));
        },
    }
    // commit: move the objects out and put the id array in the field's place
    let ghost o0 = parent@;
    let (name, v) = parent.remove_at(idx);
    let mut items = match v {
        Value::Arr(items) => items,
        _ => unreached(),
    };
    let ghost items0 = items@;
    proof {
        assert(field_value(o0, key@).wf());
        assert(forall|j: int| 0 <= j < items0.len() ==> (#[trigger] items0[j]).wf());
    }
    let mut pairs: Vec<(u64, Object)> = Vec::new();
    let mut ids: Vec<Value> = Vec::new();
    #[verifier::loop_isolation(false)]
    while items.len() > 0
        invariant
            pairs@.len() + items@.len() == items0.len(),
            ids@.len() == pairs@.len(),
            items@ =~= items0.subrange(pairs@.len() as int, items0.len() as int),
            forall|j: int|
                0 <= j < pairs@.len() ==> (#[trigger] pairs@[j]).1 == item_obj(items0[j])
                    && pairs@[j].0 == id_of(item_obj(items0[j])) && pairs@[j].1.wf(),
            forall|j: int| 0 <= j < ids@.len() ==> ids@[j] == Value::UInt(pairs@[j].0),
        decreases items@.len(),
    {
        let ghost k = pairs@.len() as int;
        let it = items.remove(0);
        proof {
            assert(it == items0[k]);
            assert(item_ok(items0[k]));
            assert(items@ =~= items0.subrange(k + 1, items0.len() as int));
        }
        let o = match it {
            Value::Obj(o) => o,
            _ => unreached(),
        };
        proof {
            assert(items0[k].wf());
            assert(o.wf());
            assert(fields_unique(o@));
        }
        let id = match extract_id(&o) {
            Ok(id) => id,
            Err(_) => unreached(),
        };
        ids.push(Value::UInt(id));
        pairs.push((id, o));
    }
    let ghost ids_seq = ids@;
    parent.insert_at(idx, name, Value::Arr(ids));
    proof {
        assert(parent@ =~= o0.update(idx as int, (key@, parent@[idx as int].1)));
        assert(parent@ == with_field_set(o0, key@, parent@[idx as int].1));
        lemma_fields_unique_update(o0, idx as int, (key@, parent@[idx as int].1));
        assert(parent@[idx as int].1->Arr_0@ =~= Seq::new(
            items0.len(),
            |i: int| Value::UInt(pairs@[i].0),
        ));
        assert forall|i: int| 0 <= i < parent@.len() implies (#[trigger] parent@[i]).1.wf() by {
            if i != idx as int {
                assert(parent@[i] == o0[i]);
            } else {
                assert(forall|j: int|
                    0 <= j < ids_seq.len() ==> (#[trigger] ids_seq[j]).wf());
            }
        }
        lemma_wf_from_fields(*parent);
    }
    let ghost mid = parent@;
    let kid = str_concat(key, "_ids");
    parent.remove_field(kid.as_str());
    proof {
        assert(parent@ == without_field(mid, key@ + "_ids"@));
        if has_field(mid, key@ + "_ids"@) {
            lemma_values_wf_remove(mid, field_at(mid, key@ + "_ids"@));
        }
        lemma_wf_from_fields(*parent);
        assert(has_field(parent@, key@) && field_value(parent@, key@) == mid[idx as int].1) by {
            assert(fields_unique(mid));
            if has_field(mid, key@ + "_ids"@) {
                let j = field_at(mid, key@ + "_ids"@);
                assert(mid[idx as int].0 == key@);
                reveal_strlit("_ids");
                assert((key@ + "_ids"@).len() == key@.len() + 4);
                assert(j != idx as int);
                if j < idx as int {
                    assert(parent@[idx as int - 1] == mid[idx as int]);
                    lemma_field_at(parent@, key@, idx as int - 1);
                } else {
                    assert(parent@[idx as int] == mid[idx as int]);
                    lemma_field_at(parent@, key@, idx as int);
                }
            } else {
                lemma_field_at(parent@, key@, idx as int);
            }
        }
    }
    Ok(pairs)
}

/// The view of a record after the object pass on field `k`: the embedded
/// object replaced by its id, the redundant id field dropped; unchanged when
/// the field is absent or null.
pub open spec fn obj_pass_view(o: FieldSeq, k: Seq<char>) -> FieldSeq {
    if !has_field(o, k) || field_value(o, k) is Null {
        o
    } else {
        without_field(
            with_field_set(o, k, Value::UInt(id_of(field_value(o, k)->Obj_0))),
            k + "_id"@,
        )
    }
}

/// What the object pass on field `k` takes out of one record.
pub open spec fn obj_extracted(o: Object, k: Seq<char>) -> Option<(u64, Object)> {
    if has_field(o@, k) && field_value(o@, k) is Obj {
        Some((id_of(field_value(o@, k)->Obj_0), field_value(o@, k)->Obj_0))
    } else {
        None
    }
}

/// Destination rows after recording what the object pass takes out of one
/// record, last write winning.
pub open spec fn apply_obj_row(d: RowSeq, o: Object, k: Seq<char>) -> RowSeq {
    match obj_extracted(o, k) {
        Some(p) => with_id_set(d, p.0, p.1),
        None => d,
    }
}

/// The items of the array under `k`, when there is one.
pub open spec fn arr_items(o: Object, k: Seq<char>) -> Seq<Value> {
    if has_field(o@, k) && field_value(o@, k) is Arr {
        field_value(o@, k)->Arr_0@
    } else {
        Seq::<Value>::empty()
    }
}

/// Destination rows after recording each embedded object of `items` in
/// order, last write winning.
pub open spec fn insert_items(d: RowSeq, items: Seq<Value>) -> RowSeq
    decreases items.len(),
{
    if items.len() == 0 {
        d
    } else {
        insert_items(
            with_id_set(d, id_of(item_obj(items[0])), item_obj(items[0])),
            items.drop_first(),
        )
    }
}

/// Destination rows after recording what the array pass takes out of one
/// record.
pub open spec fn apply_arr_row(d: RowSeq, o: Object, k: Seq<char>) -> RowSeq {
    insert_items(d, arr_items(o, k))
}

/// Destination rows after folding `f` over every record of `rows` in order.
pub open spec fn fold_rows(
    rows: RowSeq,
    k: Seq<char>,
    d: RowSeq,
    f: spec_fn(RowSeq, Object, Seq<char>) -> RowSeq,
) -> RowSeq
    decreases rows.len(),
{
    if rows.len() == 0 {
        d
    } else {
        fold_rows(rows.drop_first(), k, f(d, rows[0].1, k), f)
    }
}

/// The fold over one more leading record peels off as one application.
proof fn lemma_fold_rows_snoc(
    rows: RowSeq,
    k: Seq<char>,
    d0: RowSeq,
    f: spec_fn(RowSeq, Object, Seq<char>) -> RowSeq,
    i: int,
)
    requires
        0 <= i < rows.len(),
    ensures
        fold_rows(rows.take(i + 1), k, d0, f) == f(fold_rows(rows.take(i), k, d0, f), rows[i].1, k),
    decreases i,
{
    if i == 0 {
        assert(rows.take(1)[0] == rows[0]);
        assert(rows.take(1).drop_first() =~= rows.take(0));
        assert(fold_rows(rows.take(0), k, d0, f) == d0);
        assert(fold_rows(rows.take(1).drop_first(), k, f(d0, rows[0].1, k), f) == f(
            d0,
            rows[0].1,
            k,
        ));
    } else {
        let d2 = f(d0, rows[0].1, k);
        assert(rows.take(i + 1)[0] == rows[0]);
        assert(rows.take(i)[0] == rows[0]);
        assert(rows.take(i + 1).drop_first() =~= rows.drop_first().take(i));
        assert(rows.take(i).drop_first() =~= rows.drop_first().take(i - 1));
        lemma_fold_rows_snoc(rows.drop_first(), k, d2, f, i - 1);
        assert(rows.drop_first()[i - 1] == rows[i]);
    }
}

/// The object-pass recorder, as a value for the fold.
pub open spec fn obj_row_fn() -> spec_fn(RowSeq, Object, Seq<char>) -> RowSeq {
    |d: RowSeq, o: Object, k: Seq<char>| apply_obj_row(d, o, k)
}

/// The array-pass recorder, as a value for the fold.
pub open spec fn arr_row_fn() -> spec_fn(RowSeq, Object, Seq<char>) -> RowSeq {
    |d: RowSeq, o: Object, k: Seq<char>| apply_arr_row(d, o, k)
}

/// Whether `e` is the failure owed for the first record of `rows` that the
/// object pass on `k` refuses.
pub open spec fn first_row_obj_err(rows: RowSeq, k: Seq<char>, e: ErrorSpec) -> bool {
    exists|i: int|
        {
            &&& 0 <= i < rows.len()
            &&& !obj_extractable((#[trigger] rows[i]).1@, k)
            &&& e == obj_extract_err(rows[i].1@, k)
            &&& forall|j: int| 0 <= j < i ==> obj_extractable((#[trigger] rows[j]).1@, k)
        }
}

/// Whether `e` is the failure owed for the first record of `rows` that the
/// array pass on `k` refuses.
pub open spec fn first_row_arr_err(rows: RowSeq, k: Seq<char>, e: ErrorSpec) -> bool {
    exists|i: int|
        {
            &&& 0 <= i < rows.len()
            &&& !arr_extractable((#[trigger] rows[i]).1@, k)
            &&& arr_extract_err_matches(rows[i].1@, k, e)
            &&& forall|j: int| 0 <= j < i ==> arr_extractable((#[trigger] rows[j]).1@, k)
        }
}

/// One object pass: extracts field `key` of every record in `src` into
/// `dest`, in row order with last write winning, rewriting each record to
/// reference the extracted object by id.
pub fn pass_obj(src: &mut Table, dest: &mut Table, key: &str) -> (r: Result<(), Error>)
    requires
        old(src).wf(),
        old(dest).wf(),
    ensures
        final(src).wf(),
        final(dest).wf(),
        r is Ok <==> (forall|i: int|
            0 <= i < old(src)@.len() ==> obj_extractable((#[trigger] old(src)@[i]).1@, key@)),
        r is Ok ==> {
            &&& final(src)@.len() == old(src)@.len()
            &&& (forall|i: int|
                0 <= i < old(src)@.len() ==> (#[trigger] final(src)@[i]).0 == old(src)@[i].0
                    && final(src)@[i].1@ == obj_pass_view(old(src)@[i].1@, key@))
            &&& final(dest)@ == fold_rows(old(src)@, key@, old(dest)@, obj_row_fn())
        },
        r matches Err(e) ==> first_row_obj_err(old(src)@, key@, e@),
{
    let n = src.len();
    let mut i: usize = 0;
    #[verifier::loop_isolation(false)]
    while i < n
        invariant
            0 <= i <= n,
            src@.len() == n,
            src.wf(),
            dest.wf(),
            forall|j: int| i <= j < n ==> src@[j] == old(src)@[j],
            forall|j: int|
                0 <= j < i ==> (#[trigger] src@[j]).0 == old(src)@[j].0 && src@[j].1@
                    == obj_pass_view(old(src)@[j].1@, key@) && obj_extractable(
                    old(src)@[j].1@,
                    key@,
                ),
            dest@ == fold_rows(old(src)@.take(i as int), key@, old(dest)@, obj_row_fn()),
        decreases n - i,
    {
        let ghost s0 = src@;
        let (id, mut obj) = src.remove_at(i);
        let ghost obj0 = obj;
        match extract_object(&mut obj, key) {
            Err(e) => {
                proof {
                    let w = i as int;
                    assert(old(src)@[w].1 == obj0);
                    assert(!obj_extractable(old(src)@[w].1@, key@));
                    assert(e@ == obj_extract_err(old(src)@[w].1@, key@));
                    assert forall|j: int|
                        0 <= j < w implies obj_extractable(
                        (#[trigger] old(src)@[j]).1@,
                        key@,
                    ) by {
                        assert(src@[j].0 == old(src)@[j].0);
                    }
                    assert(first_row_obj_err(old(src)@, key@, e@));
                }
                src.insert_at(i, id, obj);
                return Err(e);
            },
            Ok(None) => {
                src.insert_at(i, id, obj);
                proof {
                    assert(src@ =~= s0.update(i as int, src@[i as int]));
                    lemma_fold_rows_snoc(old(src)@, key@, old(dest)@, obj_row_fn(), i as int);
                    assert(apply_obj_row(
                        fold_rows(old(src)@.take(i as int), key@, old(dest)@, obj_row_fn()),
                        old(src)@[i as int].1,
                        key@,
                    ) == fold_rows(old(src)@.take(i as int), key@, old(dest)@, obj_row_fn()));
                }
            },
            Ok(Some((eid, eobj))) => {
                src.insert_at(i, id, obj);
                proof {
                    assert(src@ =~= s0.update(i as int, src@[i as int]));
                }
                dest.insert(eid, eobj);
                proof {
                    lemma_fold_rows_snoc(old(src)@, key@, old(dest)@, obj_row_fn(), i as int);
                    assert(obj_extracted(obj0, key@) == Some((eid, eobj)));
                }
            },
        }
        proof {
            assert forall|j: int|
                0 <= j < i + 1 implies (#[trigger] src@[j]).0 == old(src)@[j].0 && src@[j].1@
                == obj_pass_view(old(src)@[j].1@, key@) && obj_extractable(
                old(src)@[j].1@,
                key@,
            ) by {
                if j < i {
                    assert(src@[j] == s0[j]);
                    assert(s0[j].0 == old(src)@[j].0);
                } else {
                    assert(src@[j].0 == old(src)@[j].0);
                    assert(src@[j].1@ == obj_pass_view(old(src)@[j].1@, key@));
                }
            }
        }
        i += 1;
    }
    proof {
        assert(old(src)@.take(n as int) =~= old(src)@);
        assert forall|j: int|
            0 <= j < old(src)@.len() implies obj_extractable(
            (#[trigger] old(src)@[j]).1@,
            key@,
        ) by {
            assert(src@[j].0 == old(src)@[j].0);
        }
    }
    Ok(())
}

/// How the array pass on field `k` rewrites one record's view: the embedded
/// array replaced by the ordered array of its objects' ids, the redundant
/// `<k>_ids` field dropped; unchanged when the field is absent.
pub open spec fn row_arr_rewritten(o: FieldSeq, n: FieldSeq, k: Seq<char>) -> bool {
    if !has_field(o, k) {
        n == o
    } else {
        &&& has_field(n, k)
        &&& field_value(n, k) is Arr
        &&& field_value(n, k)->Arr_0@ == Seq::new(
            field_value(o, k)->Arr_0@.len(),
            |i: int| Value::UInt(id_of(item_obj(field_value(o, k)->Arr_0@[i]))),
        )
        &&& n == without_field(with_field_set(o, k, field_value(n, k)), k + "_ids"@)
    }
}

/// One more leading item peels off the item fold as one insertion.
proof fn lemma_insert_items_snoc(items: Seq<Value>, d0: RowSeq, k: int)
    requires
        0 <= k < items.len(),
    ensures
        insert_items(d0, items.take(k + 1)) == with_id_set(
            insert_items(d0, items.take(k)),
            id_of(item_obj(items[k])),
            item_obj(items[k]),
        ),
    decreases k,
{
    if k == 0 {
        let d1 = with_id_set(d0, id_of(item_obj(items[0])), item_obj(items[0]));
        assert(items.take(1)[0] == items[0]);
        assert(items.take(1).drop_first() =~= items.take(0));
        assert(insert_items(d0, items.take(0)) == d0);
        assert(insert_items(d1, items.take(1).drop_first()) == d1);
        assert(insert_items(d0, items.take(1)) == insert_items(d1, items.take(1).drop_first()));
    } else {
        let d2 = with_id_set(d0, id_of(item_obj(items[0])), item_obj(items[0]));
        assert(items.take(k + 1)[0] == items[0]);
        assert(items.take(k)[0] == items[0]);
        assert(items.take(k + 1).drop_first() =~= items.drop_first().take(k));
        assert(items.take(k).drop_first() =~= items.drop_first().take(k - 1));
        lemma_insert_items_snoc(items.drop_first(), d2, k - 1);
        assert(items.drop_first()[k - 1] == items[k]);
        assert(insert_items(d0, items.take(k + 1)) == insert_items(
            d2,
            items.drop_first().take(k),
        ));
        assert(insert_items(d0, items.take(k)) == insert_items(
            d2,
            items.drop_first().take(k - 1),
        ));
    }
}

/// One array pass: extracts the array under field `key` of every record in
/// `src` into `dest`, in row and array order with last write winning,
/// rewriting each record to reference the extracted objects by their ids.
pub fn pass_arr(src: &mut Table, dest: &mut Table, key: &str) -> (r: Result<(), Error>)
    requires
        old(src).wf(),
        old(dest).wf(),
    ensures
        final(src).wf(),
        final(dest).wf(),
        r is Ok <==> (forall|i: int|
            0 <= i < old(src)@.len() ==> arr_extractable((#[trigger] old(src)@[i]).1@, key@)),
        r is Ok ==> {
            &&& final(src)@.len() == old(src)@.len()
            &&& (forall|i: int|
                0 <= i < old(src)@.len() ==> (#[trigger] final(src)@[i]).0 == old(src)@[i].0
                    && row_arr_rewritten(old(src)@[i].1@, final(src)@[i].1@, key@))
            &&& final(dest)@ == fold_rows(old(src)@, key@, old(dest)@, arr_row_fn())
        },
        r matches Err(e) ==> first_row_arr_err(old(src)@, key@, e@),
{
    let n = src.len();
    let mut i: usize = 0;
    #[verifier::loop_isolation(false)]
    while i < n
        invariant
            0 <= i <= n,
            src@.len() == n,
            src.wf(),
            dest.wf(),
            forall|j: int| i <= j < n ==> src@[j] == old(src)@[j],
            forall|j: int|
                0 <= j < i ==> (#[trigger] src@[j]).0 == old(src)@[j].0 && row_arr_rewritten(
                    old(src)@[j].1@,
                    src@[j].1@,
                    key@,
                ) && arr_extractable(old(src)@[j].1@, key@),
            dest@ == fold_rows(old(src)@.take(i as int), key@, old(dest)@, arr_row_fn()),
        decreases n - i,
    {
        let ghost s0 = src@;
        let ghost d_base = dest@;
        let (id, mut obj) = src.remove_at(i);
        let ghost obj0 = obj;
        match extract_objects(&mut obj, key) {
            Err(e) => {
                proof {
                    let w = i as int;
                    assert(old(src)@[w].1 == obj0);
                    assert(!arr_extractable(old(src)@[w].1@, key@));
                    assert(arr_extract_err_matches(old(src)@[w].1@, key@, e@));
                    assert forall|j: int|
                        0 <= j < w implies arr_extractable(
                        (#[trigger] old(src)@[j]).1@,
                        key@,
                    ) by {
                        assert(src@[j].0 == old(src)@[j].0);
                    }
                    assert(first_row_arr_err(old(src)@, key@, e@));
                }
                src.insert_at(i, id, obj);
                return Err(e);
            },
            Ok(pairs) => {
                src.insert_at(i, id, obj);
                proof {
                    assert(src@ =~= s0.update(i as int, src@[i as int]));
                }
                let ghost items0 = arr_items(obj0, key@);
                proof {
                    if has_field(obj0@, key@) {
                        assert(items0 == field_value(obj0@, key@)->Arr_0@);
                        assert(pairs@.len() == items0.len());
                        assert forall|j: int|
                            0 <= j < pairs@.len() implies (#[trigger] pairs@[j]).0 == id_of(
                            item_obj(items0[j]),
                        ) && pairs@[j].1 == item_obj(items0[j]) && pairs@[j].1.wf() by {}
                    } else {
                        assert(items0 =~= Seq::<Value>::empty());
                        assert(pairs@.len() == 0);
                    }
                }
                let ghost pairs0 = pairs@;
                let np = pairs.len();
                let mut kx: usize = 0;
                let mut ps = pairs;
                #[verifier::loop_isolation(false)]
                while kx < np
                    invariant
                        0 <= kx <= np,
                        np == items0.len(),
                        ps@ =~= pairs0.subrange(kx as int, np as int),
                        dest.wf(),
                        dest@ == insert_items(d_base, items0.take(kx as int)),
                    decreases np - kx,
                {
                    let p = ps.remove(0);
                    proof {
                        assert(p == pairs0[kx as int]);
                        assert(ps@ =~= pairs0.subrange(kx as int + 1, np as int));
                        lemma_insert_items_snoc(items0, d_base, kx as int);
                    }
                    dest.insert(p.0, p.1);
                    kx += 1;
                }
                proof {
                    assert(items0.take(np as int) =~= items0);
                    lemma_fold_rows_snoc(old(src)@, key@, old(dest)@, arr_row_fn(), i as int);
                    assert(apply_arr_row(d_base, obj0, key@) == insert_items(d_base, items0));
                    if has_field(obj0@, key@) {
                        assert(field_value(src@[i as int].1@, key@)->Arr_0@ =~= Seq::new(
                            items0.len(),
                            |j: int| Value::UInt(id_of(item_obj(items0[j]))),
                        ));
                    }
                    assert(row_arr_rewritten(old(src)@[i as int].1@, src@[i as int].1@, key@));
                }
            },
        }
        proof {
            assert forall|j: int|
                0 <= j < i + 1 implies (#[trigger] src@[j]).0 == old(src)@[j].0
                && row_arr_rewritten(old(src)@[j].1@, src@[j].1@, key@) && arr_extractable(
                old(src)@[j].1@,
                key@,
            ) by {
                if j < i {
                    assert(src@[j] == s0[j]);
                    assert(s0[j].0 == old(src)@[j].0);
                }
            }
        }
        i += 1;
    }
    proof {
        assert(old(src)@.take(n as int) =~= old(src)@);
        assert forall|j: int|
            0 <= j < old(src)@.len() implies arr_extractable(
            (#[trigger] old(src)@[j]).1@,
            key@,
        ) by {
            assert(src@[j].0 == old(src)@[j].0);
        }
    }
    Ok(())
}

/// Rows after recording every row of `src2` in order, last write winning.
pub open spec fn insert_rows(d: RowSeq, src2: RowSeq) -> RowSeq
    decreases src2.len(),
{
    if src2.len() == 0 {
        d
    } else {
        insert_rows(with_id_set(d, src2[0].0, src2[0].1), src2.drop_first())
    }
}

/// One more leading row peels off the row fold as one insertion.
proof fn lemma_insert_rows_snoc(src2: RowSeq, d0: RowSeq, k: int)
    requires
        0 <= k < src2.len(),
    ensures
        insert_rows(d0, src2.take(k + 1)) == with_id_set(
            insert_rows(d0, src2.take(k)),
            src2[k].0,
            src2[k].1,
        ),
    decreases k,
{
    if k == 0 {
        let d1 = with_id_set(d0, src2[0].0, src2[0].1);
        assert(src2.take(1)[0] == src2[0]);
        assert(src2.take(1).drop_first() =~= src2.take(0));
        assert(insert_rows(d0, src2.take(0)) == d0);
        assert(insert_rows(d1, src2.take(1).drop_first()) == d1);
        assert(insert_rows(d0, src2.take(1)) == insert_rows(d1, src2.take(1).drop_first()));
    } else {
        let d2 = with_id_set(d0, src2[0].0, src2[0].1);
        assert(src2.take(k + 1)[0] == src2[0]);
        assert(src2.take(k)[0] == src2[0]);
        assert(src2.take(k + 1).drop_first() =~= src2.drop_first().take(k));
        assert(src2.take(k).drop_first() =~= src2.drop_first().take(k - 1));
        lemma_insert_rows_snoc(src2.drop_first(), d2, k - 1);
        assert(src2.drop_first()[k - 1] == src2[k]);
        assert(insert_rows(d0, src2.take(k + 1)) == insert_rows(
            d2,
            src2.drop_first().take(k),
        ));
        assert(insert_rows(d0, src2.take(k)) == insert_rows(
            d2,
            src2.drop_first().take(k - 1),
        ));
    }
}

/// The self-referential array pass: extracts the array under `key` of every
/// record into the same table. The extracted records are collected first and
/// merged afterwards, never embedded back, so cycles cannot arise.
pub fn pass_arr_self(table: &mut Table, key: &str) -> (r: Result<(), Error>)
    requires
        old(table).wf(),
    ensures
        final(table).wf(),
        r is Ok <==> (forall|i: int|
            0 <= i < old(table)@.len() ==> arr_extractable((#[trigger] old(table)@[i]).1@, key@)),
        r is Ok ==> (exists|mid: RowSeq|
            #[trigger] arr_self_via(old(table)@, mid, final(table)@, key@)),
        r matches Err(e) ==> first_row_arr_err(old(table)@, key@, e@),
{
    let mut collected = Table::new();
    match pass_arr(table, &mut collected, key) {
        Err(e) => {
            return Err(e);
        },
        Ok(()) => {},
    }
    let ghost mid0 = table@;
    let ghost coll0 = collected@;
    let nc = collected.len();
    let mut k: usize = 0;
    #[verifier::loop_isolation(false)]
    while k < nc
        invariant
            0 <= k <= nc,
            collected@ =~= coll0.subrange(k as int, nc as int),
            collected.wf(),
            table.wf(),
            table@ == insert_rows(mid0, coll0.take(k as int)),
        decreases nc - k,
    {
        let (id, obj) = collected.remove_at(0);
        proof {
            assert((id, obj) == coll0[k as int]);
            assert(collected@ =~= coll0.subrange(k as int + 1, nc as int));
            assert(coll0[k as int].1.wf());
            lemma_insert_rows_snoc(coll0, mid0, k as int);
        }
        table.insert(id, obj);
        k += 1;
    }
    proof {
        assert(coll0.take(nc as int) =~= coll0);
        assert(arr_self_via(old(table)@, mid0, table@, key@));
    }
    Ok(())
}

/// Records a batch of extracted rows in `dest`, in order, last write
/// winning.
fn insert_pairs_into(dest: &mut Table, pairs: Vec<(u64, Object)>) 
    requires
        old(dest).wf(),
        forall|i: int| 0 <= i < pairs@.len() ==> (#[trigger] pairs@[i]).1.wf(),
    ensures
        final(dest).wf(),
        final(dest)@ == insert_rows(old(dest)@, pairs@),
{
    let ghost d0 = dest@;
    let ghost pairs0 = pairs@;
    let n = pairs.len();
    let mut ps = pairs;
    let mut k: usize = 0;
    #[verifier::loop_isolation(false)]
    while k < n
        invariant
            0 <= k <= n,
            ps@ =~= pairs0.subrange(k as int, n as int),
            dest.wf(),
            dest@ == insert_rows(d0, pairs0.take(k as int)),
        decreases n - k,
    {
        let (id, obj) = ps.remove(0);
        proof {
            assert((id, obj) == pairs0[k as int]);
            assert(ps@ =~= pairs0.subrange(k as int + 1, n as int));
            lemma_insert_rows_snoc(pairs0, d0, k as int);
        }
        dest.insert(id, obj);
        k += 1;
    }
    proof {
        assert(pairs0.take(n as int) =~= pairs0);
    }
}

/// Rewrites one annotation: its controlled attribute and controlled value
/// are moved to the controlled-terms table, each with its own embedded value
/// list moved there first, and both fields are replaced by ids.
/// The object pass on field `k` keeps every field other than `k` and the
/// redundant `<k>_id` beside it, and keeps names distinct.
proof fn lemma_obj_pass_frame(o: FieldSeq, k: Seq<char>, k2: Seq<char>)
    requires
        fields_unique(o),
        k2 != k,
        k2 != k + "_id"@,
    ensures
        fields_unique(obj_pass_view(o, k)),
        has_field(obj_pass_view(o, k), k2) == has_field(o, k2),
        has_field(o, k2) ==> field_value(obj_pass_view(o, k), k2) == field_value(o, k2),
{
    if !has_field(o, k) || field_value(o, k) is Null {
    } else {
        let i = field_at(o, k);
        let v = Value::UInt(id_of(field_value(o, k)->Obj_0));
        let mid = o.update(i, (k, v));
        lemma_fields_unique_update(o, i, (k, v));
        assert(has_field(mid, k2) == has_field(o, k2)) by {
            if has_field(mid, k2) {
                let j = field_at(mid, k2);
                assert(mid[j].0 == k2);
                assert(j != i);
                assert(mid[j] == o[j]);
            }
            if has_field(o, k2) {
                let j = field_at(o, k2);
                assert(o[j].0 == k2);
                assert(j != i);
                assert(mid[j] == o[j]);
            }
        }
        if has_field(o, k2) {
            let j = field_at(o, k2);
            lemma_field_at(o, k2, j);
            assert(mid[j] == o[j]);
            lemma_field_at(mid, k2, j);
        }
        let kid = k + "_id"@;
        if has_field(mid, kid) {
            let jr = field_at(mid, kid);
            assert(mid[jr].0 == kid);
            let fin = mid.remove(jr);
            crate::value::lemma_fields_unique_remove(mid, jr);
            assert(has_field(fin, k2) == has_field(mid, k2)) by {
                if has_field(fin, k2) {
                    let j2 = field_at(fin, k2);
                    assert(fin[j2].0 == k2);
                    if j2 < jr {
                        assert(fin[j2] == mid[j2]);
                    } else {
                        assert(fin[j2] == mid[j2 + 1]);
                    }
                }
                if has_field(mid, k2) {
                    let j2 = field_at(mid, k2);
                    lemma_field_at(mid, k2, j2);
                    assert(j2 != jr);
                    if j2 < jr {
                        assert(fin[j2] == mid[j2]);
                        assert(has_field(fin, k2));
                    } else {
                        assert(fin[j2 - 1] == mid[j2]);
                        assert(has_field(fin, k2));
                    }
                }
            }
            if has_field(mid, k2) {
                let j2 = field_at(mid, k2);
                lemma_field_at(mid, k2, j2);
                assert(j2 != jr);
                if j2 < jr {
                    assert(fin[j2] == mid[j2]);
                    lemma_field_at(fin, k2, j2);
                } else {
                    assert(fin[j2 - 1] == mid[j2]);
                    lemma_field_at(fin, k2, j2 - 1);
                }
            }
        }
    }
}

/// Whether one controlled-term field of an annotation can be extracted: the
/// field is absent, null, or an embedded object with a numeric id whose
/// embedded value list, if any, is itself extractable.
pub open spec fn term_ok(a: FieldSeq, k: Seq<char>) -> bool {
    &&& obj_extractable(a, k)
    &&& ((has_field(a, k) && field_value(a, k) is Obj) ==> arr_extractable(
        field_value(a, k)->Obj_0@,
        "values"@,
    ))
}

/// Whether the annotations pass accepts one annotation: both controlled
/// terms extractable, value lists included.
pub open spec fn ann_ok(a: FieldSeq) -> bool {
    term_ok(a, "controlled_attribute"@) && term_ok(a, "controlled_value"@)
}

/// What one controlled-term field of annotation `a` contributes to the
/// controlled-terms rows: nothing when the field holds no object; otherwise
/// the term's embedded values in order, then the term itself with its value
/// list replaced by ids, last write winning.
pub open spec fn ct_after_term(d: RowSeq, a: FieldSeq, k: Seq<char>, d2: RowSeq) -> bool {
    if !has_field(a, k) || !(field_value(a, k) is Obj) {
        d2 == d
    } else {
        let term = field_value(a, k)->Obj_0;
        exists|t2: Object|
            {
                &&& t2.wf()
                &&& row_arr_rewritten(term@, t2@, "values"@)
                &&& d2 == with_id_set(insert_items(d, arr_items(term, "values"@)), id_of(term), t2)
            }
    }
}

/// What one annotation contributes to the controlled-terms rows: first its
/// controlled attribute, then its controlled value.
pub open spec fn ct_after_ann(d: RowSeq, a: FieldSeq, d2: RowSeq) -> bool {
    exists|mid: RowSeq|
        #[trigger] ct_after_term(d, a, "controlled_attribute"@, mid) && ct_after_term(
            mid,
            a,
            "controlled_value"@,
            d2,
        )
}

/// Row insertions over rows matching item-for-item insertions over the
/// embedded objects they came from.
proof fn lemma_insert_rows_as_items(d: RowSeq, pairs: Seq<(u64, Object)>, items: Seq<Value>)
    requires
        pairs.len() == items.len(),
        forall|i: int|
            0 <= i < items.len() ==> (#[trigger] pairs[i]) == (
                id_of(item_obj(items[i])),
                item_obj(items[i]),
            ),
    ensures
        insert_rows(d, pairs) == insert_items(d, items),
    decreases items.len(),
{
    if items.len() > 0 {
        assert(pairs[0] == (id_of(item_obj(items[0])), item_obj(items[0])));
        let d2 = with_id_set(d, pairs[0].0, pairs[0].1);
        assert forall|i: int|
            0 <= i < items.drop_first().len() implies (#[trigger] pairs.drop_first()[i]) == (
            id_of(item_obj(items.drop_first()[i])),
            item_obj(items.drop_first()[i]),
        ) by {
            assert(pairs.drop_first()[i] == pairs[i + 1]);
            assert(items.drop_first()[i] == items[i + 1]);
        }
        lemma_insert_rows_as_items(d2, pairs.drop_first(), items.drop_first());
    }
}

fn rewrite_annotation(ann: &mut Object, dest: &mut Table) -> (r: Result<(), Error>)
    requires
        old(ann).wf(),
        old(dest).wf(),
    ensures
        final(ann).wf(),
        final(dest).wf(),
        r is Ok <==> ann_ok(old(ann)@),
        r is Ok ==> final(ann)@ == obj_pass_view(
            obj_pass_view(old(ann)@, "controlled_attribute"@),
            "controlled_value"@,
        ),
        r is Ok ==> ct_after_ann(old(dest)@, old(ann)@, final(dest)@),
{
    let ghost a0 = ann@;
    let ghost d0 = dest@;
    proof {
        reveal_strlit("controlled_attribute");
        reveal_strlit("controlled_attribute_id");
        reveal_strlit("controlled_value");
        reveal_strlit("_id");
        assert(("controlled_attribute"@ + "_id"@).len() == 23);
        assert("controlled_value"@ != "controlled_attribute"@);
        assert("controlled_value"@ != "controlled_attribute"@ + "_id"@);
    }
    match extract_object(ann, "controlled_attribute") {
        Err(e) => {
            return Err(e);
        },
        Ok(None) => {
            proof {
                assert(ct_after_term(d0, a0, "controlled_attribute"@, dest@));
            }
        },
        Ok(Some((id, mut term))) => {
            let ghost term0 = term;
            let pairs = match extract_objects(&mut term, "values") {
                Err(e) => {
                    return Err(e);
                },
                Ok(p) => p,
            };
            let ghost dmid = dest@;
            insert_pairs_into(dest, pairs);
            proof {
                if has_field(term0@, "values"@) {
                    lemma_insert_rows_as_items(dmid, pairs@, arr_items(term0, "values"@));
                    assert(field_value(term@, "values"@)->Arr_0@ =~= Seq::new(
                        arr_items(term0, "values"@).len(),
                        |j: int| Value::UInt(id_of(item_obj(arr_items(term0, "values"@)[j]))),
                    ));
                } else {
                    assert(arr_items(term0, "values"@) =~= Seq::<Value>::empty());
                    assert(pairs@ =~= Seq::<(u64, Object)>::empty());
                    assert(insert_items(dmid, arr_items(term0, "values"@)) == dmid);
                }
                assert(row_arr_rewritten(term0@, term@, "values"@));
                assert(dest@ == insert_items(d0, arr_items(term0, "values"@)));
            }
            dest.insert(id, term);
            proof {
                assert(ct_after_term(d0, a0, "controlled_attribute"@, dest@));
            }
        },
    }
    let ghost a1 = ann@;
    let ghost d1 = dest@;
    proof {
        assert(a1 == obj_pass_view(a0, "controlled_attribute"@));
        lemma_obj_pass_frame(a0, "controlled_attribute"@, "controlled_value"@);
    }
    match extract_object(ann, "controlled_value") {
        Err(e) => {
            proof {
                assert(!obj_extractable(a1, "controlled_value"@) || {
                    &&& has_field(a1, "controlled_value"@)
                    &&& field_value(a1, "controlled_value"@) is Obj
                });
            }
            return Err(e);
        },
        Ok(None) => {
            proof {
                assert(ct_after_term(d1, a0, "controlled_value"@, dest@));
            }
        },
        Ok(Some((id, mut term))) => {
            let ghost term0 = term;
            proof {
                assert(field_value(a1, "controlled_value"@) == Value::Obj(term0));
                assert(field_value(a0, "controlled_value"@) == Value::Obj(term0));
            }
            let pairs = match extract_objects(&mut term, "values") {
                Err(e) => {
                    return Err(e);
                },
                Ok(p) => p,
            };
            let ghost dmid = dest@;
            insert_pairs_into(dest, pairs);
            proof {
                if has_field(term0@, "values"@) {
                    lemma_insert_rows_as_items(dmid, pairs@, arr_items(term0, "values"@));
                    assert(field_value(term@, "values"@)->Arr_0@ =~= Seq::new(
                        arr_items(term0, "values"@).len(),
                        |j: int| Value::UInt(id_of(item_obj(arr_items(term0, "values"@)[j]))),
                    ));
                } else {
                    assert(arr_items(term0, "values"@) =~= Seq::<Value>::empty());
                    assert(pairs@ =~= Seq::<(u64, Object)>::empty());
                    assert(insert_items(dmid, arr_items(term0, "values"@)) == dmid);
                }
                assert(row_arr_rewritten(term0@, term@, "values"@));
                assert(dest@ == insert_items(d1, arr_items(term0, "values"@)));
            }
            dest.insert(id, term);
            proof {
                assert(ct_after_term(d1, a0, "controlled_value"@, dest@));
            }
        },
    }
    proof {
        assert(ct_after_ann(d0, a0, dest@));
        assert(ann_ok(a0));
    }
    Ok(())
}

/// The view of one annotation after both of its controlled terms have been
/// moved out and replaced by their ids.
pub open spec fn annotation_view(a: FieldSeq) -> FieldSeq {
    obj_pass_view(obj_pass_view(a, "controlled_attribute"@), "controlled_value"@)
}

/// How the annotations pass rewrites one record's view: every annotation in
/// the embedded list keeps its place and has its controlled terms replaced by
/// ids; a record without the list is untouched.
pub open spec fn annotations_rewritten(o: FieldSeq, n: FieldSeq) -> bool {
    if !has_field(o, "annotations"@) {
        n == o
    } else {
        &&& field_value(o, "annotations"@) is Arr
        &&& field_value(n, "annotations"@) is Arr
        &&& {
            let before = field_value(o, "annotations"@)->Arr_0@;
            let after = field_value(n, "annotations"@)->Arr_0@;
            &&& after.len() == before.len()
            &&& (forall|i: int|
                0 <= i < before.len() ==> (#[trigger] before[i]) is Obj && after[i] is Obj
                    && after[i]->Obj_0@ == annotation_view(before[i]->Obj_0@))
        }
        &&& n == with_field_set(o, "annotations"@, field_value(n, "annotations"@))
    }
}

/// Whether the annotations pass accepts one record: no annotation list, or
/// an array of annotation objects each with extractable controlled terms.
pub open spec fn obs_anns_ok(o: FieldSeq) -> bool {
    ||| !has_field(o, "annotations"@)
    ||| (field_value(o, "annotations"@) is Arr && (forall|i: int|
        0 <= i < field_value(o, "annotations"@)->Arr_0@.len() ==> (#[trigger] field_value(
            o,
            "annotations"@,
        )->Arr_0@[i]) is Obj && ann_ok(field_value(o, "annotations"@)->Arr_0@[i]->Obj_0@)))
}

/// What a list of annotations contributes to the controlled-terms rows, in
/// order.
pub open spec fn ct_after_ann_list(d: RowSeq, items: Seq<Value>, d2: RowSeq) -> bool
    decreases items.len(),
{
    if items.len() == 0 {
        d2 == d
    } else {
        exists|mid: RowSeq|
            #[trigger] ct_after_ann(d, items[0]->Obj_0@, mid) && ct_after_ann_list(
                mid,
                items.drop_first(),
                d2,
            )
    }
}

/// What one record contributes to the controlled-terms rows: its annotation
/// list's contributions, or nothing when it has none.
pub open spec fn ct_after_record(d: RowSeq, o: FieldSeq, d2: RowSeq) -> bool {
    if !has_field(o, "annotations"@) {
        d2 == d
    } else {
        ct_after_ann_list(d, field_value(o, "annotations"@)->Arr_0@, d2)
    }
}

/// One more leading annotation peels off the list contribution as one step.
proof fn lemma_ann_list_snoc(d0: RowSeq, items: Seq<Value>, k: int, cur: RowSeq, next: RowSeq)
    requires
        0 <= k < items.len(),
        ct_after_ann_list(d0, items.take(k), cur),
        ct_after_ann(cur, items[k]->Obj_0@, next),
    ensures
        ct_after_ann_list(d0, items.take(k + 1), next),
    decreases k,
{
    if k == 0 {
        assert(items.take(0).len() == 0);
        assert(cur == d0);
        assert(items.take(1)[0] == items[0]);
        assert(items.take(1).drop_first() =~= items.take(0));
        assert(ct_after_ann_list(next, items.take(1).drop_first(), next));
        assert(ct_after_ann_list(d0, items.take(1), next));
    } else {
        assert(items.take(k)[0] == items[0]);
        assert(items.take(k + 1)[0] == items[0]);
        let mid = choose|m: RowSeq|
            #[trigger] ct_after_ann(d0, items.take(k)[0]->Obj_0@, m) && ct_after_ann_list(
                m,
                items.take(k).drop_first(),
                cur,
            );
        assert(items.take(k).drop_first() =~= items.drop_first().take(k - 1));
        assert(items.drop_first()[k - 1] == items[k]);
        lemma_ann_list_snoc(mid, items.drop_first(), k - 1, cur, next);
        assert(items.take(k + 1).drop_first() =~= items.drop_first().take(k));
        assert(ct_after_ann(d0, items.take(k + 1)[0]->Obj_0@, mid) && ct_after_ann_list(
            mid,
            items.take(k + 1).drop_first(),
            next,
        ));
        assert(ct_after_ann_list(d0, items.take(k + 1), next));
    }
}

/// Rewrites the annotation list embedded in one observation, feeding the
/// controlled-terms table. An observation without annotations is untouched.
fn rewrite_observation_annotations(obs: &mut Object, dest: &mut Table) -> (r: Result<(), Error>)
    requires
        old(obs).wf(),
        old(dest).wf(),
    ensures
        final(obs).wf(),
        final(dest).wf(),
        r is Ok <==> obs_anns_ok(old(obs)@),
        r is Ok ==> annotations_rewritten(old(obs)@, final(obs)@),
        r is Ok ==> ct_after_record(old(dest)@, old(obs)@, final(dest)@),
        !has_field(old(obs)@, "annotations"@) ==> final(obs)@ == old(obs)@ && final(dest)@ == old(
            dest,
        )@,
{
    let idx = match obs.index_of("annotations") {
        None => {
            return Ok(());
        },
        Some(i) => i,
    };
    proof {
        lemma_wf_fields(*obs);
        lemma_field_at(obs@, "annotations"@, idx as int);
    }
    let ghost o0 = obs@;
    let (name, v) = obs.remove_at(idx);
    proof {
        crate::value::lemma_fields_unique_remove(o0, idx as int);
        lemma_values_wf_remove(o0, idx as int);
        lemma_wf_from_fields(*obs);
    }
    let mut items = match v {
        Value::Arr(items) => items,
        _ => {
            proof {
                assert(!obs_anns_ok(o0));
            }
            return Err(Error::Internal("annotations: not an array".to_owned()));
        },
    };
    proof {
        assert(o0[idx as int].1.wf());
        assert(forall|j: int| 0 <= j < items@.len() ==> (#[trigger] items@[j]).wf());
    }
    let ghost items0 = items@;
    let ghost d_base = dest@;
    let mut out: Vec<Value> = Vec::new();
    #[verifier::loop_isolation(false)]
    while items.len() > 0
        invariant
            out@.len() + items@.len() == items0.len(),
            items@ =~= items0.subrange(out@.len() as int, items0.len() as int),
            dest.wf(),
            obs.wf(),
            forall|j: int| 0 <= j < out@.len() ==> (#[trigger] out@[j]).wf(),
            forall|j: int|
                0 <= j < out@.len() ==> (#[trigger] items0[j]) is Obj && out@[j] is Obj
                    && out@[j]->Obj_0@ == annotation_view(items0[j]->Obj_0@) && ann_ok(
                    items0[j]->Obj_0@,
                ),
            ct_after_ann_list(d_base, items0.take(out@.len() as int), dest@),
        decreases items@.len(),
    {
        let ghost k = out@.len() as int;
        let ghost d_cur = dest@;
        let it = items.remove(0);
        proof {
            assert(it == items0[k]);
            assert(items0[k].wf());
            assert(items@ =~= items0.subrange(k + 1, items0.len() as int));
        }
        let mut a = match it {
            Value::Obj(a) => a,
            _ => {
                proof {
                    assert(!obs_anns_ok(o0));
                }
                return Err(Error::Internal("annotations item: not an object".to_owned()));
            },
        };
        let ghost a_before = a;
        match rewrite_annotation(&mut a, dest) {
            Err(e) => {
                proof {
                    assert(!ann_ok(items0[k]->Obj_0@));
                    assert(!obs_anns_ok(o0));
                }
                return Err(e);
            },
            Ok(()) => {},
        }
        proof {
            lemma_ann_list_snoc(d_base, items0, k, d_cur, dest@);
        }
        out.push(Value::Obj(a));
    }
    proof {
        assert(items0.take(out@.len() as int) =~= items0);
    }
    obs.insert_at(idx, name, Value::Arr(out));
    proof {
        assert(obs@ =~= o0.update(idx as int, (("annotations"@), obs@[idx as int].1)));
        lemma_fields_unique_update(o0, idx as int, (("annotations"@), obs@[idx as int].1));
        assert forall|i: int| 0 <= i < obs@.len() implies (#[trigger] obs@[i]).1.wf() by {
            if i != idx as int {
                assert(obs@[i] == o0[i]);
            }
        }
        lemma_wf_from_fields(*obs);
        assert(obs@ == with_field_set(o0, "annotations"@, obs@[idx as int].1));
        lemma_field_at(obs@, "annotations"@, idx as int);
        assert(annotations_rewritten(o0, obs@));
        assert(obs_anns_ok(o0));
        assert(ct_after_record(d_base, o0, dest@));
    }
    Ok(())
}

/// What a run of records contributes to the controlled-terms rows, in row
/// order.
pub open spec fn ct_after_rows(d: RowSeq, rows: RowSeq, d2: RowSeq) -> bool
    decreases rows.len(),
{
    if rows.len() == 0 {
        d2 == d
    } else {
        exists|mid: RowSeq|
            #[trigger] ct_after_record(d, rows[0].1@, mid) && ct_after_rows(
                mid,
                rows.drop_first(),
                d2,
            )
    }
}

/// One more leading record peels off the row contribution as one step.
proof fn lemma_ct_rows_snoc(d0: RowSeq, rows: RowSeq, k: int, cur: RowSeq, next: RowSeq)
    requires
        0 <= k < rows.len(),
        ct_after_rows(d0, rows.take(k), cur),
        ct_after_record(cur, rows[k].1@, next),
    ensures
        ct_after_rows(d0, rows.take(k + 1), next),
    decreases k,
{
    if k == 0 {
        assert(rows.take(0).len() == 0);
        assert(cur == d0);
        assert(rows.take(1)[0] == rows[0]);
        assert(rows.take(1).drop_first() =~= rows.take(0));
        assert(ct_after_rows(next, rows.take(1).drop_first(), next));
        assert(ct_after_rows(d0, rows.take(1), next));
    } else {
        assert(rows.take(k)[0] == rows[0]);
        assert(rows.take(k + 1)[0] == rows[0]);
        let mid = choose|m: RowSeq|
            #[trigger] ct_after_record(d0, rows.take(k)[0].1@, m) && ct_after_rows(
                m,
                rows.take(k).drop_first(),
                cur,
            );
        assert(rows.take(k).drop_first() =~= rows.drop_first().take(k - 1));
        assert(rows.drop_first()[k - 1] == rows[k]);
        lemma_ct_rows_snoc(mid, rows.drop_first(), k - 1, cur, next);
        assert(rows.take(k + 1).drop_first() =~= rows.drop_first().take(k));
        assert(ct_after_record(d0, rows.take(k + 1)[0].1@, mid) && ct_after_rows(
            mid,
            rows.take(k + 1).drop_first(),
            next,
        ));
        assert(ct_after_rows(d0, rows.take(k + 1), next));
    }
}

/// The annotations pass: rewrites every observation's embedded annotation
/// list in place, feeding the controlled-terms table in row order;
/// observations without annotations are untouched, and every row keeps its
/// id and place.
pub fn pass_annotations(src: &mut Table, dest: &mut Table) -> (r: Result<(), Error>)
    requires
        old(src).wf(),
        old(dest).wf(),
    ensures
        final(src).wf(),
        final(dest).wf(),
        r is Ok <==> (forall|i: int|
            0 <= i < old(src)@.len() ==> obs_anns_ok((#[trigger] old(src)@[i]).1@)),
        r is Ok ==> {
            &&& final(src)@.len() == old(src)@.len()
            &&& (forall|i: int|
                0 <= i < old(src)@.len() ==> (#[trigger] final(src)@[i]).0 == old(src)@[i].0
                    && annotations_rewritten(old(src)@[i].1@, final(src)@[i].1@))
            &&& ct_after_rows(old(dest)@, old(src)@, final(dest)@)
        },
{
    let n = src.len();
    let mut i: usize = 0;
    #[verifier::loop_isolation(false)]
    while i < n
        invariant
            0 <= i <= n,
            src@.len() == n,
            src.wf(),
            dest.wf(),
            forall|j: int| i <= j < n ==> src@[j] == old(src)@[j],
            forall|j: int|
                0 <= j < i ==> (#[trigger] src@[j]).0 == old(src)@[j].0 && annotations_rewritten(
                    old(src)@[j].1@,
                    src@[j].1@,
                ) && obs_anns_ok(old(src)@[j].1@),
            ct_after_rows(old(dest)@, old(src)@.take(i as int), dest@),
        decreases n - i,
    {
        let ghost s0 = src@;
        let ghost d_cur = dest@;
        let (oid, mut obs) = src.remove_at(i);
        match rewrite_observation_annotations(&mut obs, dest) {
            Err(e) => {
                proof {
                    assert(!obs_anns_ok(old(src)@[i as int].1@));
                }
                return Err(e);
            },
            Ok(()) => {},
        }
        src.insert_at(i, oid, obs);
        proof {
            assert(src@ =~= s0.update(i as int, src@[i as int]));
            lemma_ct_rows_snoc(old(dest)@, old(src)@, i as int, d_cur, dest@);
            assert forall|j: int|
                0 <= j < i + 1 implies (#[trigger] src@[j]).0 == old(src)@[j].0
                && annotations_rewritten(old(src)@[j].1@, src@[j].1@) && obs_anns_ok(
                old(src)@[j].1@,
            ) by {
                if j < i {
                    assert(src@[j] == s0[j]);
                    assert(s0[j].0 == old(src)@[j].0);
                }
            }
        }
        i += 1;
    }
    proof {
        assert(old(src)@.take(n as int) =~= old(src)@);
        assert forall|j: int|
            0 <= j < old(src)@.len() implies obs_anns_ok((#[trigger] old(src)@[j]).1@) by {
            assert(src@[j].0 == old(src)@[j].0);
        }
    }
    Ok(())
}

/// The per-kind tables of one normalization run, created empty, populated by
/// the pipeline, flushed by the caller, and discarded.
pub struct AllTables {
    pub applications: Table,
    pub comments: Table,
    pub conservation_statuses: Table,
    pub controlled_term_labels: Table,
    pub controlled_terms: Table,
    pub faves: Table,
    pub flags: Table,
    pub identifications: Table,
    pub observation_field_values: Table,
    pub observation_fields: Table,
    pub observation_photos: Table,
    pub observations: Table,
    pub photos: Table,
    pub project_admins: Table,
    pub project_observations: Table,
    pub projects: Table,
    pub quality_metrics: Table,
    pub taxa: Table,
    pub taxon_changes: Table,
    pub users: Table,
    pub votes: Table,
}

impl AllTables {
    /// Every table well-formed.
    pub open spec fn wf(self) -> bool {
        &&& self.applications.wf()
        &&& self.comments.wf()
        &&& self.conservation_statuses.wf()
        &&& self.controlled_term_labels.wf()
        &&& self.controlled_terms.wf()
        &&& self.faves.wf()
        &&& self.flags.wf()
        &&& self.identifications.wf()
        &&& self.observation_field_values.wf()
        &&& self.observation_fields.wf()
        &&& self.observation_photos.wf()
        &&& self.observations.wf()
        &&& self.photos.wf()
        &&& self.project_admins.wf()
        &&& self.project_observations.wf()
        &&& self.projects.wf()
        &&& self.quality_metrics.wf()
        &&& self.taxa.wf()
        &&& self.taxon_changes.wf()
        &&& self.users.wf()
        &&& self.votes.wf()
    }

    /// All tables empty.
    pub fn new() -> (r: AllTables)
        ensures
            r.wf(),
            r.applications@.len() == 0,
            r.comments@.len() == 0,
            r.conservation_statuses@.len() == 0,
            r.controlled_term_labels@.len() == 0,
            r.controlled_terms@.len() == 0,
            r.faves@.len() == 0,
            r.flags@.len() == 0,
            r.identifications@.len() == 0,
            r.observation_field_values@.len() == 0,
            r.observation_fields@.len() == 0,
            r.observation_photos@.len() == 0,
            r.observations@.len() == 0,
            r.photos@.len() == 0,
            r.project_admins@.len() == 0,
            r.project_observations@.len() == 0,
            r.projects@.len() == 0,
            r.quality_metrics@.len() == 0,
            r.taxa@.len() == 0,
            r.taxon_changes@.len() == 0,
            r.users@.len() == 0,
            r.votes@.len() == 0,
    {
        AllTables {
            applications: Table::new(),
            comments: Table::new(),
            conservation_statuses: Table::new(),
            controlled_term_labels: Table::new(),
            controlled_terms: Table::new(),
            faves: Table::new(),
            flags: Table::new(),
            identifications: Table::new(),
            observation_field_values: Table::new(),
            observation_fields: Table::new(),
            observation_photos: Table::new(),
            observations: Table::new(),
            photos: Table::new(),
            project_admins: Table::new(),
            project_observations: Table::new(),
            projects: Table::new(),
            quality_metrics: Table::new(),
            taxa: Table::new(),
            taxon_changes: Table::new(),
            users: Table::new(),
            votes: Table::new(),
        }
    }
}


/// A table selector, one per entity kind.
#[derive(PartialEq, Eq, Structural)]
pub enum TableKind {
    Applications,
    Comments,
    ConservationStatuses,
    ControlledTermLabels,
    ControlledTerms,
    Faves,
    Flags,
    Identifications,
    ObservationFieldValues,
    ObservationFields,
    ObservationPhotos,
    Observations,
    Photos,
    ProjectAdmins,
    ProjectObservations,
    Projects,
    QualityMetrics,
    Taxa,
    TaxonChanges,
    Users,
    Votes,
}

/// The rows of the selected table.
pub open spec fn table_of(t: AllTables, k: TableKind) -> RowSeq {
    match k {
        TableKind::Applications => t.applications@,
        TableKind::Comments => t.comments@,
        TableKind::ConservationStatuses => t.conservation_statuses@,
        TableKind::ControlledTermLabels => t.controlled_term_labels@,
        TableKind::ControlledTerms => t.controlled_terms@,
        TableKind::Faves => t.faves@,
        TableKind::Flags => t.flags@,
        TableKind::Identifications => t.identifications@,
        TableKind::ObservationFieldValues => t.observation_field_values@,
        TableKind::ObservationFields => t.observation_fields@,
        TableKind::ObservationPhotos => t.observation_photos@,
        TableKind::Observations => t.observations@,
        TableKind::Photos => t.photos@,
        TableKind::ProjectAdmins => t.project_admins@,
        TableKind::ProjectObservations => t.project_observations@,
        TableKind::Projects => t.projects@,
        TableKind::QualityMetrics => t.quality_metrics@,
        TableKind::Taxa => t.taxa@,
        TableKind::TaxonChanges => t.taxon_changes@,
        TableKind::Users => t.users@,
        TableKind::Votes => t.votes@,
    }
}

/// How the object pass on field `f` rewrites a table's rows: ids and places
/// kept, each record's field replaced by the extracted object's id.
pub open spec fn rows_obj_pass(before: RowSeq, after: RowSeq, f: Seq<char>) -> bool {
    &&& after.len() == before.len()
    &&& (forall|i: int|
        0 <= i < before.len() ==> (#[trigger] after[i]).0 == before[i].0 && after[i].1@
            == obj_pass_view(before[i].1@, f))
}

/// How the array pass on field `f` rewrites a table's rows.
pub open spec fn rows_arr_pass(before: RowSeq, after: RowSeq, f: Seq<char>) -> bool {
    &&& after.len() == before.len()
    &&& (forall|i: int|
        0 <= i < before.len() ==> (#[trigger] after[i]).0 == before[i].0 && row_arr_rewritten(
            before[i].1@,
            after[i].1@,
            f,
        ))
}

/// How the annotations pass rewrites the observation rows.
pub open spec fn rows_ann_pass(before: RowSeq, after: RowSeq) -> bool {
    &&& after.len() == before.len()
    &&& (forall|i: int|
        0 <= i < before.len() ==> (#[trigger] after[i]).0 == before[i].0 && annotations_rewritten(
            before[i].1@,
            after[i].1@,
        ))
}

/// Every table other than the two a pass touches is untouched by it.
pub open spec fn unchanged_except(a: AllTables, b: AllTables, k1: TableKind, k2: TableKind) -> bool {
    forall|k: TableKind| k != k1 && k != k2 ==> #[trigger] table_of(b, k) == table_of(a, k)
}

/// One object pass as a relation between whole table sets.
pub open spec fn step_obj(
    a: AllTables,
    b: AllTables,
    src: TableKind,
    dest: TableKind,
    f: Seq<char>,
) -> bool {
    &&& rows_obj_pass(table_of(a, src), table_of(b, src), f)
    &&& table_of(b, dest) == fold_rows(table_of(a, src), f, table_of(a, dest), obj_row_fn())
    &&& unchanged_except(a, b, src, dest)
}

/// One array pass as a relation between whole table sets.
pub open spec fn step_arr(
    a: AllTables,
    b: AllTables,
    src: TableKind,
    dest: TableKind,
    f: Seq<char>,
) -> bool {
    &&& rows_arr_pass(table_of(a, src), table_of(b, src), f)
    &&& table_of(b, dest) == fold_rows(table_of(a, src), f, table_of(a, dest), arr_row_fn())
    &&& unchanged_except(a, b, src, dest)
}

/// Whether `after` arises from `before` by the self-referential array pass
/// on `f` through the rewritten rows `mid`: the rows rewritten in place, then
/// everything the arrays held merged back into the same table.
pub open spec fn arr_self_via(before: RowSeq, mid: RowSeq, after: RowSeq, f: Seq<char>) -> bool {
    &&& rows_arr_pass(before, mid, f)
    &&& after == insert_rows(
        mid,
        fold_rows(before, f, Seq::<(u64, Object)>::empty(), arr_row_fn()),
    )
}

/// One self-referential array pass as a relation between whole table sets.
pub open spec fn step_arr_self(a: AllTables, b: AllTables, k: TableKind, f: Seq<char>) -> bool {
    &&& (exists|mid: RowSeq| #[trigger] arr_self_via(table_of(a, k), mid, table_of(b, k), f))
    &&& unchanged_except(a, b, k, k)
}

/// The annotations pass as a relation between whole table sets.
pub open spec fn step_annotations(a: AllTables, b: AllTables) -> bool {
    &&& rows_ann_pass(a.observations@, b.observations@)
    &&& ct_after_rows(a.controlled_terms@, a.observations@, b.controlled_terms@)
    &&& unchanged_except(a, b, TableKind::Observations, TableKind::ControlledTerms)
}

/// Whether every record of a table accepts the object pass on `f`.
pub open spec fn rows_obj_accept(rows: RowSeq, f: Seq<char>) -> bool {
    forall|i: int| 0 <= i < rows.len() ==> obj_extractable((#[trigger] rows[i]).1@, f)
}

/// Whether every record of a table accepts the array pass on `f`.
pub open spec fn rows_arr_accept(rows: RowSeq, f: Seq<char>) -> bool {
    forall|i: int| 0 <= i < rows.len() ==> arr_extractable((#[trigger] rows[i]).1@, f)
}

/// Whether every record of a table accepts the annotations pass.
pub open spec fn rows_ann_accept(rows: RowSeq) -> bool {
    forall|i: int| 0 <= i < rows.len() ==> obs_anns_ok((#[trigger] rows[i]).1@)
}

/// How many passes the pipeline runs.
pub open spec fn pipeline_len() -> int {
    38
}

/// The relation pass `i` of the pipeline establishes between the table sets
/// before and after it. The order is the dependency order: later passes scan
/// records that only earlier passes put in place.
#[verifier::opaque]
pub open spec fn pipeline_step(i: int, a: AllTables, b: AllTables) -> bool {
    if i == 0 {
        step_annotations(a, b)
    } else if i == 1 {
        step_obj(a, b, TableKind::Observations, TableKind::Applications, "application"@)
    } else if i == 2 {
        step_arr(a, b, TableKind::Observations, TableKind::Comments, "comments"@)
    } else if i == 3 {
        step_arr(a, b, TableKind::Observations, TableKind::Faves, "faves"@)
    } else if i == 4 {
        step_arr(a, b, TableKind::Observations, TableKind::Identifications, "identifications"@)
    } else if i == 5 {
        step_arr(a, b, TableKind::Observations, TableKind::Identifications, "non_owner_ids"@)
    } else if i == 6 {
        step_arr(a, b, TableKind::Observations, TableKind::ObservationFieldValues, "ofvs"@)
    } else if i == 7 {
        step_arr(a, b, TableKind::Observations, TableKind::ObservationPhotos, "observation_photos"@)
    } else if i == 8 {
        step_arr(a, b, TableKind::Observations, TableKind::ProjectObservations, "project_observations"@)
    } else if i == 9 {
        step_arr(a, b, TableKind::Observations, TableKind::QualityMetrics, "quality_metrics"@)
    } else if i == 10 {
        step_arr(a, b, TableKind::Observations, TableKind::Votes, "votes"@)
    } else if i == 11 {
        step_arr(a, b, TableKind::ControlledTerms, TableKind::ControlledTermLabels, "labels"@)
    } else if i == 12 {
        step_obj(a, b, TableKind::Observations, TableKind::Taxa, "taxon"@)
    } else if i == 13 {
        step_obj(a, b, TableKind::Observations, TableKind::Taxa, "community_taxon"@)
    } else if i == 14 {
        step_obj(a, b, TableKind::Identifications, TableKind::Taxa, "taxon"@)
    } else if i == 15 {
        step_obj(a, b, TableKind::Identifications, TableKind::Taxa, "previous_observation_taxon"@)
    } else if i == 16 {
        step_arr_self(a, b, TableKind::Taxa, "ancestors"@)
    } else if i == 17 {
        step_obj(a, b, TableKind::Identifications, TableKind::TaxonChanges, "taxon_change"@)
    } else if i == 18 {
        step_obj(a, b, TableKind::ObservationFieldValues, TableKind::ObservationFields, "observation_field"@)
    } else if i == 19 {
        step_obj(a, b, TableKind::ProjectObservations, TableKind::Projects, "project"@)
    } else if i == 20 {
        step_arr(a, b, TableKind::Projects, TableKind::ProjectAdmins, "admins"@)
    } else if i == 21 {
        step_obj(a, b, TableKind::Taxa, TableKind::ConservationStatuses, "conservation_status"@)
    } else if i == 22 {
        step_arr(a, b, TableKind::Comments, TableKind::Flags, "flags"@)
    } else if i == 23 {
        step_arr(a, b, TableKind::Identifications, TableKind::Flags, "flags"@)
    } else if i == 24 {
        step_arr(a, b, TableKind::Observations, TableKind::Flags, "flags"@)
    } else if i == 25 {
        step_arr(a, b, TableKind::Photos, TableKind::Flags, "flags"@)
    } else if i == 26 {
        step_arr(a, b, TableKind::Projects, TableKind::Flags, "flags"@)
    } else if i == 27 {
        step_arr(a, b, TableKind::Observations, TableKind::Photos, "photos"@)
    } else if i == 28 {
        step_obj(a, b, TableKind::ObservationPhotos, TableKind::Photos, "photo"@)
    } else if i == 29 {
        step_obj(a, b, TableKind::Taxa, TableKind::Photos, "default_photo"@)
    } else if i == 30 {
        step_obj(a, b, TableKind::Comments, TableKind::Users, "user"@)
    } else if i == 31 {
        step_obj(a, b, TableKind::Faves, TableKind::Users, "user"@)
    } else if i == 32 {
        step_obj(a, b, TableKind::Identifications, TableKind::Users, "user"@)
    } else if i == 33 {
        step_obj(a, b, TableKind::ObservationFieldValues, TableKind::Users, "user"@)
    } else if i == 34 {
        step_obj(a, b, TableKind::Observations, TableKind::Users, "user"@)
    } else if i == 35 {
        step_obj(a, b, TableKind::ProjectObservations, TableKind::Users, "user"@)
    } else if i == 36 {
        step_obj(a, b, TableKind::QualityMetrics, TableKind::Users, "user"@)
    } else if i == 37 {
        step_obj(a, b, TableKind::Votes, TableKind::Users, "user"@)
    } else {
        false
    }
}

/// Whether the table set `a` is acceptable to pass `i`.
#[verifier::opaque]
pub open spec fn pipeline_accepts(i: int, a: AllTables) -> bool {
    if i == 0 {
        rows_ann_accept(a.observations@)
    } else if i == 1 {
        rows_obj_accept(table_of(a, TableKind::Observations), "application"@)
    } else if i == 2 {
        rows_arr_accept(table_of(a, TableKind::Observations), "comments"@)
    } else if i == 3 {
        rows_arr_accept(table_of(a, TableKind::Observations), "faves"@)
    } else if i == 4 {
        rows_arr_accept(table_of(a, TableKind::Observations), "identifications"@)
    } else if i == 5 {
        rows_arr_accept(table_of(a, TableKind::Observations), "non_owner_ids"@)
    } else if i == 6 {
        rows_arr_accept(table_of(a, TableKind::Observations), "ofvs"@)
    } else if i == 7 {
        rows_arr_accept(table_of(a, TableKind::Observations), "observation_photos"@)
    } else if i == 8 {
        rows_arr_accept(table_of(a, TableKind::Observations), "project_observations"@)
    } else if i == 9 {
        rows_arr_accept(table_of(a, TableKind::Observations), "quality_metrics"@)
    } else if i == 10 {
        rows_arr_accept(table_of(a, TableKind::Observations), "votes"@)
    } else if i == 11 {
        rows_arr_accept(table_of(a, TableKind::ControlledTerms), "labels"@)
    } else if i == 12 {
        rows_obj_accept(table_of(a, TableKind::Observations), "taxon"@)
    } else if i == 13 {
        rows_obj_accept(table_of(a, TableKind::Observations), "community_taxon"@)
    } else if i == 14 {
        rows_obj_accept(table_of(a, TableKind::Identifications), "taxon"@)
    } else if i == 15 {
        rows_obj_accept(table_of(a, TableKind::Identifications), "previous_observation_taxon"@)
    } else if i == 16 {
        rows_arr_accept(table_of(a, TableKind::Taxa), "ancestors"@)
    } else if i == 17 {
        rows_obj_accept(table_of(a, TableKind::Identifications), "taxon_change"@)
    } else if i == 18 {
        rows_obj_accept(table_of(a, TableKind::ObservationFieldValues), "observation_field"@)
    } else if i == 19 {
        rows_obj_accept(table_of(a, TableKind::ProjectObservations), "project"@)
    } else if i == 20 {
        rows_arr_accept(table_of(a, TableKind::Projects), "admins"@)
    } else if i == 21 {
        rows_obj_accept(table_of(a, TableKind::Taxa), "conservation_status"@)
    } else if i == 22 {
        rows_arr_accept(table_of(a, TableKind::Comments), "flags"@)
    } else if i == 23 {
        rows_arr_accept(table_of(a, TableKind::Identifications), "flags"@)
    } else if i == 24 {
        rows_arr_accept(table_of(a, TableKind::Observations), "flags"@)
    } else if i == 25 {
        rows_arr_accept(table_of(a, TableKind::Photos), "flags"@)
    } else if i == 26 {
        rows_arr_accept(table_of(a, TableKind::Projects), "flags"@)
    } else if i == 27 {
        rows_arr_accept(table_of(a, TableKind::Observations), "photos"@)
    } else if i == 28 {
        rows_obj_accept(table_of(a, TableKind::ObservationPhotos), "photo"@)
    } else if i == 29 {
        rows_obj_accept(table_of(a, TableKind::Taxa), "default_photo"@)
    } else if i == 30 {
        rows_obj_accept(table_of(a, TableKind::Comments), "user"@)
    } else if i == 31 {
        rows_obj_accept(table_of(a, TableKind::Faves), "user"@)
    } else if i == 32 {
        rows_obj_accept(table_of(a, TableKind::Identifications), "user"@)
    } else if i == 33 {
        rows_obj_accept(table_of(a, TableKind::ObservationFieldValues), "user"@)
    } else if i == 34 {
        rows_obj_accept(table_of(a, TableKind::Observations), "user"@)
    } else if i == 35 {
        rows_obj_accept(table_of(a, TableKind::ProjectObservations), "user"@)
    } else if i == 36 {
        rows_obj_accept(table_of(a, TableKind::QualityMetrics), "user"@)
    } else if i == 37 {
        rows_obj_accept(table_of(a, TableKind::Votes), "user"@)
    } else {
        true
    }
}

/// Whether `states` is a chain of table sets linked by passes `lo` up to
/// `hi` of the pipeline, in order.
pub open spec fn range_chain(states: Seq<AllTables>, lo: int, hi: int) -> bool {
    &&& lo <= hi
    &&& states.len() == hi - lo + 1
    &&& (forall|i: int|
        0 <= i < hi - lo ==> pipeline_step(lo + i, #[trigger] states[i], states[i + 1]))
}

/// Whether `b` is reachable from `a` by passes `lo` up to `hi` of the
/// pipeline, in order.
pub open spec fn pipeline_range(a: AllTables, b: AllTables, lo: int, hi: int) -> bool {
    exists|states: Seq<AllTables>|
        #[trigger] range_chain(states, lo, hi) && states[0] == a && states[hi - lo] == b
}

/// Whether `b` is reachable from `a` by the first `n` passes of the
/// pipeline, in order.
pub open spec fn pipeline_prefix(a: AllTables, b: AllTables, n: int) -> bool {
    0 <= n && pipeline_range(a, b, 0, n)
}

/// A chain followed by one more pass is a chain.
proof fn lemma_chain_snoc(states: Seq<AllTables>, lo: int, hi: int, nxt: AllTables)
    requires
        range_chain(states, lo, hi),
        pipeline_step(hi, states[hi - lo], nxt),
    ensures
        range_chain(states.push(nxt), lo, hi + 1),
{
    let s2 = states.push(nxt);
    assert forall|i: int|
        0 <= i < hi + 1 - lo implies pipeline_step(lo + i, #[trigger] s2[i], s2[i + 1]) by {
        if i < hi - lo {
            assert(s2[i] == states[i]);
            assert(s2[i + 1] == states[i + 1]);
        } else {
            assert(s2[i] == states[hi - lo]);
            assert(s2[i + 1] == nxt);
        }
    }
}

/// Reachability composes across adjacent pass ranges.
proof fn lemma_range_concat(a: AllTables, m: AllTables, b: AllTables, lo: int, md: int, hi: int)
    requires
        lo <= md <= hi,
        pipeline_range(a, m, lo, md),
        pipeline_range(m, b, md, hi),
    ensures
        pipeline_range(a, b, lo, hi),
{
    let s1 = choose|s: Seq<AllTables>| #[trigger] range_chain(s, lo, md) && s[0] == a && s[md - lo] == m;
    let s2 = choose|s: Seq<AllTables>| #[trigger] range_chain(s, md, hi) && s[0] == m && s[hi - md] == b;
    let s = s1 + s2.subrange(1, s2.len() as int);
    assert(s.len() == hi - lo + 1);
    assert(s[0] == a);
    assert(s[hi - lo] == b) by {
        if hi > md {
            assert(s[hi - lo] == s2.subrange(1, s2.len() as int)[hi - md - 1]);
            assert(s2.subrange(1, s2.len() as int)[hi - md - 1] == s2[hi - md]);
        } else {
            assert(s[hi - lo] == s1[md - lo]);
        }
    }
    assert forall|i: int|
        0 <= i < hi - lo implies pipeline_step(lo + i, #[trigger] s[i], s[i + 1]) by {
        if i < md - lo {
            assert(s[i] == s1[i]);
            if i + 1 < s1.len() {
                assert(s[i + 1] == s1[i + 1]);
            }
        } else {
            if i == md - lo {
                assert(s[i] == s1[md - lo]);
                assert(s1[md - lo] == s2[0]);
            } else {
                assert(s[i] == s2.subrange(1, s2.len() as int)[i - (md - lo) - 1]);
                assert(s[i] == s2[i - (md - lo)]);
            }
            assert(s[i + 1] == s2.subrange(1, s2.len() as int)[i - (md - lo)]);
            assert(s[i + 1] == s2[i + 1 - (md - lo)]);
            assert(pipeline_step(md + (i - (md - lo)), s2[i - (md - lo)], s2[i - (md - lo) + 1]));
        }
    }
    assert(range_chain(s, lo, hi));
}

/// The entity kinds, one cache subdirectory each, in name order.
pub fn kind_names() -> (r: Vec<String>)
    ensures
        r@.len() == 21,
        r@[0]@ == "applications"@,
        r@[1]@ == "comments"@,
        r@[2]@ == "conservation_statuses"@,
        r@[3]@ == "controlled_term_labels"@,
        r@[4]@ == "controlled_terms"@,
        r@[5]@ == "faves"@,
        r@[6]@ == "flags"@,
        r@[7]@ == "identifications"@,
        r@[8]@ == "observation_field_values"@,
        r@[9]@ == "observation_fields"@,
        r@[10]@ == "observation_photos"@,
        r@[11]@ == "observations"@,
        r@[12]@ == "photos"@,
        r@[13]@ == "project_admins"@,
        r@[14]@ == "project_observations"@,
        r@[15]@ == "projects"@,
        r@[16]@ == "quality_metrics"@,
        r@[17]@ == "taxa"@,
        r@[18]@ == "taxon_changes"@,
        r@[19]@ == "users"@,
        r@[20]@ == "votes"@,
{
    let mut r: Vec<String> = Vec::new();
    r.push("applications".to_owned());
    r.push("comments".to_owned());
    r.push("conservation_statuses".to_owned());
    r.push("controlled_term_labels".to_owned());
    r.push("controlled_terms".to_owned());
    r.push("faves".to_owned());
    r.push("flags".to_owned());
    r.push("identifications".to_owned());
    r.push("observation_field_values".to_owned());
    r.push("observation_fields".to_owned());
    r.push("observation_photos".to_owned());
    r.push("observations".to_owned());
    r.push("photos".to_owned());
    r.push("project_admins".to_owned());
    r.push("project_observations".to_owned());
    r.push("projects".to_owned());
    r.push("quality_metrics".to_owned());
    r.push("taxa".to_owned());
    r.push("taxon_changes".to_owned());
    r.push("users".to_owned());
    r.push("votes".to_owned());
    r
}

impl AllTables {
    /// The tables paired with their kind names, in name order, for flushing.
    pub fn into_pairs(self) -> (r: Vec<(String, Table)>)
        ensures
            r@.len() == 21,
            r@[0].0@ == "applications"@ && r@[0].1 == self.applications,
            r@[1].0@ == "comments"@ && r@[1].1 == self.comments,
            r@[2].0@ == "conservation_statuses"@ && r@[2].1 == self.conservation_statuses,
            r@[3].0@ == "controlled_term_labels"@ && r@[3].1 == self.controlled_term_labels,
            r@[4].0@ == "controlled_terms"@ && r@[4].1 == self.controlled_terms,
            r@[5].0@ == "faves"@ && r@[5].1 == self.faves,
            r@[6].0@ == "flags"@ && r@[6].1 == self.flags,
            r@[7].0@ == "identifications"@ && r@[7].1 == self.identifications,
            r@[8].0@ == "observation_field_values"@ && r@[8].1 == self.observation_field_values,
            r@[9].0@ == "observation_fields"@ && r@[9].1 == self.observation_fields,
            r@[10].0@ == "observation_photos"@ && r@[10].1 == self.observation_photos,
            r@[11].0@ == "observations"@ && r@[11].1 == self.observations,
            r@[12].0@ == "photos"@ && r@[12].1 == self.photos,
            r@[13].0@ == "project_admins"@ && r@[13].1 == self.project_admins,
            r@[14].0@ == "project_observations"@ && r@[14].1 == self.project_observations,
            r@[15].0@ == "projects"@ && r@[15].1 == self.projects,
            r@[16].0@ == "quality_metrics"@ && r@[16].1 == self.quality_metrics,
            r@[17].0@ == "taxa"@ && r@[17].1 == self.taxa,
            r@[18].0@ == "taxon_changes"@ && r@[18].1 == self.taxon_changes,
            r@[19].0@ == "users"@ && r@[19].1 == self.users,
            r@[20].0@ == "votes"@ && r@[20].1 == self.votes,
    {
        let mut r: Vec<(String, Table)> = Vec::new();
        r.push(("applications".to_owned(), self.applications));
        r.push(("comments".to_owned(), self.comments));
        r.push(("conservation_statuses".to_owned(), self.conservation_statuses));
        r.push(("controlled_term_labels".to_owned(), self.controlled_term_labels));
        r.push(("controlled_terms".to_owned(), self.controlled_terms));
        r.push(("faves".to_owned(), self.faves));
        r.push(("flags".to_owned(), self.flags));
        r.push(("identifications".to_owned(), self.identifications));
        r.push(("observation_field_values".to_owned(), self.observation_field_values));
        r.push(("observation_fields".to_owned(), self.observation_fields));
        r.push(("observation_photos".to_owned(), self.observation_photos));
        r.push(("observations".to_owned(), self.observations));
        r.push(("photos".to_owned(), self.photos));
        r.push(("project_admins".to_owned(), self.project_admins));
        r.push(("project_observations".to_owned(), self.project_observations));
        r.push(("projects".to_owned(), self.projects));
        r.push(("quality_metrics".to_owned(), self.quality_metrics));
        r.push(("taxa".to_owned(), self.taxa));
        r.push(("taxon_changes".to_owned(), self.taxon_changes));
        r.push(("users".to_owned(), self.users));
        r.push(("votes".to_owned(), self.votes));
        r
    }
}

/// The start of the first group: the annotation rewrite, then applications,
/// comments, faves and both identification lists out of the observations.
#[verifier::rlimit(100)]
fn pass_group_annotations(t: &mut AllTables) -> (r: Result<(), Error>)
    requires
        old(t).wf(),
    ensures
        final(t).wf(),
        r is Ok ==> final(t).observations@.len() == old(t).observations@.len() && (forall|i: int|
            0 <= i < old(t).observations@.len() ==> (#[trigger] final(t).observations@[i]).0
                == old(t).observations@[i].0),
        r is Ok ==> pipeline_range(*old(t), *final(t), 0, 6),
        r matches Err(e) ==> (exists|k: int, mid: AllTables|
            0 <= k < 6 && #[trigger] pipeline_range(*old(t), mid, 0, k)
                && !pipeline_accepts(k, mid)),
{
    let ghost mut states: Seq<AllTables> = seq![*t];
    proof {
        assert(range_chain(states, 0, 0));
    }
    let ghost s0 = *t;
    match pass_annotations(&mut t.observations, &mut t.controlled_terms) {
        Err(e) => {
            proof {
                reveal(pipeline_accepts);
                assert(!pipeline_accepts(0, s0));
                assert(pipeline_range(*old(t), s0, 0, 0));
            }
            return Err(e);
        },
        Ok(()) => {},
    }
    proof {
        reveal(pipeline_step);
        assert(pipeline_step(0, s0, *t));
        lemma_chain_snoc(states, 0, 0, *t);
        states = states.push(*t);
    }
    let ghost s1 = *t;
    match pass_obj(&mut t.observations, &mut t.applications, "application") {
        Err(e) => {
            proof {
                reveal(pipeline_accepts);
                assert(!pipeline_accepts(1, s1));
                assert(pipeline_range(*old(t), s1, 0, 1));
            }
            return Err(e);
        },
        Ok(()) => {},
    }
    proof {
        reveal(pipeline_step);
        assert(pipeline_step(1, s1, *t));
        lemma_chain_snoc(states, 0, 1, *t);
        states = states.push(*t);
    }
    let ghost s2 = *t;
    match pass_arr(&mut t.observations, &mut t.comments, "comments") {
        Err(e) => {
            proof {
                reveal(pipeline_accepts);
                assert(!pipeline_accepts(2, s2));
                assert(pipeline_range(*old(t), s2, 0, 2));
            }
            return Err(e);
        },
        Ok(()) => {},
    }
    proof {
        reveal(pipeline_step);
        assert(pipeline_step(2, s2, *t));
        lemma_chain_snoc(states, 0, 2, *t);
        states = states.push(*t);
    }
    let ghost s3 = *t;
    match pass_arr(&mut t.observations, &mut t.faves, "faves") {
        Err(e) => {
            proof {
                reveal(pipeline_accepts);
                assert(!pipeline_accepts(3, s3));
                assert(pipeline_range(*old(t), s3, 0, 3));
            }
            return Err(e);
        },
        Ok(()) => {},
    }
    proof {
        reveal(pipeline_step);
        assert(pipeline_step(3, s3, *t));
        lemma_chain_snoc(states, 0, 3, *t);
        states = states.push(*t);
    }
    let ghost s4 = *t;
    match pass_arr(&mut t.observations, &mut t.identifications, "identifications") {
        Err(e) => {
            proof {
                reveal(pipeline_accepts);
                assert(!pipeline_accepts(4, s4));
                assert(pipeline_range(*old(t), s4, 0, 4));
            }
            return Err(e);
        },
        Ok(()) => {},
    }
    proof {
        reveal(pipeline_step);
        assert(pipeline_step(4, s4, *t));
        lemma_chain_snoc(states, 0, 4, *t);
        states = states.push(*t);
    }
    let ghost s5 = *t;
    match pass_arr(&mut t.observations, &mut t.identifications, "non_owner_ids") {
        Err(e) => {
            proof {
                reveal(pipeline_accepts);
                assert(!pipeline_accepts(5, s5));
                assert(pipeline_range(*old(t), s5, 0, 5));
            }
            return Err(e);
        },
        Ok(()) => {},
    }
    proof {
        reveal(pipeline_step);
        assert(pipeline_step(5, s5, *t));
        lemma_chain_snoc(states, 0, 5, *t);
        states = states.push(*t);
    }
    proof {
        assert(pipeline_range(*old(t), *t, 0, 6));
    }
    Ok(())
}

/// The rest of the first group: field values, photo links, project links,
/// quality metrics and votes out of the observations.
#[verifier::rlimit(100)]
fn pass_group_observation_children(t: &mut AllTables) -> (r: Result<(), Error>)
    requires
        old(t).wf(),
    ensures
        final(t).wf(),
        r is Ok ==> final(t).observations@.len() == old(t).observations@.len() && (forall|i: int|
            0 <= i < old(t).observations@.len() ==> (#[trigger] final(t).observations@[i]).0
                == old(t).observations@[i].0),
        r is Ok ==> pipeline_range(*old(t), *final(t), 6, 11),
        r matches Err(e) ==> (exists|k: int, mid: AllTables|
            6 <= k < 11 && #[trigger] pipeline_range(*old(t), mid, 6, k)
                && !pipeline_accepts(k, mid)),
{
    let ghost mut states: Seq<AllTables> = seq![*t];
    proof {
        assert(range_chain(states, 6, 6));
    }
    let ghost s6 = *t;
    match pass_arr(&mut t.observations, &mut t.observation_field_values, "ofvs") {
        Err(e) => {
            proof {
                reveal(pipeline_accepts);
                assert(!pipeline_accepts(6, s6));
                assert(pipeline_range(*old(t), s6, 6, 6));
            }
            return Err(e);
        },
        Ok(()) => {},
    }
    proof {
        reveal(pipeline_step);
        assert(pipeline_step(6, s6, *t));
        lemma_chain_snoc(states, 6, 6, *t);
        states = states.push(*t);
    }
    let ghost s7 = *t;
    match pass_arr(&mut t.observations, &mut t.observation_photos, "observation_photos") {
        Err(e) => {
            proof {
                reveal(pipeline_accepts);
                assert(!pipeline_accepts(7, s7));
                assert(pipeline_range(*old(t), s7, 6, 7));
            }
            return Err(e);
        },
        Ok(()) => {},
    }
    proof {
        reveal(pipeline_step);
        assert(pipeline_step(7, s7, *t));
        lemma_chain_snoc(states, 6, 7, *t);
        states = states.push(*t);
    }
    let ghost s8 = *t;
    match pass_arr(&mut t.observations, &mut t.project_observations, "project_observations") {
        Err(e) => {
            proof {
                reveal(pipeline_accepts);
                assert(!pipeline_accepts(8, s8));
                assert(pipeline_range(*old(t), s8, 6, 8));
            }
            return Err(e);
        },
        Ok(()) => {},
    }
    proof {
        reveal(pipeline_step);
        assert(pipeline_step(8, s8, *t));
        lemma_chain_snoc(states, 6, 8, *t);
        states = states.push(*t);
    }
    let ghost s9 = *t;
    match pass_arr(&mut t.observations, &mut t.quality_metrics, "quality_metrics") {
        Err(e) => {
            proof {
                reveal(pipeline_accepts);
                assert(!pipeline_accepts(9, s9));
                assert(pipeline_range(*old(t), s9, 6, 9));
            }
            return Err(e);
        },
        Ok(()) => {},
    }
    proof {
        reveal(pipeline_step);
        assert(pipeline_step(9, s9, *t));
        lemma_chain_snoc(states, 6, 9, *t);
        states = states.push(*t);
    }
    let ghost s10 = *t;
    match pass_arr(&mut t.observations, &mut t.votes, "votes") {
        Err(e) => {
            proof {
                reveal(pipeline_accepts);
                assert(!pipeline_accepts(10, s10));
                assert(pipeline_range(*old(t), s10, 6, 10));
            }
            return Err(e);
        },
        Ok(()) => {},
    }
    proof {
        reveal(pipeline_step);
        assert(pipeline_step(10, s10, *t));
        lemma_chain_snoc(states, 6, 10, *t);
        states = states.push(*t);
    }
    proof {
        assert(pipeline_range(*old(t), *t, 6, 11));
    }
    Ok(())
}

/// The second group: labels of the surfaced controlled terms, then taxa
/// with their self-referential ancestors and the taxon changes.
#[verifier::rlimit(100)]
fn pass_group_labels_taxa(t: &mut AllTables) -> (r: Result<(), Error>)
    requires
        old(t).wf(),
    ensures
        final(t).wf(),
        r is Ok ==> final(t).observations@.len() == old(t).observations@.len() && (forall|i: int|
            0 <= i < old(t).observations@.len() ==> (#[trigger] final(t).observations@[i]).0
                == old(t).observations@[i].0),
        r is Ok ==> pipeline_range(*old(t), *final(t), 11, 18),
        r matches Err(e) ==> (exists|k: int, mid: AllTables|
            11 <= k < 18 && #[trigger] pipeline_range(*old(t), mid, 11, k)
                && !pipeline_accepts(k, mid)),
{
    let ghost mut states: Seq<AllTables> = seq![*t];
    proof {
        assert(range_chain(states, 11, 11));
    }
    let ghost s11 = *t;
    match pass_arr(&mut t.controlled_terms, &mut t.controlled_term_labels, "labels") {
        Err(e) => {
            proof {
                reveal(pipeline_accepts);
                assert(!pipeline_accepts(11, s11));
                assert(pipeline_range(*old(t), s11, 11, 11));
            }
            return Err(e);
        },
        Ok(()) => {},
    }
    proof {
        reveal(pipeline_step);
        assert(pipeline_step(11, s11, *t));
        lemma_chain_snoc(states, 11, 11, *t);
        states = states.push(*t);
    }
    let ghost s12 = *t;
    match pass_obj(&mut t.observations, &mut t.taxa, "taxon") {
        Err(e) => {
            proof {
                reveal(pipeline_accepts);
                assert(!pipeline_accepts(12, s12));
                assert(pipeline_range(*old(t), s12, 11, 12));
            }
            return Err(e);
        },
        Ok(()) => {},
    }
    proof {
        reveal(pipeline_step);
        assert(pipeline_step(12, s12, *t));
        lemma_chain_snoc(states, 11, 12, *t);
        states = states.push(*t);
    }
    let ghost s13 = *t;
    match pass_obj(&mut t.observations, &mut t.taxa, "community_taxon") {
        Err(e) => {
            proof {
                reveal(pipeline_accepts);
                assert(!pipeline_accepts(13, s13));
                assert(pipeline_range(*old(t), s13, 11, 13));
            }
            return Err(e);
        },
        Ok(()) => {},
    }
    proof {
        reveal(pipeline_step);
        assert(pipeline_step(13, s13, *t));
        lemma_chain_snoc(states, 11, 13, *t);
        states = states.push(*t);
    }
    let ghost s14 = *t;
    match pass_obj(&mut t.identifications, &mut t.taxa, "taxon") {
        Err(e) => {
            proof {
                reveal(pipeline_accepts);
                assert(!pipeline_accepts(14, s14));
                assert(pipeline_range(*old(t), s14, 11, 14));
            }
            return Err(e);
        },
        Ok(()) => {},
    }
    proof {
        reveal(pipeline_step);
        assert(pipeline_step(14, s14, *t));
        lemma_chain_snoc(states, 11, 14, *t);
        states = states.push(*t);
    }
    let ghost s15 = *t;
    match pass_obj(&mut t.identifications, &mut t.taxa, "previous_observation_taxon") {
        Err(e) => {
            proof {
                reveal(pipeline_accepts);
                assert(!pipeline_accepts(15, s15));
                assert(pipeline_range(*old(t), s15, 11, 15));
            }
            return Err(e);
        },
        Ok(()) => {},
    }
    proof {
        reveal(pipeline_step);
        assert(pipeline_step(15, s15, *t));
        lemma_chain_snoc(states, 11, 15, *t);
        states = states.push(*t);
    }
    let ghost s16 = *t;
    match pass_arr_self(&mut t.taxa, "ancestors") {
        Err(e) => {
            proof {
                reveal(pipeline_accepts);
                assert(!pipeline_accepts(16, s16));
                assert(pipeline_range(*old(t), s16, 11, 16));
            }
            return Err(e);
        },
        Ok(()) => {},
    }
    proof {
        reveal(pipeline_step);
        let m = choose|m: RowSeq|
            #[trigger] arr_self_via(s16.taxa@, m, t.taxa@, "ancestors"@);
        assert(arr_self_via(
            table_of(s16, TableKind::Taxa),
            m,
            table_of(*t, TableKind::Taxa),
            "ancestors"@,
        ));
        assert(pipeline_step(16, s16, *t));
        lemma_chain_snoc(states, 11, 16, *t);
        states = states.push(*t);
    }
    let ghost s17 = *t;
    match pass_obj(&mut t.identifications, &mut t.taxon_changes, "taxon_change") {
        Err(e) => {
            proof {
                reveal(pipeline_accepts);
                assert(!pipeline_accepts(17, s17));
                assert(pipeline_range(*old(t), s17, 11, 17));
            }
            return Err(e);
        },
        Ok(()) => {},
    }
    proof {
        reveal(pipeline_step);
        assert(pipeline_step(17, s17, *t));
        lemma_chain_snoc(states, 11, 17, *t);
        states = states.push(*t);
    }
    proof {
        assert(pipeline_range(*old(t), *t, 11, 18));
    }
    Ok(())
}

/// The third group: observation fields, projects with their admins, and
/// conservation statuses of the taxa.
#[verifier::rlimit(100)]
fn pass_group_fields_projects(t: &mut AllTables) -> (r: Result<(), Error>)
    requires
        old(t).wf(),
    ensures
        final(t).wf(),
        r is Ok ==> final(t).observations@.len() == old(t).observations@.len() && (forall|i: int|
            0 <= i < old(t).observations@.len() ==> (#[trigger] final(t).observations@[i]).0
                == old(t).observations@[i].0),
        r is Ok ==> pipeline_range(*old(t), *final(t), 18, 22),
        r matches Err(e) ==> (exists|k: int, mid: AllTables|
            18 <= k < 22 && #[trigger] pipeline_range(*old(t), mid, 18, k)
                && !pipeline_accepts(k, mid)),
{
    let ghost mut states: Seq<AllTables> = seq![*t];
    proof {
        assert(range_chain(states, 18, 18));
    }
    let ghost s18 = *t;
    match pass_obj(&mut t.observation_field_values, &mut t.observation_fields, "observation_field") {
        Err(e) => {
            proof {
                reveal(pipeline_accepts);
                assert(!pipeline_accepts(18, s18));
                assert(pipeline_range(*old(t), s18, 18, 18));
            }
            return Err(e);
        },
        Ok(()) => {},
    }
    proof {
        reveal(pipeline_step);
        assert(pipeline_step(18, s18, *t));
        lemma_chain_snoc(states, 18, 18, *t);
        states = states.push(*t);
    }
    let ghost s19 = *t;
    match pass_obj(&mut t.project_observations, &mut t.projects, "project") {
        Err(e) => {
            proof {
                reveal(pipeline_accepts);
                assert(!pipeline_accepts(19, s19));
                assert(pipeline_range(*old(t), s19, 18, 19));
            }
            return Err(e);
        },
        Ok(()) => {},
    }
    proof {
        reveal(pipeline_step);
        assert(pipeline_step(19, s19, *t));
        lemma_chain_snoc(states, 18, 19, *t);
        states = states.push(*t);
    }
    let ghost s20 = *t;
    match pass_arr(&mut t.projects, &mut t.project_admins, "admins") {
        Err(e) => {
            proof {
                reveal(pipeline_accepts);
                assert(!pipeline_accepts(20, s20));
                assert(pipeline_range(*old(t), s20, 18, 20));
            }
            return Err(e);
        },
        Ok(()) => {},
    }
    proof {
        reveal(pipeline_step);
        assert(pipeline_step(20, s20, *t));
        lemma_chain_snoc(states, 18, 20, *t);
        states = states.push(*t);
    }
    let ghost s21 = *t;
    match pass_obj(&mut t.taxa, &mut t.conservation_statuses, "conservation_status") {
        Err(e) => {
            proof {
                reveal(pipeline_accepts);
                assert(!pipeline_accepts(21, s21));
                assert(pipeline_range(*old(t), s21, 18, 21));
            }
            return Err(e);
        },
        Ok(()) => {},
    }
    proof {
        reveal(pipeline_step);
        assert(pipeline_step(21, s21, *t));
        lemma_chain_snoc(states, 18, 21, *t);
        states = states.push(*t);
    }
    proof {
        assert(pipeline_range(*old(t), *t, 18, 22));
    }
    Ok(())
}

/// The fourth group: flags from every table that can carry them, then
/// photos from every table that can embed one.
#[verifier::rlimit(100)]
fn pass_group_flags_photos(t: &mut AllTables) -> (r: Result<(), Error>)
    requires
        old(t).wf(),
    ensures
        final(t).wf(),
        r is Ok ==> final(t).observations@.len() == old(t).observations@.len() && (forall|i: int|
            0 <= i < old(t).observations@.len() ==> (#[trigger] final(t).observations@[i]).0
                == old(t).observations@[i].0),
        r is Ok ==> pipeline_range(*old(t), *final(t), 22, 30),
        r matches Err(e) ==> (exists|k: int, mid: AllTables|
            22 <= k < 30 && #[trigger] pipeline_range(*old(t), mid, 22, k)
                && !pipeline_accepts(k, mid)),
{
    let ghost mut states: Seq<AllTables> = seq![*t];
    proof {
        assert(range_chain(states, 22, 22));
    }
    let ghost s22 = *t;
    match pass_arr(&mut t.comments, &mut t.flags, "flags") {
        Err(e) => {
            proof {
                reveal(pipeline_accepts);
                assert(!pipeline_accepts(22, s22));
                assert(pipeline_range(*old(t), s22, 22, 22));
            }
            return Err(e);
        },
        Ok(()) => {},
    }
    proof {
        reveal(pipeline_step);
        assert(pipeline_step(22, s22, *t));
        lemma_chain_snoc(states, 22, 22, *t);
        states = states.push(*t);
    }
    let ghost s23 = *t;
    match pass_arr(&mut t.identifications, &mut t.flags, "flags") {
        Err(e) => {
            proof {
                reveal(pipeline_accepts);
                assert(!pipeline_accepts(23, s23));
                assert(pipeline_range(*old(t), s23, 22, 23));
            }
            return Err(e);
        },
        Ok(()) => {},
    }
    proof {
        reveal(pipeline_step);
        assert(pipeline_step(23, s23, *t));
        lemma_chain_snoc(states, 22, 23, *t);
        states = states.push(*t);
    }
    let ghost s24 = *t;
    match pass_arr(&mut t.observations, &mut t.flags, "flags") {
        Err(e) => {
            proof {
                reveal(pipeline_accepts);
                assert(!pipeline_accepts(24, s24));
                assert(pipeline_range(*old(t), s24, 22, 24));
            }
            return Err(e);
        },
        Ok(()) => {},
    }
    proof {
        reveal(pipeline_step);
        assert(pipeline_step(24, s24, *t));
        lemma_chain_snoc(states, 22, 24, *t);
        states = states.push(*t);
    }
    let ghost s25 = *t;
    match pass_arr(&mut t.photos, &mut t.flags, "flags") {
        Err(e) => {
            proof {
                reveal(pipeline_accepts);
                assert(!pipeline_accepts(25, s25));
                assert(pipeline_range(*old(t), s25, 22, 25));
            }
            return Err(e);
        },
        Ok(()) => {},
    }
    proof {
        reveal(pipeline_step);
        assert(pipeline_step(25, s25, *t));
        lemma_chain_snoc(states, 22, 25, *t);
        states = states.push(*t);
    }
    let ghost s26 = *t;
    match pass_arr(&mut t.projects, &mut t.flags, "flags") {
        Err(e) => {
            proof {
                reveal(pipeline_accepts);
                assert(!pipeline_accepts(26, s26));
                assert(pipeline_range(*old(t), s26, 22, 26));
            }
            return Err(e);
        },
        Ok(()) => {},
    }
    proof {
        reveal(pipeline_step);
        assert(pipeline_step(26, s26, *t));
        lemma_chain_snoc(states, 22, 26, *t);
        states = states.push(*t);
    }
    let ghost s27 = *t;
    match pass_arr(&mut t.observations, &mut t.photos, "photos") {
        Err(e) => {
            proof {
                reveal(pipeline_accepts);
                assert(!pipeline_accepts(27, s27));
                assert(pipeline_range(*old(t), s27, 22, 27));
            }
            return Err(e);
        },
        Ok(()) => {},
    }
    proof {
        reveal(pipeline_step);
        assert(pipeline_step(27, s27, *t));
        lemma_chain_snoc(states, 22, 27, *t);
        states = states.push(*t);
    }
    let ghost s28 = *t;
    match pass_obj(&mut t.observation_photos, &mut t.photos, "photo") {
        Err(e) => {
            proof {
                reveal(pipeline_accepts);
                assert(!pipeline_accepts(28, s28));
                assert(pipeline_range(*old(t), s28, 22, 28));
            }
            return Err(e);
        },
        Ok(()) => {},
    }
    proof {
        reveal(pipeline_step);
        assert(pipeline_step(28, s28, *t));
        lemma_chain_snoc(states, 22, 28, *t);
        states = states.push(*t);
    }
    let ghost s29 = *t;
    match pass_obj(&mut t.taxa, &mut t.photos, "default_photo") {
        Err(e) => {
            proof {
                reveal(pipeline_accepts);
                assert(!pipeline_accepts(29, s29));
                assert(pipeline_range(*old(t), s29, 22, 29));
            }
            return Err(e);
        },
        Ok(()) => {},
    }
    proof {
        reveal(pipeline_step);
        assert(pipeline_step(29, s29, *t));
        lemma_chain_snoc(states, 22, 29, *t);
        states = states.push(*t);
    }
    proof {
        assert(pipeline_range(*old(t), *t, 22, 30));
    }
    Ok(())
}

/// The last group: users, from every table that can embed one; it runs
/// last because almost every earlier pass surfaces new user-embedding
/// records.
#[verifier::rlimit(100)]
fn pass_group_users(t: &mut AllTables) -> (r: Result<(), Error>)
    requires
        old(t).wf(),
    ensures
        final(t).wf(),
        r is Ok ==> final(t).observations@.len() == old(t).observations@.len() && (forall|i: int|
            0 <= i < old(t).observations@.len() ==> (#[trigger] final(t).observations@[i]).0
                == old(t).observations@[i].0),
        r is Ok ==> pipeline_range(*old(t), *final(t), 30, 38),
        r matches Err(e) ==> (exists|k: int, mid: AllTables|
            30 <= k < 38 && #[trigger] pipeline_range(*old(t), mid, 30, k)
                && !pipeline_accepts(k, mid)),
{
    let ghost mut states: Seq<AllTables> = seq![*t];
    proof {
        assert(range_chain(states, 30, 30));
    }
    let ghost s30 = *t;
    match pass_obj(&mut t.comments, &mut t.users, "user") {
        Err(e) => {
            proof {
                reveal(pipeline_accepts);
                assert(!pipeline_accepts(30, s30));
                assert(pipeline_range(*old(t), s30, 30, 30));
            }
            return Err(e);
        },
        Ok(()) => {},
    }
    proof {
        reveal(pipeline_step);
        assert(pipeline_step(30, s30, *t));
        lemma_chain_snoc(states, 30, 30, *t);
        states = states.push(*t);
    }
    let ghost s31 = *t;
    match pass_obj(&mut t.faves, &mut t.users, "user") {
        Err(e) => {
            proof {
                reveal(pipeline_accepts);
                assert(!pipeline_accepts(31, s31));
                assert(pipeline_range(*old(t), s31, 30, 31));
            }
            return Err(e);
        },
        Ok(()) => {},
    }
    proof {
        reveal(pipeline_step);
        assert(pipeline_step(31, s31, *t));
        lemma_chain_snoc(states, 30, 31, *t);
        states = states.push(*t);
    }
    let ghost s32 = *t;
    match pass_obj(&mut t.identifications, &mut t.users, "user") {
        Err(e) => {
            proof {
                reveal(pipeline_accepts);
                assert(!pipeline_accepts(32, s32));
                assert(pipeline_range(*old(t), s32, 30, 32));
            }
            return Err(e);
        },
        Ok(()) => {},
    }
    proof {
        reveal(pipeline_step);
        assert(pipeline_step(32, s32, *t));
        lemma_chain_snoc(states, 30, 32, *t);
        states = states.push(*t);
    }
    let ghost s33 = *t;
    match pass_obj(&mut t.observation_field_values, &mut t.users, "user") {
        Err(e) => {
            proof {
                reveal(pipeline_accepts);
                assert(!pipeline_accepts(33, s33));
                assert(pipeline_range(*old(t), s33, 30, 33));
            }
            return Err(e);
        },
        Ok(()) => {},
    }
    proof {
        reveal(pipeline_step);
        assert(pipeline_step(33, s33, *t));
        lemma_chain_snoc(states, 30, 33, *t);
        states = states.push(*t);
    }
    let ghost s34 = *t;
    match pass_obj(&mut t.observations, &mut t.users, "user") {
        Err(e) => {
            proof {
                reveal(pipeline_accepts);
                assert(!pipeline_accepts(34, s34));
                assert(pipeline_range(*old(t), s34, 30, 34));
            }
            return Err(e);
        },
        Ok(()) => {},
    }
    proof {
        reveal(pipeline_step);
        assert(pipeline_step(34, s34, *t));
        lemma_chain_snoc(states, 30, 34, *t);
        states = states.push(*t);
    }
    let ghost s35 = *t;
    match pass_obj(&mut t.project_observations, &mut t.users, "user") {
        Err(e) => {
            proof {
                reveal(pipeline_accepts);
                assert(!pipeline_accepts(35, s35));
                assert(pipeline_range(*old(t), s35, 30, 35));
            }
            return Err(e);
        },
        Ok(()) => {},
    }
    proof {
        reveal(pipeline_step);
        assert(pipeline_step(35, s35, *t));
        lemma_chain_snoc(states, 30, 35, *t);
        states = states.push(*t);
    }
    let ghost s36 = *t;
    match pass_obj(&mut t.quality_metrics, &mut t.users, "user") {
        Err(e) => {
            proof {
                reveal(pipeline_accepts);
                assert(!pipeline_accepts(36, s36));
                assert(pipeline_range(*old(t), s36, 30, 36));
            }
            return Err(e);
        },
        Ok(()) => {},
    }
    proof {
        reveal(pipeline_step);
        assert(pipeline_step(36, s36, *t));
        lemma_chain_snoc(states, 30, 36, *t);
        states = states.push(*t);
    }
    let ghost s37 = *t;
    match pass_obj(&mut t.votes, &mut t.users, "user") {
        Err(e) => {
            proof {
                reveal(pipeline_accepts);
                assert(!pipeline_accepts(37, s37));
                assert(pipeline_range(*old(t), s37, 30, 37));
            }
            return Err(e);
        },
        Ok(()) => {},
    }
    proof {
        reveal(pipeline_step);
        assert(pipeline_step(37, s37, *t));
        lemma_chain_snoc(states, 30, 37, *t);
        states = states.push(*t);
    }
    proof {
        assert(pipeline_range(*old(t), *t, 30, 38));
    }
    Ok(())
}

/// One normalization run: the batch's shared snapshot metadata and the
/// tables under construction.
pub struct Normaliser {
    pub header: CacheHeader,
    pub tables: AllTables,
}

impl Normaliser {
    /// A run over one batch of freshly fetched observations.
    pub fn new(header: CacheHeader, observations: Table) -> (r: Normaliser)
        requires
            observations.wf(),
        ensures
            r.header == header,
            r.tables.wf(),
            r.tables.observations == observations,
            r.tables.applications@.len() == 0,
            r.tables.comments@.len() == 0,
            r.tables.conservation_statuses@.len() == 0,
            r.tables.controlled_term_labels@.len() == 0,
            r.tables.controlled_terms@.len() == 0,
            r.tables.faves@.len() == 0,
            r.tables.flags@.len() == 0,
            r.tables.identifications@.len() == 0,
            r.tables.observation_field_values@.len() == 0,
            r.tables.observation_fields@.len() == 0,
            r.tables.observation_photos@.len() == 0,
            r.tables.photos@.len() == 0,
            r.tables.project_admins@.len() == 0,
            r.tables.project_observations@.len() == 0,
            r.tables.projects@.len() == 0,
            r.tables.quality_metrics@.len() == 0,
            r.tables.taxa@.len() == 0,
            r.tables.taxon_changes@.len() == 0,
            r.tables.users@.len() == 0,
            r.tables.votes@.len() == 0,
    {
        let mut tables = AllTables::new();
        tables.observations = observations;
        Normaliser { header, tables }
    }

    /// Runs the dependency-ordered extraction pipeline and hands back the
    /// filled tables with the batch's metadata: the result is reachable from
    /// the starting tables by the pipeline's passes in order, and a failure
    /// names a pass whose input was unacceptable.
    #[verifier::rlimit(100)]
    pub fn run(self) -> (r: Result<(CacheHeader, AllTables), Error>)
        requires
            self.tables.wf(),
        ensures
            r matches Ok(p) ==> {
                &&& p.0 == self.header
                &&& p.1.wf()
                &&& pipeline_prefix(self.tables, p.1, pipeline_len())
                &&& p.1.observations@.len() == self.tables.observations@.len()
                &&& (forall|i: int|
                    0 <= i < self.tables.observations@.len() ==> (
                    #[trigger] p.1.observations@[i]).0 == self.tables.observations@[i].0)
            },
            r matches Err(e) ==> (exists|k: int, mid: AllTables|
                0 <= k < pipeline_len() && #[trigger] pipeline_prefix(self.tables, mid, k)
                    && !pipeline_accepts(k, mid)),
    {
        let mut t = self.tables;
        let ghost start = t;
        let ghost g0 = t;
        match pass_group_annotations(&mut t) {
            Err(e) => {
                proof {
                    let (k, mid) = choose|k: int, mid: AllTables|
                        0 <= k < 6 && #[trigger] pipeline_range(g0, mid, 0, k)
                            && !pipeline_accepts(k, mid);
                    assert(pipeline_prefix(start, mid, k));
                }
                return Err(e);
            },
            Ok(()) => {},
        }
        proof {
            assert(pipeline_range(g0, t, 0, 6));

        }
        let ghost g1 = t;
        match pass_group_observation_children(&mut t) {
            Err(e) => {
                proof {
                    let (k, mid) = choose|k: int, mid: AllTables|
                        6 <= k < 11 && #[trigger] pipeline_range(g1, mid, 6, k)
                            && !pipeline_accepts(k, mid);
                    lemma_range_concat(start, g1, mid, 0, 6, k);
                    assert(pipeline_prefix(start, mid, k));
                }
                return Err(e);
            },
            Ok(()) => {},
        }
        proof {
            assert(pipeline_range(g1, t, 6, 11));
            lemma_range_concat(start, g1, t, 0, 6, 11);
        }
        let ghost g2 = t;
        match pass_group_labels_taxa(&mut t) {
            Err(e) => {
                proof {
                    let (k, mid) = choose|k: int, mid: AllTables|
                        11 <= k < 18 && #[trigger] pipeline_range(g2, mid, 11, k)
                            && !pipeline_accepts(k, mid);
                    lemma_range_concat(start, g2, mid, 0, 11, k);
                    assert(pipeline_prefix(start, mid, k));
                }
                return Err(e);
            },
            Ok(()) => {},
        }
        proof {
            assert(pipeline_range(g2, t, 11, 18));
            lemma_range_concat(start, g2, t, 0, 11, 18);
        }
        let ghost g3 = t;
        match pass_group_fields_projects(&mut t) {
            Err(e) => {
                proof {
                    let (k, mid) = choose|k: int, mid: AllTables|
                        18 <= k < 22 && #[trigger] pipeline_range(g3, mid, 18, k)
                            && !pipeline_accepts(k, mid);
                    lemma_range_concat(start, g3, mid, 0, 18, k);
                    assert(pipeline_prefix(start, mid, k));
                }
                return Err(e);
            },
            Ok(()) => {},
        }
        proof {
            assert(pipeline_range(g3, t, 18, 22));
            lemma_range_concat(start, g3, t, 0, 18, 22);
        }
        let ghost g4 = t;
        match pass_group_flags_photos(&mut t) {
            Err(e) => {
                proof {
                    let (k, mid) = choose|k: int, mid: AllTables|
                        22 <= k < 30 && #[trigger] pipeline_range(g4, mid, 22, k)
                            && !pipeline_accepts(k, mid);
                    lemma_range_concat(start, g4, mid, 0, 22, k);
                    assert(pipeline_prefix(start, mid, k));
                }
                return Err(e);
            },
            Ok(()) => {},
        }
        proof {
            assert(pipeline_range(g4, t, 22, 30));
            lemma_range_concat(start, g4, t, 0, 22, 30);
        }
        let ghost g5 = t;
        match pass_group_users(&mut t) {
            Err(e) => {
                proof {
                    let (k, mid) = choose|k: int, mid: AllTables|
                        30 <= k < 38 && #[trigger] pipeline_range(g5, mid, 30, k)
                            && !pipeline_accepts(k, mid);
                    lemma_range_concat(start, g5, mid, 0, 30, k);
                    assert(pipeline_prefix(start, mid, k));
                }
                return Err(e);
            },
            Ok(()) => {},
        }
        proof {
            assert(pipeline_range(g5, t, 30, 38));
            lemma_range_concat(start, g5, t, 0, 30, 38);
        }
        proof {
            assert(pipeline_prefix(start, t, pipeline_len()));
        }
        Ok((self.header, t))
    }
}

} // verus!
