//! The JSON document tree: an executable representation, its mathematical
//! model, and the operations on object entries that the key-path setter
//! builds on.

use vstd::prelude::*;

verus! {

/// Mathematical model of a JSON value. Strings are sequences of characters;
/// arrays and objects are sequences, an object entry being a (key, value)
/// pair in insertion order. A number is kept as the sequence of characters
/// of its source text: this library never computes with numbers, it only
/// carries them through unchanged.
pub enum Json {
    Null,
    Bool(bool),
    Num(Seq<char>),
    Str(Seq<char>),
    Arr(Seq<Json>),
    Obj(Seq<(Seq<char>, Json)>),
}

/// Executable JSON document tree. Objects keep their entries as a vector of
/// (key, value) pairs so that insertion order is preserved: existing keys are
/// updated in place, new keys append at the end of their containing object.
#[derive(Debug, PartialEq)]
pub enum JsonValue {
    Null,
    Bool(bool),
    Num(String),
    Str(String),
    Arr(Vec<JsonValue>),
    Obj(Vec<(String, JsonValue)>),
}

/// The model of an executable document.
pub open spec fn json_view(v: JsonValue) -> Json
    decreases v,
{
    match v {
        JsonValue::Null => Json::Null,
        JsonValue::Bool(b) => Json::Bool(b),
        JsonValue::Num(s) => Json::Num(s@),
        JsonValue::Str(s) => Json::Str(s@),
        JsonValue::Arr(items) => Json::Arr(arr_view(items@)),
        JsonValue::Obj(entries) => Json::Obj(entries_view(entries@)),
    }
}

/// The model of a sequence of array elements.
pub open spec fn arr_view(items: Seq<JsonValue>) -> Seq<Json>
    decreases items,
{
    if items.len() == 0 {
        Seq::empty()
    } else {
        seq![json_view(items[0])] + arr_view(items.drop_first())
    }
}

/// The model of a sequence of object entries.
pub open spec fn entries_view(entries: Seq<(String, JsonValue)>) -> Seq<(Seq<char>, Json)>
    decreases entries,
{
    if entries.len() == 0 {
        Seq::empty()
    } else {
        seq![(entries[0].0@, json_view(entries[0].1))] + entries_view(entries.drop_first())
    }
}

impl View for JsonValue {
    type V = Json;

    open spec fn view(&self) -> Json {
        json_view(*self)
    }
}

/// `entries_view` maps the entries one for one.
pub broadcast proof fn lemma_entries_view_index(entries: Seq<(String, JsonValue)>)
    ensures
        #![trigger entries_view(entries)]
        entries_view(entries).len() == entries.len(),
        forall|i: int|
            0 <= i < entries.len() ==> entries_view(entries)[i] == (
            entries[i].0@,
            json_view(entries[i].1),
            ),
    decreases entries.len(),
{
    if entries.len() > 0 {
        lemma_entries_view_index(entries.drop_first());
        assert forall|i: int| 0 <= i < entries.len() implies entries_view(entries)[i] == (
            entries[i].0@,
            json_view(entries[i].1),
        ) by {
            if i > 0 {
                assert(entries.drop_first()[i - 1] == entries[i]);
            }
        }
    }
}

/// Index of the first entry whose key equals `key`, or -1 if no entry has
/// that key.
pub open spec fn key_index(entries: Seq<(Seq<char>, Json)>, key: Seq<char>) -> int
    decreases entries.len(),
{
    if entries.len() == 0 {
        -1
    } else if entries[0].0 == key {
        0
    } else {
        let r = key_index(entries.drop_first(), key);
        if r == -1 {
            -1
        } else {
            r + 1
        }
    }
}

/// The value at `key` among object entries: the first entry with that key
/// decides, matching lookup in the executable tree.
pub open spec fn obj_get(entries: Seq<(Seq<char>, Json)>, key: Seq<char>) -> Option<Json> {
    let r = key_index(entries, key);
    if r == -1 {
        None
    } else {
        Some(entries[r].1)
    }
}

/// Upsert among object entries: an existing key keeps its position and gets
/// the new value; a new key appends at the end.
pub open spec fn obj_put(entries: Seq<(Seq<char>, Json)>, key: Seq<char>, v: Json) -> Seq<
    (Seq<char>, Json),
> {
    let r = key_index(entries, key);
    if r == -1 {
        entries.push((key, v))
    } else {
        entries.update(r, (key, v))
    }
}

/// No two entries share a key.
pub open spec fn keys_unique(entries: Seq<(Seq<char>, Json)>) -> bool {
    forall|i: int, j: int| 0 <= i < j < entries.len() ==> entries[i].0 != entries[j].0
}

/// Well-formedness of a document: every object in the tree has pairwise
/// distinct keys.
pub open spec fn wf(doc: Json) -> bool
    decreases doc,
{
    match doc {
        Json::Arr(items) => forall|i: int| 0 <= i < items.len() ==> wf(#[trigger] items[i]),
        Json::Obj(entries) => keys_unique(entries) && forall|i: int|
            0 <= i < entries.len() ==> wf(#[trigger] entries[i].1),
        _ => true,
    }
}

/// `key_index` returns -1 exactly when no entry has the key; otherwise it
/// returns the position of the first entry with the key.
pub proof fn lemma_key_index_characterization(entries: Seq<(Seq<char>, Json)>, key: Seq<char>)
    ensures
        -1 <= key_index(entries, key) < entries.len(),
        key_index(entries, key) == -1 ==> forall|k: int|
            0 <= k < entries.len() ==> entries[k].0 != key,
        key_index(entries, key) >= 0 ==> entries[key_index(entries, key)].0 == key,
        forall|k: int| 0 <= k < key_index(entries, key) ==> entries[k].0 != key,
    decreases entries.len(),
{
    if entries.len() == 0 {
    } else if entries[0].0 == key {
    } else {
        lemma_key_index_characterization(entries.drop_first(), key);
        assert forall|k: int| 1 <= k < entries.len() implies entries.drop_first()[k - 1]
            == entries[k] by {}
    }
}

/// The first position holding the key is what `key_index` returns.
pub proof fn lemma_key_index_of_first(entries: Seq<(Seq<char>, Json)>, key: Seq<char>, j: int)
    requires
        0 <= j < entries.len(),
        entries[j].0 == key,
        forall|k: int| 0 <= k < j ==> entries[k].0 != key,
    ensures
        key_index(entries, key) == j,
    decreases entries.len(),
{
    if j == 0 {
    } else {
        assert(entries[0].0 != key);
        assert forall|k: int| 0 <= k < j - 1 implies entries.drop_first()[k].0 != key by {
            assert(entries.drop_first()[k] == entries[k + 1]);
        }
        assert(entries.drop_first()[j - 1] == entries[j]);
        lemma_key_index_of_first(entries.drop_first(), key, j - 1);
    }
}

/// When no entry has the key, `key_index` returns -1.
pub proof fn lemma_key_index_absent(entries: Seq<(Seq<char>, Json)>, key: Seq<char>)
    requires
        forall|k: int| 0 <= k < entries.len() ==> entries[k].0 != key,
    ensures
        key_index(entries, key) == -1,
    decreases entries.len(),
{
    if entries.len() == 0 {
    } else {
        assert forall|k: int| 0 <= k < entries.len() - 1 implies entries.drop_first()[k].0
            != key by {
            assert(entries.drop_first()[k] == entries[k + 1]);
        }
        lemma_key_index_absent(entries.drop_first(), key);
    }
}

/// Reading back the key just written yields the value just written, and every
/// other key is untouched by an upsert.
pub proof fn lemma_obj_put_get(entries: Seq<(Seq<char>, Json)>, key: Seq<char>, v: Json)
    ensures
        obj_get(obj_put(entries, key, v), key) == Some(v),
        forall|other: Seq<char>|
            other != key ==> obj_get(obj_put(entries, key, v), other) == obj_get(entries, other),
{
    lemma_key_index_characterization(entries, key);
    let r = key_index(entries, key);
    let put = obj_put(entries, key, v);
    if r == -1 {
        lemma_key_index_of_first(put, key, entries.len() as int);
    } else {
        lemma_key_index_of_first(put, key, r);
    }
    assert forall|other: Seq<char>| other != key implies obj_get(put, other) == obj_get(
        entries,
        other,
    ) by {
        lemma_key_index_characterization(entries, other);
        let q = key_index(entries, other);
        if q == -1 {
            if r == -1 {
                lemma_key_index_absent(put, other);
            } else {
                lemma_key_index_absent(put, other);
            }
        } else {
            lemma_key_index_of_first(put, other, q);
        }
    }
}

/// Writing the same key and value twice is the same as writing it once.
pub proof fn lemma_obj_put_idempotent(entries: Seq<(Seq<char>, Json)>, key: Seq<char>, v: Json)
    ensures
        obj_put(obj_put(entries, key, v), key, v) == obj_put(entries, key, v),
{
    lemma_key_index_characterization(entries, key);
    let r = key_index(entries, key);
    let put = obj_put(entries, key, v);
    if r == -1 {
        lemma_key_index_of_first(put, key, entries.len() as int);
        assert(obj_put(put, key, v) =~= put);
    } else {
        lemma_key_index_of_first(put, key, r);
        assert(obj_put(put, key, v) =~= put);
    }
}

/// An upsert keeps keys pairwise distinct.
pub proof fn lemma_obj_put_keys_unique(entries: Seq<(Seq<char>, Json)>, key: Seq<char>, v: Json)
    requires
        keys_unique(entries),
    ensures
        keys_unique(obj_put(entries, key, v)),
{
    lemma_key_index_characterization(entries, key);
}

} // verus!
