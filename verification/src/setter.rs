//! The key-path upsert: walk the document along the path segments, create
//! intermediate objects where a segment is missing, and write the string
//! value at the last segment. Descending through anything that is not an
//! object is the one failure.

use vstd::prelude::*;

use crate::json::{
    entries_view, json_view, lemma_entries_view_index, lemma_key_index_absent,
    lemma_key_index_of_first, obj_get, obj_put, Json, JsonValue,
};
use crate::keypath::{split_dots, split_key_path};

verus! {

broadcast use lemma_entries_view_index;

/// Why a `set` refused to work.
#[derive(Debug, Clone, Copy, PartialEq, Eq, Structural)]
pub enum SetError {
    /// A non-terminal path segment landed on a node that is not an object.
    InvalidStructure,
}

/// What setting `value` at `segs` makes of `doc`: `None` when some segment
/// of the walk lands on a non-object node, otherwise the updated document.
/// A missing intermediate key is created as an empty object; the last
/// segment is inserted or overwritten with the string value.
pub open spec fn set_spec(doc: Json, segs: Seq<Seq<char>>, value: Seq<char>) -> Option<Json>
    recommends
        segs.len() >= 1,
    decreases segs.len(),
{
    match doc {
        Json::Obj(entries) => {
            if segs.len() <= 1 {
                Some(Json::Obj(obj_put(entries, segs[0], Json::Str(value))))
            } else {
                let child = match obj_get(entries, segs[0]) {
                    Some(c) => c,
                    None => Json::Obj(Seq::empty()),
                };
                match set_spec(child, segs.drop_first(), value) {
                    Some(c2) => Some(Json::Obj(obj_put(entries, segs[0], c2))),
                    None => None,
                }
            }
        },
        _ => None,
    }
}

/// Whether setting a value at `segs` overwrites an existing node: the walk
/// reaches the last segment through existing objects and finds its key
/// already present. This is the condition for the overwrite diagnostic.
pub open spec fn overwrite_spec(doc: Json, segs: Seq<Seq<char>>) -> bool
    recommends
        segs.len() >= 1,
    decreases segs.len(),
{
    match doc {
        Json::Obj(entries) => {
            if segs.len() <= 1 {
                obj_get(entries, segs[0]) is Some
            } else {
                match obj_get(entries, segs[0]) {
                    Some(c) => overwrite_spec(c, segs.drop_first()),
                    None => false,
                }
            }
        },
        _ => false,
    }
}

/// The node reached by walking `doc` along `segs`, if every step goes
/// through an object that has the segment as a key.
pub open spec fn resolve_spec(doc: Json, segs: Seq<Seq<char>>) -> Option<Json>
    decreases segs.len(),
{
    if segs.len() == 0 {
        Some(doc)
    } else {
        match doc {
            Json::Obj(entries) => match obj_get(entries, segs[0]) {
                Some(c) => resolve_spec(c, segs.drop_first()),
                None => None,
            },
            _ => None,
        }
    }
}

/// On an empty object a set always works, and never overwrites.
pub proof fn lemma_set_on_empty_obj(segs: Seq<Seq<char>>, value: Seq<char>)
    requires
        segs.len() >= 1,
    ensures
        set_spec(Json::Obj(Seq::empty()), segs, value) is Some,
        !overwrite_spec(Json::Obj(Seq::empty()), segs),
    decreases segs.len(),
{
    if segs.len() > 1 {
        lemma_set_on_empty_obj(segs.drop_first(), value);
    }
}

/// Position of the first entry whose key equals `key`.
fn find_key(entries: &Vec<(String, JsonValue)>, key: &String) -> (r: Option<usize>)
    ensures
        match r {
            Some(j) => {
                &&& (j as int) < entries@.len()
                &&& entries@[j as int].0@ == key@
                &&& forall|k: int| 0 <= k < j as int ==> entries@[k].0@ != key@
            },
            None => forall|k: int| 0 <= k < entries@.len() ==> entries@[k].0@ != key@,
        },
{
    let mut j: usize = 0;
    while j < entries.len()
        invariant
            j <= entries@.len(),
            forall|k: int| 0 <= k < j as int ==> entries@[k].0@ != key@,
        decreases entries@.len() - j,
    {
        if entries[j].0 == *key {
            return Some(j);
        }
        j += 1;
    }
    None
}

/// The recursive engine: consumes the document, returns the updated one
/// together with the overwrite flag, or gives the document back untouched
/// (up to its model) when a walked-through node is not an object.
fn set_at(doc: JsonValue, segments: &Vec<String>, i: usize, value: &str) -> (r: Result<
    (JsonValue, bool),
    JsonValue,
>)
    requires
        i < segments@.len(),
    ensures
        match r {
            Ok(p) => {
                &&& set_spec(json_view(doc), segments.deep_view().skip(i as int), value@) == Some(
                    json_view(p.0),
                )
                &&& p.1 == overwrite_spec(json_view(doc), segments.deep_view().skip(i as int))
            },
            Err(d) => {
                &&& set_spec(json_view(doc), segments.deep_view().skip(i as int), value@) is None
                &&& json_view(d) == json_view(doc)
            },
        },
    decreases segments@.len() - i,
{
    let ghost segs = segments.deep_view().skip(i as int);
    proof {
        assert(segs[0] == segments@[i as int]@);
    }
    match doc {
        JsonValue::Obj(mut entries) => {
            let ghost old_entries = entries@;
            let ghost ventries = entries_view(entries@);
            let key = &segments[i];
            let n = segments.len();
            let last = i == n - 1;
            match find_key(&entries, key) {
                Some(j) => {
                    proof {
                        assert(ventries[j as int].0 == old_entries[j as int].0@);
                        assert forall|k: int| 0 <= k < j as int implies ventries[k].0 != key@ by {
                            assert(ventries[k].0 == old_entries[k].0@);
                        }
                        lemma_key_index_of_first(ventries, key@, j as int);
                    }
                    let (child_key, child) = entries.remove(j);
                    if last {
                        entries.insert(j, (child_key, JsonValue::Str(value.to_owned())));
                        proof {
                            let put = obj_put(ventries, key@, Json::Str(value@));
                            assert(entries_view(entries@) =~= put);
                        }
                        Ok((JsonValue::Obj(entries), true))
                    } else {
                        match set_at(child, segments, i + 1, value) {
                            Ok((c2, overwrote)) => {
                                entries.insert(j, (child_key, c2));
                                proof {
                                    assert(segs.drop_first() =~= segments.deep_view().skip(
                                        i as int + 1,
                                    ));
                                    let put = obj_put(ventries, key@, json_view(c2));
                                    assert(entries_view(entries@) =~= put);
                                }
                                Ok((JsonValue::Obj(entries), overwrote))
                            },
                            Err(c0) => {
                                entries.insert(j, (child_key, c0));
                                proof {
                                    assert(segs.drop_first() =~= segments.deep_view().skip(
                                        i as int + 1,
                                    ));
                                    assert(entries_view(entries@) =~= ventries);
                                }
                                Err(JsonValue::Obj(entries))
                            },
                        }
                    }
                },
                None => {
                    proof {
                        assert forall|k: int| 0 <= k < ventries.len() implies ventries[k].0
                            != key@ by {
                            assert(ventries[k].0 == old_entries[k].0@);
                        }
                        lemma_key_index_absent(ventries, key@);
                    }
                    if last {
                        entries.push((key.clone(), JsonValue::Str(value.to_owned())));
                        proof {
                            let put = obj_put(ventries, key@, Json::Str(value@));
                            assert(entries_view(entries@) =~= put);
                        }
                        Ok((JsonValue::Obj(entries), false))
                    } else {
                        let fresh = JsonValue::Obj(Vec::new());
                        proof {
                            assert(json_view(fresh) == Json::Obj(Seq::<(Seq<char>, Json)>::empty()));
                            assert(segs.drop_first() =~= segments.deep_view().skip(i as int + 1));
                        }
                        match set_at(fresh, segments, i + 1, value) {
                            Ok((c2, _overwrote)) => {
                                entries.push((key.clone(), c2));
                                proof {
                                    lemma_set_on_empty_obj(segs.drop_first(), value@);
                                    let put = obj_put(ventries, key@, json_view(c2));
                                    assert(entries_view(entries@) =~= put);
                                }
                                Ok((JsonValue::Obj(entries), false))
                            },
                            Err(c0) => {
                                // A set on a fresh empty object cannot fail.
                                proof {
                                    lemma_set_on_empty_obj(segs.drop_first(), value@);
                                    assert(false);
                                }
                                Err(c0)
                            },
                        }
                    }
                },
            }
        },
        other => {
            proof {
                assert(json_view(other) == json_view(doc));
            }
            Err(other)
        },
    }
}

/// Set `value` at the already-split path `segments`, mutating the document
/// in place. Returns whether an existing node was overwritten (the condition
/// for the overwrite diagnostic), or `InvalidStructure` when a walked-through
/// node is not an object; on failure the document keeps its old model.
pub fn set_path(doc: &mut JsonValue, segments: &Vec<String>, value: &str) -> (r: Result<
    bool,
    SetError,
>)
    requires
        segments@.len() >= 1,
    ensures
        match r {
            Ok(overwrote) => {
                &&& set_spec(old(doc)@, segments.deep_view(), value@) == Some(final (doc)@)
                &&& overwrote == overwrite_spec(old(doc)@, segments.deep_view())
            },
            Err(e) => {
                &&& e == SetError::InvalidStructure
                &&& set_spec(old(doc)@, segments.deep_view(), value@) is None
                &&& final (doc)@ == old(doc)@
            },
        },
        r is Ok <==> set_spec(old(doc)@, segments.deep_view(), value@) is Some,
        crate::json::wf(old(doc)@) && r is Ok ==> crate::json::wf(final (doc)@),
{
    let mut taken = JsonValue::Null;
    core::mem::swap(doc, &mut taken);
    proof {
        assert(segments.deep_view().skip(0) =~= segments.deep_view());
    }
    match set_at(taken, segments, 0, value) {
        Ok((d2, overwrote)) => {
            proof {
                if crate::json::wf(json_view(taken)) {
                    crate::laws::lemma_set_preserves_wf(
                        json_view(taken),
                        segments.deep_view(),
                        value@,
                        json_view(d2),
                    );
                }
            }
            *doc = d2;
            Ok(overwrote)
        },
        Err(d0) => {
            *doc = d0;
            Err(SetError::InvalidStructure)
        },
    }
}

/// Set `value` at the dot-separated `key_path`, mutating the document in
/// place: the behaviour of `set_path` after splitting the path on `.`.
pub fn set_key_path(doc: &mut JsonValue, key_path: &str, value: &str) -> (r: Result<
    bool,
    SetError,
>)
    ensures
        match r {
            Ok(overwrote) => {
                &&& set_spec(old(doc)@, split_dots(key_path@), value@) == Some(final (doc)@)
                &&& overwrote == overwrite_spec(old(doc)@, split_dots(key_path@))
            },
            Err(e) => {
                &&& e == SetError::InvalidStructure
                &&& set_spec(old(doc)@, split_dots(key_path@), value@) is None
                &&& final (doc)@ == old(doc)@
            },
        },
        r is Ok <==> set_spec(old(doc)@, split_dots(key_path@), value@) is Some,
        crate::json::wf(old(doc)@) && r is Ok ==> crate::json::wf(final (doc)@),
{
    let segments = split_key_path(key_path);
    set_path(doc, &segments, value)
}

/// Walk the document along `segments` and hand back the node found there.
pub fn resolve<'a>(doc: &'a JsonValue, segments: &Vec<String>) -> (r: Option<&'a JsonValue>)
    ensures
        match r {
            Some(node) => resolve_spec(doc@, segments.deep_view()) == Some(node@),
            None => resolve_spec(doc@, segments.deep_view()) is None,
        },
{
    let mut cur: &JsonValue = doc;
    let mut i: usize = 0;
    proof {
        assert(segments.deep_view().skip(0) =~= segments.deep_view());
    }
    while i < segments.len()
        invariant
            i <= segments@.len(),
            resolve_spec(doc@, segments.deep_view()) == resolve_spec(
                cur@,
                segments.deep_view().skip(i as int),
            ),
        decreases segments@.len() - i,
    {
        let ghost rest = segments.deep_view().skip(i as int);
        proof {
            assert(rest[0] == segments@[i as int]@);
        }
        match cur {
            JsonValue::Obj(entries) => {
                let ghost ventries = entries_view(entries@);
                match find_key(entries, &segments[i]) {
                    Some(j) => {
                        proof {
                            assert(ventries[j as int].0 == entries@[j as int].0@);
                            assert forall|k: int| 0 <= k < j as int implies ventries[k].0
                                != segments@[i as int]@ by {
                                assert(ventries[k].0 == entries@[k].0@);
                            }
                            lemma_key_index_of_first(ventries, segments@[i as int]@, j as int);
                            assert(rest.drop_first() =~= segments.deep_view().skip(i as int + 1));
                        }
                        cur = &entries[j].1;
                        i += 1;
                    },
                    None => {
                        proof {
                            assert forall|k: int| 0 <= k < ventries.len() implies ventries[k].0
                                != segments@[i as int]@ by {
                                assert(ventries[k].0 == entries@[k].0@);
                            }
                            lemma_key_index_absent(ventries, segments@[i as int]@);
                        }
                        return None;
                    },
                }
            },
            _ => {
                return None;
            },
        }
    }
    proof {
        assert(segments.deep_view().skip(i as int) =~= Seq::<Seq<char>>::empty());
    }
    Some(cur)
}

/// Walk the document along the dot-separated `key_path`.
pub fn resolve_key_path<'a>(doc: &'a JsonValue, key_path: &str) -> (r: Option<&'a JsonValue>)
    ensures
        match r {
            Some(node) => resolve_spec(doc@, split_dots(key_path@)) == Some(node@),
            None => resolve_spec(doc@, split_dots(key_path@)) is None,
        },
{
    let segments = split_key_path(key_path);
    resolve(doc, &segments)
}

} // verus!
