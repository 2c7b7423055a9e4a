//! The laws of the key-path setter, each proved for every document, path and
//! value: a successful set is visible when the path is resolved, setting the
//! same value twice changes nothing more, and well-formedness is preserved.

use vstd::prelude::*;

use crate::json::{
    lemma_key_index_characterization, lemma_obj_put_get, lemma_obj_put_idempotent,
    lemma_obj_put_keys_unique, obj_get, obj_put, wf, Json,
};
use crate::keypath::valid_key_path;
use crate::setter::{overwrite_spec, resolve_spec, set_spec};

verus! {

/// The resolution outcome is an object node.
pub open spec fn is_obj_node(r: Option<Json>) -> bool {
    r matches Some(n) && n is Obj
}

/// After a successful set, resolving the key path yields exactly the string
/// value that was set, and every proper prefix of the path resolves to an
/// object node.
pub proof fn lemma_set_then_resolve(d: Json, segs: Seq<Seq<char>>, value: Seq<char>, d2: Json)
    requires
        valid_key_path(segs),
        set_spec(d, segs, value) == Some(d2),
    ensures
        resolve_spec(d2, segs) == Some(Json::Str(value)),
        forall|k: int|
            0 <= k < segs.len() ==> is_obj_node(#[trigger] resolve_spec(d2, segs.take(k))),
    decreases segs.len(),
{
    let entries = d->Obj_0;
    let key = segs[0];
    if segs.len() == 1 {
        lemma_obj_put_get(entries, key, Json::Str(value));
        assert(segs.drop_first().len() == 0);
        assert(resolve_spec(Json::Str(value), segs.drop_first()) == Some(Json::Str(value)));
        assert forall|k: int| 0 <= k < segs.len() implies is_obj_node(
            #[trigger] resolve_spec(d2, segs.take(k)),
        ) by {
            assert(segs.take(0) =~= Seq::<Seq<char>>::empty());
        }
    } else {
        let child = match obj_get(entries, key) {
            Some(c) => c,
            None => Json::Obj(Seq::empty()),
        };
        let rest = segs.drop_first();
        let c2 = set_spec(child, rest, value)->Some_0;
        assert(d2 == Json::Obj(obj_put(entries, key, c2)));
        lemma_obj_put_get(entries, key, c2);
        assert forall|i: int| 0 <= i < rest.len() implies rest[i].len() > 0 by {
            assert(rest[i] == segs[i + 1]);
        }
        lemma_set_then_resolve(child, rest, value, c2);
        assert(resolve_spec(d2, segs) == resolve_spec(c2, rest));
        assert forall|k: int| 0 <= k < segs.len() implies is_obj_node(
            #[trigger] resolve_spec(d2, segs.take(k)),
        ) by {
            if k == 0 {
                assert(segs.take(0) =~= Seq::<Seq<char>>::empty());
            } else {
                let prefix = segs.take(k);
                assert(prefix[0] == key);
                assert(prefix.drop_first() =~= rest.take(k - 1));
                assert(resolve_spec(d2, prefix) == resolve_spec(c2, rest.take(k - 1)));
            }
        }
    }
}

/// Setting the same value at the same path a second time yields the same
/// document again, and the second set finds the value already present: it
/// reports an overwrite.
pub proof fn lemma_set_idempotent(d: Json, segs: Seq<Seq<char>>, value: Seq<char>, d2: Json)
    requires
        valid_key_path(segs),
        set_spec(d, segs, value) == Some(d2),
    ensures
        set_spec(d2, segs, value) == Some(d2),
        overwrite_spec(d2, segs),
    decreases segs.len(),
{
    let entries = d->Obj_0;
    let key = segs[0];
    if segs.len() == 1 {
        lemma_obj_put_get(entries, key, Json::Str(value));
        lemma_obj_put_idempotent(entries, key, Json::Str(value));
    } else {
        let child = match obj_get(entries, key) {
            Some(c) => c,
            None => Json::Obj(Seq::empty()),
        };
        let rest = segs.drop_first();
        let c2 = set_spec(child, rest, value)->Some_0;
        assert(d2 == Json::Obj(obj_put(entries, key, c2)));
        lemma_obj_put_get(entries, key, c2);
        assert forall|i: int| 0 <= i < rest.len() implies rest[i].len() > 0 by {
            assert(rest[i] == segs[i + 1]);
        }
        lemma_set_idempotent(child, rest, value, c2);
        lemma_obj_put_idempotent(entries, key, c2);
    }
}

/// A successful set keeps the document well formed: no object in the tree
/// acquires a duplicate key.
pub proof fn lemma_set_preserves_wf(d: Json, segs: Seq<Seq<char>>, value: Seq<char>, d2: Json)
    requires
        segs.len() >= 1,
        wf(d),
        set_spec(d, segs, value) == Some(d2),
    ensures
        wf(d2),
    decreases segs.len(),
{
    let entries = d->Obj_0;
    let key = segs[0];
    lemma_key_index_characterization(entries, key);
    if segs.len() == 1 {
        let put = obj_put(entries, key, Json::Str(value));
        lemma_obj_put_keys_unique(entries, key, Json::Str(value));
        assert forall|i: int| 0 <= i < put.len() implies wf(#[trigger] put[i].1) by {}
    } else {
        let child = match obj_get(entries, key) {
            Some(c) => c,
            None => Json::Obj(Seq::empty()),
        };
        assert(wf(child));
        let rest = segs.drop_first();
        let c2 = set_spec(child, rest, value)->Some_0;
        lemma_set_preserves_wf(child, rest, value, c2);
        let put = obj_put(entries, key, c2);
        lemma_obj_put_keys_unique(entries, key, c2);
        assert forall|i: int| 0 <= i < put.len() implies wf(#[trigger] put[i].1) by {}
    }
}

} // verus!
