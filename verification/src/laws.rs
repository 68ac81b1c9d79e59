use vstd::prelude::*;

use crate::index::{doc_scalar, idx_has};
use crate::nums::{dec_val, is_dec, lemma_dec_roundtrip, spec_dec};
use crate::query::{has_op_key, spec_matches};
use crate::smap::skey_get;
use crate::storage::{Document, Rack, StorageEngine, spec_find};
use crate::value::{
    Jv, keys_unique, lemma_obj_get_index, lemma_wf_pairs, lemma_wf_seq, spec_eq, wf_jv, wf_pairs,
    wf_seq,
};

verus! {

/// No object anywhere in the tree carries an operator-tagged key, so the
/// value can be used as a query that matches itself.
pub open spec fn op_free(v: Jv) -> bool
    decreases v,
    via op_free_decreases
{
    match v {
        Jv::Arr(items) => op_free_seq(items),
        Jv::Obj(pairs) => !has_op_key(pairs) && op_free_pairs(pairs),
        _ => true,
    }
}

pub open spec fn op_free_seq(s: Seq<Jv>) -> bool
    decreases s,
    via op_free_seq_decreases
{
    s.len() == 0 || (op_free(s[0]) && op_free_seq(s.drop_first()))
}

pub open spec fn op_free_pairs(s: Seq<(Seq<char>, Jv)>) -> bool
    decreases s,
    via op_free_pairs_decreases
{
    s.len() == 0 || (op_free(s[0].1) && op_free_pairs(s.drop_first()))
}

#[via_fn]
proof fn op_free_decreases(v: Jv) {
    match v {
        Jv::Arr(x) => {
            assert(decreases_to!(v => v->Arr_0));
        },
        Jv::Obj(x) => {
            assert(decreases_to!(v => v->Obj_0));
        },
        _ => {},
    }
}

#[via_fn]
proof fn op_free_seq_decreases(s: Seq<Jv>) {
    if s.len() > 0 {
        assert(decreases_to!(s => s[0]));
    }
}

#[via_fn]
proof fn op_free_pairs_decreases(s: Seq<(Seq<char>, Jv)>) {
    if s.len() > 0 {
        assert(decreases_to!(s => s[0]));
        assert(decreases_to!(s[0] => s[0].1));
    }
}

/// Element access for `op_free_pairs`.
pub broadcast proof fn lemma_op_free_pairs(s: Seq<(Seq<char>, Jv)>)
    ensures
        #[trigger] op_free_pairs(s) <==> (forall|i: int|
            0 <= i < s.len() ==> op_free((#[trigger] s[i]).1)),
    decreases s.len(),
{
    if s.len() > 0 {
        lemma_op_free_pairs(s.drop_first());
        if op_free_pairs(s) {
            assert forall|i: int| 0 <= i < s.len() implies op_free((#[trigger] s[i]).1) by {
                if i > 0 {
                    assert(s.drop_first()[i - 1] == s[i]);
                }
            }
        }
        if forall|i: int| 0 <= i < s.len() ==> op_free((#[trigger] s[i]).1) {
            assert forall|i: int|
                0 <= i < s.drop_first().len() implies op_free(
                (#[trigger] s.drop_first()[i]).1,
            ) by {
                assert(s.drop_first()[i] == s[i + 1]);
            }
            assert(op_free_pairs(s));
        }
    }
}

/// Deep structural equality is reflexive on well-formed values.
pub proof fn lemma_spec_eq_refl(v: Jv)
    requires
        wf_jv(v),
    ensures
        spec_eq(v, v),
    decreases v,
{
    match v {
        Jv::Arr(x) => {
            lemma_wf_seq(x);
            assert forall|i: int| 0 <= i < x.len() implies spec_eq(#[trigger] x[i], x[i]) by {
                assert(decreases_to!(v => v->Arr_0));
                assert(decreases_to!(v->Arr_0 => v->Arr_0[i]));
                lemma_spec_eq_refl(x[i]);
            }
        },
        Jv::Obj(x) => {
            lemma_wf_pairs(x);
            assert forall|i: int|
                0 <= i < x.len() implies match crate::value::spec_obj_get(x, (#[trigger] x[i]).0) {
                Some(bv) => spec_eq(x[i].1, bv),
                None => false,
            } by {
                lemma_obj_get_index(x, i);
                assert(decreases_to!(v => v->Obj_0));
                assert(decreases_to!(v->Obj_0 => v->Obj_0[i]));
                assert(decreases_to!(v->Obj_0[i] => v->Obj_0[i].1));
                lemma_spec_eq_refl(x[i].1);
            }
            assert forall|j: int|
                0 <= j < x.len() implies crate::value::spec_obj_get(x, (#[trigger] x[j]).0)
                is Some by {
                lemma_obj_get_index(x, j);
            }
        },
        _ => {},
    }
}

/// A well-formed, operator-free value, used as a query, matches itself.
pub proof fn lemma_matches_self(v: Jv)
    requires
        wf_jv(v),
        op_free(v),
    ensures
        spec_matches(v, v),
    decreases v,
{
    match v {
        Jv::Obj(x) => {
            lemma_wf_pairs(x);
            lemma_op_free_pairs(x);
            assert(!has_op_key(x));
            assert forall|i: int|
                0 <= i < x.len() implies match crate::value::spec_obj_get(x, (#[trigger] x[i]).0) {
                Some(dv) => spec_matches(dv, x[i].1),
                None => false,
            } by {
                lemma_obj_get_index(x, i);
                assert(decreases_to!(v => v->Obj_0));
                assert(decreases_to!(v->Obj_0 => v->Obj_0[i]));
                assert(decreases_to!(v->Obj_0[i] => v->Obj_0[i].1));
                lemma_matches_self(x[i].1);
            }
        },
        _ => {
            lemma_spec_eq_refl(v);
        },
    }
}

/// Round trip: a freshly inserted document is among the results of a find
/// whose query is the document's own operator-free data.
pub proof fn lemma_insert_then_find(r0: Rack, r1: Rack, data: Jv)
    requires
        r1.documents@.len() == r0.documents@.len() + 1,
        r1.documents@.drop_last() == r0.documents@,
        r1.documents@.last().1.data@ == data,
        wf_jv(data),
        op_free(data),
    ensures
        spec_find(r1.documents@, data).len() > 0,
        spec_find(r1.documents@, data).last() == r1.documents@.last().1,
{
    lemma_matches_self(data);
    assert(spec_matches(r1.documents@.last().1.data@, data));
    assert(spec_find(r1.documents@, data) == spec_find(r0.documents@, data) + seq![
        r1.documents@.last().1
    ]);
}

/// Idempotent miss: registering the same database name twice succeeds once,
/// then reports the existing entry and leaves the engine unchanged.
pub proof fn lemma_create_database_twice(
    e0: StorageEngine,
    e1: StorageEngine,
    e2: StorageEngine,
    r1: bool,
    r2: bool,
    name: Seq<char>,
)
    requires
        e0.db_of(name) is None,
        r1 == (e0.db_of(name) is None),
        r1 ==> e1.db_of(name) is Some,
        !r1 ==> e1 == e0,
        r2 == (e1.db_of(name) is None),
        !r2 ==> e2 == e1,
    ensures
        r1 == true,
        r2 == false,
        e2 == e1,
{
}

/// Idempotent miss: creating the same rack twice in a database succeeds
/// once, then reports the existing entry and leaves the engine unchanged.
pub proof fn lemma_create_rack_twice(
    e0: StorageEngine,
    e1: StorageEngine,
    e2: StorageEngine,
    b1: bool,
    b2: bool,
    db: Seq<char>,
    rk: Seq<char>,
)
    requires
        crate::storage::rack_of(e0, db, rk) is None,
        b1 == (crate::storage::rack_of(e0, db, rk) is None),
        b1 ==> crate::storage::rack_of(e1, db, rk) is Some,
        b2 == (crate::storage::rack_of(e1, db, rk) is None),
        !b2 ==> e2.databases@ == e1.databases@,
    ensures
        b1 == true,
        b2 == false,
        e2.databases@ == e1.databases@,
{
}

/// Identifier monotonicity: ids issued by consecutive inserts are strictly
/// increasing decimal integers, and a fresh rack issues "1" first.
pub proof fn lemma_insert_ids_monotonic(n1: u64, n2: u64, id1: Seq<char>, id2: Seq<char>)
    requires
        id1 == spec_dec(n1 as nat),
        id2 == spec_dec(n2 as nat),
        n1 < n2,
    ensures
        is_dec(id1),
        is_dec(id2),
        dec_val(id1) < dec_val(id2),
        n1 == 1 ==> dec_val(id1) == 1,
{
    lemma_dec_roundtrip(n1 as nat);
    lemma_dec_roundtrip(n2 as nat);
}

/// Reload consistency: in a well-formed rack every stored numeric id lies
/// below the counter, so the next issued id exceeds every one of them.
pub proof fn lemma_reload_advances_ids(r: Rack, i: int)
    requires
        r.wf(),
        0 <= i < r.documents@.len(),
        is_dec(r.documents@[i].1.id@),
        dec_val(r.documents@[i].1.id@) <= u64::MAX as int,
    ensures
        dec_val(r.documents@[i].1.id@) < dec_val(spec_dec(r.next_id as nat)),
{
    lemma_dec_roundtrip(r.next_id as nat);
}

/// Index consistency: a rack's index holds an id under a field/value pair
/// exactly when the mapped document's data carries that indexable field.
pub proof fn lemma_index_consistency(r: Rack, f: Seq<char>, vs: Seq<char>, id: Seq<char>)
    requires
        r.wf(),
    ensures
        idx_has(r.index@, f, vs, id) <==> (match skey_get(r.documents@, id) {
            Some(d) => doc_scalar(d.data@, f, vs),
            None => false,
        }),
{
}

/// After a delete, no search can return the deleted id.
pub proof fn lemma_deleted_not_indexed(r: Rack, f: Seq<char>, vs: Seq<char>, id: Seq<char>)
    requires
        r.wf(),
        r.doc_of(id) is None,
    ensures
        !idx_has(r.index@, f, vs, id),
{
}

} // verus!
