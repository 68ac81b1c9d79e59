use vstd::prelude::*;

verus! {

/// Mathematical model of a structured value: the view of `Value`.  Objects
/// keep their pairs as a sequence, so the model remembers field order (the
/// order documents are rendered in); equality of objects is nevertheless
/// order-insensitive, see `spec_eq`.
pub enum Jv {
    Null,
    Bool(bool),
    Int(int),
    Str(Seq<char>),
    Arr(Seq<Jv>),
    Obj(Seq<(Seq<char>, Jv)>),
}

/// A structured document value: a closed tagged-variant tree, the payload
/// and query type of the engine.  Numbers are 64-bit signed integers;
/// objects are association lists whose keys are unique when well-formed.
#[derive(Debug)]
pub enum Value {
    Null,
    Bool(bool),
    Int(i64),
    Str(String),
    Arr(Vec<Value>),
    Obj(Vec<(String, Value)>),
}

/// The model of one value.
pub open spec fn jv_of(v: Value) -> Jv
    decreases v,
    via jv_of_decreases
{
    match v {
        Value::Null => Jv::Null,
        Value::Bool(b) => Jv::Bool(b),
        Value::Int(n) => Jv::Int(n as int),
        Value::Str(s) => Jv::Str(s@),
        Value::Arr(items) => Jv::Arr(jvs_of(items@)),
        Value::Obj(pairs) => Jv::Obj(pairs_of(pairs@)),
    }
}

/// The models of a sequence of values, elementwise.
pub open spec fn jvs_of(s: Seq<Value>) -> Seq<Jv>
    decreases s,
    via jvs_of_decreases
{
    if s.len() == 0 {
        Seq::empty()
    } else {
        seq![jv_of(s[0])] + jvs_of(s.drop_first())
    }
}

/// The model of an object's pair list, elementwise.
pub open spec fn pairs_of(s: Seq<(String, Value)>) -> Seq<(Seq<char>, Jv)>
    decreases s,
    via pairs_of_decreases
{
    if s.len() == 0 {
        Seq::empty()
    } else {
        seq![(s[0].0@, jv_of(s[0].1))] + pairs_of(s.drop_first())
    }
}

#[via_fn]
proof fn jv_of_decreases(v: Value) {
    match v {
        Value::Arr(items) => {
            assert(decreases_to!(v => v->Arr_0));
            assert(decreases_to!(v->Arr_0 => v->Arr_0@));
        },
        Value::Obj(pairs) => {
            assert(decreases_to!(v => v->Obj_0));
            assert(decreases_to!(v->Obj_0 => v->Obj_0@));
        },
        _ => {},
    }
}

#[via_fn]
proof fn jvs_of_decreases(s: Seq<Value>) {
    if s.len() > 0 {
        assert(decreases_to!(s => s[0]));
    }
}

#[via_fn]
proof fn pairs_of_decreases(s: Seq<(String, Value)>) {
    if s.len() > 0 {
        assert(decreases_to!(s => s[0]));
        assert(decreases_to!(s[0] => s[0].1));
    }
}

/// `jvs_of` maps elementwise.
pub broadcast proof fn lemma_jvs_of(s: Seq<Value>)
    ensures
        (#[trigger] jvs_of(s)).len() == s.len(),
        forall|i: int| 0 <= i < s.len() ==> jvs_of(s)[i] == jv_of(s[i]),
    decreases s.len(),
{
    if s.len() > 0 {
        lemma_jvs_of(s.drop_first());
    }
}

/// `pairs_of` maps elementwise.
pub broadcast proof fn lemma_pairs_of(s: Seq<(String, Value)>)
    ensures
        (#[trigger] pairs_of(s)).len() == s.len(),
        forall|i: int| 0 <= i < s.len() ==> pairs_of(s)[i] == (s[i].0@, jv_of(s[i].1)),
    decreases s.len(),
{
    if s.len() > 0 {
        lemma_pairs_of(s.drop_first());
    }
}

impl View for Value {
    type V = Jv;

    open spec fn view(&self) -> Jv {
        jv_of(*self)
    }
}

/// First match of key `k` among an object's pairs.
pub open spec fn spec_obj_get(pairs: Seq<(Seq<char>, Jv)>, k: Seq<char>) -> Option<Jv>
    decreases pairs.len(),
{
    if pairs.len() == 0 {
        None
    } else if pairs[0].0 == k {
        Some(pairs[0].1)
    } else {
        spec_obj_get(pairs.drop_first(), k)
    }
}

/// Distinct keys throughout an object's pair list.
pub open spec fn keys_unique(pv: Seq<(Seq<char>, Jv)>) -> bool {
    forall|i: int, j: int| 0 <= i < j < pv.len() ==> (#[trigger] pv[i]).0 != (#[trigger] pv[j]).0
}

/// Under distinct keys, lookup finds the binding at any position.
pub proof fn lemma_obj_get_index(pv: Seq<(Seq<char>, Jv)>, i: int)
    requires
        keys_unique(pv),
        0 <= i < pv.len(),
    ensures
        spec_obj_get(pv, pv[i].0) == Some(pv[i].1),
    decreases pv.len(),
{
    if i > 0 {
        assert(pv[0].0 != pv[i].0);
        assert(pv.drop_first()[i - 1] == pv[i]);
        assert forall|a: int, b: int|
            0 <= a < b < pv.drop_first().len() implies (#[trigger] pv.drop_first()[a]).0 != (
        #[trigger] pv.drop_first()[b]).0 by {
            assert(pv.drop_first()[a] == pv[a + 1]);
            assert(pv.drop_first()[b] == pv[b + 1]);
        }
        lemma_obj_get_index(pv.drop_first(), i - 1);
    }
}

/// A successful lookup comes from some position.
pub proof fn lemma_obj_get_some_index(pv: Seq<(Seq<char>, Jv)>, k: Seq<char>)
    requires
        spec_obj_get(pv, k) is Some,
    ensures
        exists|i: int|
            0 <= i < pv.len() && (#[trigger] pv[i]).0 == k && spec_obj_get(pv, k) == Some(pv[i].1),
    decreases pv.len(),
{
    if pv.len() > 0 && pv[0].0 != k {
        lemma_obj_get_some_index(pv.drop_first(), k);
        let i = choose|i: int|
            0 <= i < pv.drop_first().len() && (#[trigger] pv.drop_first()[i]).0 == k
                && spec_obj_get(pv.drop_first(), k) == Some(pv.drop_first()[i].1);
        assert(pv[i + 1] == pv.drop_first()[i]);
    }
}

/// Lookup fails exactly when no pair holds the key.
pub proof fn lemma_obj_get_none(pv: Seq<(Seq<char>, Jv)>, k: Seq<char>)
    ensures
        (spec_obj_get(pv, k) is None) <==> (forall|i: int|
            0 <= i < pv.len() ==> (#[trigger] pv[i]).0 != k),
    decreases pv.len(),
{
    if pv.len() > 0 {
        lemma_obj_get_none(pv.drop_first(), k);
        if spec_obj_get(pv, k) is None {
            assert forall|i: int| 0 <= i < pv.len() implies (#[trigger] pv[i]).0 != k by {
                if i > 0 {
                    assert(pv.drop_first()[i - 1] == pv[i]);
                }
            }
        }
        if forall|i: int| 0 <= i < pv.len() ==> (#[trigger] pv[i]).0 != k {
            assert forall|i: int|
                0 <= i < pv.drop_first().len() implies (#[trigger] pv.drop_first()[i]).0 != k by {
                assert(pv.drop_first()[i] == pv[i + 1]);
            }
            assert(spec_obj_get(pv, k) is None);
        }
    }
}

/// Deep structural equality: scalars by value, strings by their characters,
/// arrays pointwise, objects as key/value mappings (pair order immaterial).
pub open spec fn spec_eq(a: Jv, b: Jv) -> bool
    decreases a,
    via spec_eq_decreases
{
    match (a, b) {
        (Jv::Null, Jv::Null) => true,
        (Jv::Bool(x), Jv::Bool(y)) => x == y,
        (Jv::Int(x), Jv::Int(y)) => x == y,
        (Jv::Str(x), Jv::Str(y)) => x == y,
        (Jv::Arr(x), Jv::Arr(y)) => {
            &&& x.len() == y.len()
            &&& forall|i: int| 0 <= i < x.len() ==> spec_eq(#[trigger] x[i], y[i])
        },
        (Jv::Obj(x), Jv::Obj(y)) => {
            &&& x.len() == y.len()
            &&& forall|i: int|
                0 <= i < x.len() ==> match spec_obj_get(y, (#[trigger] x[i]).0) {
                    Some(bv) => spec_eq(x[i].1, bv),
                    None => false,
                }
            &&& forall|j: int| 0 <= j < y.len() ==> spec_obj_get(x, (#[trigger] y[j]).0) is Some
        },
        _ => false,
    }
}

#[via_fn]
proof fn spec_eq_decreases(a: Jv, b: Jv) {
    match a {
        Jv::Arr(x) => {
            assert forall|i: int| 0 <= i < x.len() implies decreases_to!(a => x[i]) by {
                assert(decreases_to!(a => a->Arr_0));
                assert(decreases_to!(a->Arr_0 => a->Arr_0[i]));
            }
        },
        Jv::Obj(x) => {
            assert forall|i: int| 0 <= i < x.len() implies decreases_to!(a => x[i].1) by {
                assert(decreases_to!(a => a->Obj_0));
                assert(decreases_to!(a->Obj_0 => a->Obj_0[i]));
                assert(decreases_to!(a->Obj_0[i] => a->Obj_0[i].1));
            }
        },
        _ => {},
    }
}

/// Well-formedness: every object in the tree has pairwise distinct keys.
pub open spec fn wf_jv(v: Jv) -> bool
    decreases v,
    via wf_jv_decreases
{
    match v {
        Jv::Arr(items) => wf_seq(items),
        Jv::Obj(pairs) => keys_unique(pairs) && wf_pairs(pairs),
        _ => true,
    }
}

/// Every element of the sequence is well-formed.
pub open spec fn wf_seq(s: Seq<Jv>) -> bool
    decreases s,
    via wf_seq_decreases
{
    s.len() == 0 || (wf_jv(s[0]) && wf_seq(s.drop_first()))
}

/// Every value of the pair list is well-formed.
pub open spec fn wf_pairs(s: Seq<(Seq<char>, Jv)>) -> bool
    decreases s,
    via wf_pairs_decreases
{
    s.len() == 0 || (wf_jv(s[0].1) && wf_pairs(s.drop_first()))
}

#[via_fn]
proof fn wf_jv_decreases(v: Jv) {
    match v {
        Jv::Arr(x) => {
            assert(decreases_to!(v => v->Arr_0));
        },
        Jv::Obj(x) => {
            assert(decreases_to!(v => v->Obj_0));
        },
        _ => {},
    }
}

#[via_fn]
proof fn wf_seq_decreases(s: Seq<Jv>) {
    if s.len() > 0 {
        assert(decreases_to!(s => s[0]));
    }
}

#[via_fn]
proof fn wf_pairs_decreases(s: Seq<(Seq<char>, Jv)>) {
    if s.len() > 0 {
        assert(decreases_to!(s => s[0]));
        assert(decreases_to!(s[0] => s[0].1));
    }
}

/// Sequence well-formedness is elementwise.
pub broadcast proof fn lemma_wf_seq(s: Seq<Jv>)
    ensures
        #[trigger] wf_seq(s) <==> (forall|i: int| 0 <= i < s.len() ==> wf_jv(#[trigger] s[i])),
    decreases s.len(),
{
    if s.len() > 0 {
        lemma_wf_seq(s.drop_first());
        if wf_seq(s) {
            assert forall|i: int| 0 <= i < s.len() implies wf_jv(#[trigger] s[i]) by {
                if i > 0 {
                    assert(s.drop_first()[i - 1] == s[i]);
                }
            }
        }
        if forall|i: int| 0 <= i < s.len() ==> wf_jv(#[trigger] s[i]) {
            assert forall|i: int|
                0 <= i < s.drop_first().len() implies wf_jv(#[trigger] s.drop_first()[i]) by {
                assert(s.drop_first()[i] == s[i + 1]);
            }
            assert(wf_seq(s));
        }
    }
}

/// Pair-list well-formedness is elementwise.
pub broadcast proof fn lemma_wf_pairs(s: Seq<(Seq<char>, Jv)>)
    ensures
        #[trigger] wf_pairs(s) <==> (forall|i: int|
            0 <= i < s.len() ==> wf_jv((#[trigger] s[i]).1)),
    decreases s.len(),
{
    if s.len() > 0 {
        lemma_wf_pairs(s.drop_first());
        if wf_pairs(s) {
            assert forall|i: int| 0 <= i < s.len() implies wf_jv((#[trigger] s[i]).1) by {
                if i > 0 {
                    assert(s.drop_first()[i - 1] == s[i]);
                }
            }
        }
        if forall|i: int| 0 <= i < s.len() ==> wf_jv((#[trigger] s[i]).1) {
            assert forall|i: int|
                0 <= i < s.drop_first().len() implies wf_jv((#[trigger] s.drop_first()[i]).1) by {
                assert(s.drop_first()[i] == s[i + 1]);
            }
            assert(wf_pairs(s));
        }
    }
}

impl Clone for Value {
    /// A clone has the same model.
    #[verifier::loop_isolation(false)]
    fn clone(&self) -> (r: Value)
        ensures
            r@ == self@,
        decreases *self,
    {
        broadcast use lemma_jvs_of, lemma_pairs_of;

        match self {
            Value::Null => Value::Null,
            Value::Bool(b) => Value::Bool(*b),
            Value::Int(n) => Value::Int(*n),
            Value::Str(s) => Value::Str(s.clone()),
            Value::Arr(items) => {
                let mut out: Vec<Value> = Vec::new();
                let mut i: usize = 0;
                while i < items.len()
                    invariant
                        0 <= i <= items@.len(),
                        out@.len() == i,
                        forall|k: int| 0 <= k < i ==> (#[trigger] out@[k])@ == items@[k]@,
                    decreases items@.len() - i,
                {
                    proof {
                        let ghost g = *self;
                        assert(decreases_to!(g => g->Arr_0));
                        assert(decreases_to!(g->Arr_0 => g->Arr_0@));
                        assert(decreases_to!(g->Arr_0@ => g->Arr_0@[i as int]));
                    }
                    out.push(items[i].clone());
                    i += 1;
                }
                proof {
                    assert(jvs_of(out@) =~= jvs_of(items@));
                }
                Value::Arr(out)
            },
            Value::Obj(pairs) => {
                let mut out: Vec<(String, Value)> = Vec::new();
                let mut i: usize = 0;
                while i < pairs.len()
                    invariant
                        0 <= i <= pairs@.len(),
                        out@.len() == i,
                        forall|k: int| 0 <= k < i ==> (#[trigger] out@[k]).0@ == pairs@[k].0@,
                        forall|k: int| 0 <= k < i ==> (#[trigger] out@[k]).1@ == pairs@[k].1@,
                    decreases pairs@.len() - i,
                {
                    proof {
                        let ghost g = *self;
                        assert(decreases_to!(g => g->Obj_0));
                        assert(decreases_to!(g->Obj_0 => g->Obj_0@));
                        assert(decreases_to!(g->Obj_0@ => g->Obj_0@[i as int]));
                        assert(decreases_to!(g->Obj_0@[i as int] => g->Obj_0@[i as int].1));
                    }
                    out.push((pairs[i].0.clone(), pairs[i].1.clone()));
                    i += 1;
                }
                proof {
                    assert(pairs_of(out@) =~= pairs_of(pairs@));
                }
                Value::Obj(out)
            },
        }
    }
}

impl Value {
    /// Deep structural equality, decided executably.
    #[verifier::loop_isolation(false)]
    pub fn deep_eq(&self, other: &Value) -> (r: bool)
        ensures
            r == spec_eq(self@, other@),
        decreases *self,
    {
        broadcast use lemma_jvs_of, lemma_pairs_of;

        match (self, other) {
            (Value::Null, Value::Null) => true,
            (Value::Bool(x), Value::Bool(y)) => *x == *y,
            (Value::Int(x), Value::Int(y)) => *x == *y,
            (Value::Str(x), Value::Str(y)) => str_eq(x, y),
            (Value::Arr(x), Value::Arr(y)) => {
                if x.len() != y.len() {
                    proof {
                        assert(jvs_of(x@).len() != jvs_of(y@).len());
                    }
                    return false;
                }
                let mut i: usize = 0;
                while i < x.len()
                    invariant
                        0 <= i <= x@.len(),
                        x@.len() == y@.len(),
                        forall|k: int| 0 <= k < i ==> spec_eq((#[trigger] x@[k])@, y@[k]@),
                    decreases x@.len() - i,
                {
                    proof {
                        let ghost g = *self;
                        assert(decreases_to!(g => g->Arr_0));
                        assert(decreases_to!(g->Arr_0 => g->Arr_0@));
                        assert(decreases_to!(g->Arr_0@ => g->Arr_0@[i as int]));
                    }
                    if !x[i].deep_eq(&y[i]) {
                        proof {
                            assert(!spec_eq(jvs_of(x@)[i as int], jvs_of(y@)[i as int]));
                        }
                        return false;
                    }
                    i += 1;
                }
                true
            },
            (Value::Obj(x), Value::Obj(y)) => {
                if x.len() != y.len() {
                    proof {
                        assert(pairs_of(x@).len() != pairs_of(y@).len());
                    }
                    return false;
                }
                let mut i: usize = 0;
                while i < x.len()
                    invariant
                        0 <= i <= x@.len(),
                        x@.len() == y@.len(),
                        forall|k: int|
                            0 <= k < i ==> match spec_obj_get(
                                pairs_of(y@),
                                (#[trigger] x@[k]).0@,
                            ) {
                                Some(bv) => spec_eq(x@[k].1@, bv),
                                None => false,
                            },
                    decreases x@.len() - i,
                {
                    proof {
                        let ghost g = *self;
                        assert(decreases_to!(g => g->Obj_0));
                        assert(decreases_to!(g->Obj_0 => g->Obj_0@));
                        assert(decreases_to!(g->Obj_0@ => g->Obj_0@[i as int]));
                        assert(decreases_to!(g->Obj_0@[i as int] => g->Obj_0@[i as int].1));
                    }
                    match obj_get_pairs(y, &x[i].0) {
                        Some(bv) => {
                            if !x[i].1.deep_eq(bv) {
                                proof {
                                    assert(pairs_of(x@)[i as int] == (x@[i as int].0@, x@[
                                        i as int].1@));
                                    assert(match spec_obj_get(
                                        pairs_of(y@),
                                        pairs_of(x@)[i as int].0,
                                    ) {
                                        Some(bv2) => !spec_eq(pairs_of(x@)[i as int].1, bv2),
                                        None => true,
                                    });
                                }
                                return false;
                            }
                        },
                        None => {
                            proof {
                                assert(pairs_of(x@)[i as int] == (x@[i as int].0@, x@[
                                    i as int].1@));
                            }
                            return false;
                        },
                    }
                    i += 1;
                }
                let mut j: usize = 0;
                while j < y.len()
                    invariant
                        0 <= j <= y@.len(),
                        x@.len() == y@.len(),
                        forall|k: int|
                            0 <= k < i ==> match spec_obj_get(
                                pairs_of(y@),
                                (#[trigger] x@[k]).0@,
                            ) {
                                Some(bv) => spec_eq(x@[k].1@, bv),
                                None => false,
                            },
                        forall|k: int|
                            0 <= k < j ==> spec_obj_get(pairs_of(x@), (#[trigger] y@[k]).0@)
                                is Some,
                    decreases y@.len() - j,
                {
                    if obj_get_pairs(x, &y[j].0).is_none() {
                        proof {
                            assert(pairs_of(y@)[j as int] == (y@[j as int].0@, y@[j as int].1@));
                            assert(spec_obj_get(pairs_of(x@), pairs_of(y@)[j as int].0) is None);
                        }
                        return false;
                    }
                    j += 1;
                }
                true
            },
            _ => false,
        }
    }

    /// Decides well-formedness: distinct keys in every object of the tree.
    #[verifier::loop_isolation(false)]
    pub fn is_wf(&self) -> (r: bool)
        ensures
            r == wf_jv(self@),
        decreases *self,
    {
        broadcast use lemma_jvs_of, lemma_pairs_of, lemma_wf_seq, lemma_wf_pairs;

        match self {
            Value::Arr(items) => {
                let mut i: usize = 0;
                while i < items.len()
                    invariant
                        0 <= i <= items@.len(),
                        forall|k: int| 0 <= k < i ==> wf_jv(#[trigger] jvs_of(items@)[k]),
                    decreases items@.len() - i,
                {
                    proof {
                        let ghost g = *self;
                        assert(decreases_to!(g => g->Arr_0));
                        assert(decreases_to!(g->Arr_0 => g->Arr_0@));
                        assert(decreases_to!(g->Arr_0@ => g->Arr_0@[i as int]));
                    }
                    if !items[i].is_wf() {
                        proof {
                            assert(self@ == Jv::Arr(jvs_of(items@)));
                            assert(!wf_jv(jvs_of(items@)[i as int]));
                            assert(!wf_jv(Jv::Arr(jvs_of(items@)))) by {
                                lemma_wf_seq(jvs_of(items@));
                            }
                        }
                        return false;
                    }
                    i += 1;
                }
                proof {
                    lemma_wf_seq(jvs_of(items@));
                    assert(wf_jv(self@));
                }
                true
            },
            Value::Obj(pairs) => {
                let mut i: usize = 0;
                while i < pairs.len()
                    invariant
                        0 <= i <= pairs@.len(),
                        forall|k: int| 0 <= k < i ==> wf_jv((#[trigger] pairs_of(pairs@)[k]).1),
                        forall|a: int, b: int|
                            0 <= a < b < i ==> (#[trigger] pairs_of(pairs@)[a]).0 != (
                            #[trigger] pairs_of(pairs@)[b]).0,
                    decreases pairs@.len() - i,
                {
                    proof {
                        let ghost g = *self;
                        assert(decreases_to!(g => g->Obj_0));
                        assert(decreases_to!(g->Obj_0 => g->Obj_0@));
                        assert(decreases_to!(g->Obj_0@ => g->Obj_0@[i as int]));
                        assert(decreases_to!(g->Obj_0@[i as int] => g->Obj_0@[i as int].1));
                    }
                    let mut a: usize = 0;
                    while a < i
                        invariant
                            0 <= a <= i <= pairs@.len(),
                            forall|k: int|
                                0 <= k < a ==> (#[trigger] pairs_of(pairs@)[k]).0 != pairs_of(
                                    pairs@,
                                )[i as int].0,
                        decreases i - a,
                    {
                        if str_eq(&pairs[a].0, &pairs[i].0) {
                            proof {
                                assert((pairs_of(pairs@)[a as int]).0 == (pairs_of(pairs@)[
                                    i as int]).0);
                                assert(!wf_jv(Jv::Obj(pairs_of(pairs@)))) by {
                                    if wf_jv(Jv::Obj(pairs_of(pairs@))) {
                                        assert((pairs_of(pairs@)[a as int]).0 != (pairs_of(
                                            pairs@,
                                        )[i as int]).0);
                                    }
                                }
                            }
                            return false;
                        }
                        a += 1;
                    }
                    if !pairs[i].1.is_wf() {
                        proof {
                            assert(!wf_jv((pairs_of(pairs@)[i as int]).1));
                            assert(!wf_jv(Jv::Obj(pairs_of(pairs@)))) by {
                                lemma_wf_pairs(pairs_of(pairs@));
                            }
                        }
                        return false;
                    }
                    i += 1;
                }
                proof {
                    lemma_wf_pairs(pairs_of(pairs@));
                    assert(keys_unique(pairs_of(pairs@)));
                    assert(wf_jv(self@));
                }
                true
            },
            _ => true,
        }
    }

    /// Looks a top-level field up; `None` unless `self` is an object holding it.
    pub fn get_field<'a>(&'a self, k: &String) -> (r: Option<&'a Value>)
        ensures
            match self@ {
                Jv::Obj(pairs) => match spec_obj_get(pairs, k@) {
                    Some(v) => r matches Some(rv) && rv@ == v,
                    None => r is None,
                },
                _ => r is None,
            },
    {
        match self {
            Value::Obj(pairs) => obj_get_pairs(pairs, k),
            _ => None,
        }
    }
}

/// String equality over the character-sequence views.
pub fn str_eq(a: &String, b: &String) -> (r: bool)
    ensures
        r == (a@ == b@),
{
    a.eq(b)
}

/// First pair with key `k`, if any.
#[verifier::loop_isolation(false)]
pub fn obj_get_pairs<'a>(pairs: &'a Vec<(String, Value)>, k: &String) -> (r: Option<&'a Value>)
    ensures
        match spec_obj_get(pairs_of(pairs@), k@) {
            Some(v) => r matches Some(rv) && rv@ == v,
            None => r is None,
        },
{
    broadcast use lemma_jvs_of, lemma_pairs_of;

    let ghost pv = pairs_of(pairs@);
    proof {
        assert(pv.skip(0) =~= pv);
    }
    let mut i: usize = 0;
    while i < pairs.len()
        invariant
            0 <= i <= pairs@.len(),
            pv == pairs_of(pairs@),
            pv.len() == pairs@.len(),
            spec_obj_get(pv, k@) == spec_obj_get(pv.skip(i as int), k@),
        decreases pairs@.len() - i,
    {
        proof {
            assert(pv.skip(i as int)[0] == pv[i as int]);
            assert(pv[i as int] == (pairs@[i as int].0@, jv_of(pairs@[i as int].1)));
        }
        if str_eq(&pairs[i].0, k) {
            return Some(&pairs[i].1);
        }
        proof {
            assert(pv.skip(i as int).drop_first() =~= pv.skip(i + 1));
        }
        i += 1;
    }
    proof {
        assert(pv.skip(i as int).len() == 0);
    }
    None
}

} // verus!
