use vstd::prelude::*;

use crate::text::str_to_chars;
use crate::value::{
    Jv, Value, jvs_of, lemma_jvs_of, lemma_pairs_of, obj_get_pairs, pairs_of, spec_eq,
    spec_obj_get, str_eq,
};

verus! {

/// Operator keys are reserved: they begin with a dollar sign.
pub open spec fn is_op_key(k: Seq<char>) -> bool {
    k.len() > 0 && k[0] == '$'
}

/// Does any key of the object mark it as an operator clause?
pub open spec fn has_op_key(pairs: Seq<(Seq<char>, Jv)>) -> bool {
    exists|i: int| 0 <= i < pairs.len() && is_op_key((#[trigger] pairs[i]).0)
}

/// The numeric comparison operators.
#[derive(Clone, Copy, Debug, PartialEq, Eq, Structural)]
pub enum NumCmp {
    Gt,
    Gte,
    Lt,
    Lte,
}

/// Numeric comparison: false unless both operands are numbers.
pub open spec fn spec_compare(a: Jv, b: Jv, k: NumCmp) -> bool {
    match (a, b) {
        (Jv::Int(x), Jv::Int(y)) => match k {
            NumCmp::Gt => x > y,
            NumCmp::Gte => x >= y,
            NumCmp::Lt => x < y,
            NumCmp::Lte => x <= y,
        },
        _ => false,
    }
}

/// Membership of `x` in an array value, by deep structural equality;
/// false when `target` is not an array.
pub open spec fn in_arr(x: Jv, target: Jv) -> bool {
    match target {
        Jv::Arr(items) => exists|i: int|
            0 <= i < items.len() && spec_eq(x, #[trigger] items[i]),
        _ => false,
    }
}

/// One operator of a clause, applied to the document data directly.
/// Unknown operator tags evaluate false.
pub open spec fn spec_op_holds(data: Jv, op: Seq<char>, target: Jv) -> bool {
    if op == "$eq"@ {
        spec_eq(data, target)
    } else if op == "$ne"@ {
        !spec_eq(data, target)
    } else if op == "$gt"@ {
        spec_compare(data, target, NumCmp::Gt)
    } else if op == "$gte"@ {
        spec_compare(data, target, NumCmp::Gte)
    } else if op == "$lt"@ {
        spec_compare(data, target, NumCmp::Lt)
    } else if op == "$lte"@ {
        spec_compare(data, target, NumCmp::Lte)
    } else if op == "$in"@ {
        in_arr(data, target)
    } else if op == "$nin"@ {
        target is Arr && !in_arr(data, target)
    } else {
        false
    }
}

/// Every operator of the clause holds (logical AND).
pub open spec fn spec_ops_hold(data: Jv, pairs: Seq<(Seq<char>, Jv)>) -> bool {
    forall|i: int|
        0 <= i < pairs.len() ==> spec_op_holds(data, (#[trigger] pairs[i]).0, pairs[i].1)
}

/// Whether document data satisfies a query expression:
/// an object whose keys include an operator tag is an operator clause over
/// the data; any other object requires the data to be an object carrying
/// every queried key with a recursively matching value; anything else is
/// compared by deep structural equality.
pub open spec fn spec_matches(data: Jv, q: Jv) -> bool
    decreases q,
    via spec_matches_decreases
{
    match q {
        Jv::Obj(qpairs) => {
            if has_op_key(qpairs) {
                spec_ops_hold(data, qpairs)
            } else {
                match data {
                    Jv::Obj(dpairs) => forall|i: int|
                        0 <= i < qpairs.len() ==> match spec_obj_get(
                            dpairs,
                            (#[trigger] qpairs[i]).0,
                        ) {
                            Some(dv) => spec_matches(dv, qpairs[i].1),
                            None => false,
                        },
                    _ => false,
                }
            }
        },
        _ => spec_eq(data, q),
    }
}

#[via_fn]
proof fn spec_matches_decreases(data: Jv, q: Jv) {
    match q {
        Jv::Obj(qpairs) => {
            assert forall|i: int| 0 <= i < qpairs.len() implies decreases_to!(q => qpairs[i].1) by {
                assert(decreases_to!(q => q->Obj_0));
                assert(decreases_to!(q->Obj_0 => q->Obj_0[i]));
                assert(decreases_to!(q->Obj_0[i] => q->Obj_0[i].1));
            }
        },
        _ => {},
    }
}

/// Stateless evaluator deciding whether a document's data satisfies a query
/// expression.
pub struct QueryEngine;

impl QueryEngine {
    pub fn new() -> (q: QueryEngine) {
        QueryEngine
    }

    /// Whether `data` satisfies `query`.
    #[verifier::loop_isolation(false)]
    pub fn matches(&self, data: &Value, query: &Value) -> (r: bool)
        ensures
            r == spec_matches(data@, query@),
        decreases *query,
    {
        broadcast use lemma_jvs_of, lemma_pairs_of;

        match query {
            Value::Obj(qpairs) => {
                if is_operator_object(qpairs) {
                    evaluate_operators(data, qpairs)
                } else {
                    match data {
                        Value::Obj(dpairs) => {
                            let mut i: usize = 0;
                            while i < qpairs.len()
                                invariant
                                    0 <= i <= qpairs@.len(),
                                    forall|k: int|
                                        0 <= k < i ==> match spec_obj_get(
                                            pairs_of(dpairs@),
                                            (#[trigger] qpairs@[k]).0@,
                                        ) {
                                            Some(dv) => spec_matches(dv, qpairs@[k].1@),
                                            None => false,
                                        },
                                decreases qpairs@.len() - i,
                            {
                                proof {
                                    let ghost g = *query;
                                    assert(decreases_to!(g => g->Obj_0));
                                    assert(decreases_to!(g->Obj_0 => g->Obj_0@));
                                    assert(decreases_to!(g->Obj_0@ => g->Obj_0@[i as int]));
                                    assert(decreases_to!(g->Obj_0@[i as int] => g->Obj_0@[
                                        i as int].1));
                                }
                                match obj_get_pairs(dpairs, &qpairs[i].0) {
                                    Some(dv) => {
                                        if !self.matches(dv, &qpairs[i].1) {
                                            proof {
                                                assert(pairs_of(qpairs@)[i as int] == (qpairs@[
                                                    i as int].0@, qpairs@[i as int].1@));
                                            }
                                            return false;
                                        }
                                    },
                                    None => {
                                        proof {
                                            assert(pairs_of(qpairs@)[i as int] == (qpairs@[
                                                i as int].0@, qpairs@[i as int].1@));
                                        }
                                        return false;
                                    },
                                }
                                i += 1;
                            }
                            true
                        },
                        _ => false,
                    }
                }
            },
            _ => data.deep_eq(query),
        }
    }
}

/// Does any key of the object begin with the operator prefix?
#[verifier::loop_isolation(false)]
fn is_operator_object(pairs: &Vec<(String, Value)>) -> (r: bool)
    ensures
        r == has_op_key(pairs_of(pairs@)),
{
    broadcast use lemma_pairs_of;

    let mut i: usize = 0;
    while i < pairs.len()
        invariant
            0 <= i <= pairs@.len(),
            forall|k: int| 0 <= k < i ==> !is_op_key((#[trigger] pairs_of(pairs@)[k]).0),
        decreases pairs@.len() - i,
    {
        let cs = str_to_chars(pairs[i].0.as_str());
        if cs.len() > 0 {
            let c = cs[0];
            if c == '$' {
                proof {
                    assert(is_op_key(pairs_of(pairs@)[i as int].0));
                }
                return true;
            }
        }
        proof {
            assert(!is_op_key(pairs_of(pairs@)[i as int].0));
        }
        i += 1;
    }
    false
}

/// String equality against a literal tag.
fn str_is(a: &String, b: &str) -> (r: bool)
    ensures
        r == (a@ == b@),
{
    str_eq(a, &b.to_owned())
}

/// Numeric comparison of two values; false unless both are numbers.
fn compare(a: &Value, b: &Value, k: NumCmp) -> (r: bool)
    ensures
        r == spec_compare(a@, b@, k),
{
    match (a, b) {
        (Value::Int(x), Value::Int(y)) => match k {
            NumCmp::Gt => *x > *y,
            NumCmp::Gte => *x >= *y,
            NumCmp::Lt => *x < *y,
            NumCmp::Lte => *x <= *y,
        },
        _ => false,
    }
}

/// Membership of `x` in an array value; false when `target` is no array.
#[verifier::loop_isolation(false)]
fn arr_contains(target: &Value, x: &Value) -> (r: bool)
    ensures
        r == in_arr(x@, target@),
{
    broadcast use lemma_jvs_of;

    match target {
        Value::Arr(items) => {
            let mut i: usize = 0;
            while i < items.len()
                invariant
                    0 <= i <= items@.len(),
                    forall|k: int| 0 <= k < i ==> !spec_eq(x@, #[trigger] jvs_of(items@)[k]),
                decreases items@.len() - i,
            {
                if x.deep_eq(&items[i]) {
                    proof {
                        let ghost s = jvs_of(items@);
                        assert(target@ == Jv::Arr(s));
                        assert(0 <= i < s.len() && spec_eq(x@, s[i as int]));
                        assert(exists|k: int| 0 <= k < s.len() && spec_eq(x@, #[trigger] s[k]));
                        assert(in_arr(x@, target@));
                    }
                    return true;
                }
                i += 1;
            }
            false
        },
        _ => false,
    }
}

/// Evaluates an operator clause: every operator must hold of `data`.
#[verifier::loop_isolation(false)]
fn evaluate_operators(data: &Value, ops: &Vec<(String, Value)>) -> (r: bool)
    ensures
        r == spec_ops_hold(data@, pairs_of(ops@)),
{
    broadcast use lemma_pairs_of;

    let mut i: usize = 0;
    while i < ops.len()
        invariant
            0 <= i <= ops@.len(),
            forall|k: int|
                0 <= k < i ==> spec_op_holds(data@, (#[trigger] pairs_of(ops@)[k]).0, pairs_of(
                    ops@,
                )[k].1),
        decreases ops@.len() - i,
    {
        let op = &ops[i].0;
        let target = &ops[i].1;
        let ok: bool = if str_is(op, "$eq") {
            data.deep_eq(target)
        } else if str_is(op, "$ne") {
            !data.deep_eq(target)
        } else if str_is(op, "$gt") {
            compare(data, target, NumCmp::Gt)
        } else if str_is(op, "$gte") {
            compare(data, target, NumCmp::Gte)
        } else if str_is(op, "$lt") {
            compare(data, target, NumCmp::Lt)
        } else if str_is(op, "$lte") {
            compare(data, target, NumCmp::Lte)
        } else if str_is(op, "$in") {
            arr_contains(target, data)
        } else if str_is(op, "$nin") {
            match target {
                Value::Arr(_) => !arr_contains(target, data),
                _ => false,
            }
        } else {
            false
        };
        proof {
            assert(pairs_of(ops@)[i as int] == (ops@[i as int].0@, ops@[i as int].1@));
            assert(ok == spec_op_holds(data@, pairs_of(ops@)[i as int].0, pairs_of(ops@)[
                i as int].1));
        }
        if !ok {
            return false;
        }
        i += 1;
    }
    true
}

} // verus!
