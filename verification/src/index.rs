use vstd::prelude::*;

use crate::nums::{spec_dec, u64_to_dec};
use crate::text::chars_to_string;
use crate::value::{
    Jv, Value, keys_unique, lemma_obj_get_index, lemma_obj_get_some_index, lemma_pairs_of,
    pairs_of, spec_obj_get, str_eq, wf_jv,
};

verus! {

/// Canonical text of a scalar: strings verbatim, numbers in decimal,
/// booleans as their names.  `None` for null, arrays and objects, which are
/// not indexed.
pub open spec fn canon_scalar(v: Jv) -> Option<Seq<char>> {
    match v {
        Jv::Str(s) => Some(s),
        Jv::Int(n) => Some(spec_int_str(n)),
        Jv::Bool(b) => Some(
            if b {
                "true"@
            } else {
                "false"@
            },
        ),
        _ => None,
    }
}

/// Decimal text of an integer, with a leading minus sign when negative.
pub open spec fn spec_int_str(n: int) -> Seq<char> {
    if n < 0 {
        seq!['-'] + spec_dec((-n) as nat)
    } else {
        spec_dec(n as nat)
    }
}

/// The document's top-level field `f` is a scalar whose canonical text is `vs`.
pub open spec fn doc_scalar(data: Jv, f: Seq<char>, vs: Seq<char>) -> bool {
    match data {
        Jv::Obj(pairs) => match spec_obj_get(pairs, f) {
            Some(v) => canon_scalar(v) == Some(vs),
            None => false,
        },
        _ => false,
    }
}

/// Some pair among the first `n` has field `f` as a scalar with canonical
/// text `vs`.
pub open spec fn prefix_scalar(
    pv: Seq<(Seq<char>, Jv)>,
    n: int,
    f: Seq<char>,
    vs: Seq<char>,
) -> bool {
    exists|k: int| 0 <= k < n && (#[trigger] pv[k]).0 == f && canon_scalar(pv[k].1) == Some(vs)
}

/// The view of one posting: (field, canonical value, document id).
pub open spec fn post_view(p: (String, String, String)) -> (Seq<char>, Seq<char>, Seq<char>) {
    (p.0@, p.1@, p.2@)
}

/// The index holds document `id` under field `f` and canonical value `vs`.
pub open spec fn idx_has(
    ps: Seq<(String, String, String)>,
    f: Seq<char>,
    vs: Seq<char>,
    id: Seq<char>,
) -> bool {
    exists|i: int| 0 <= i < ps.len() && post_view(#[trigger] ps[i]) == (f, vs, id)
}

/// No posting occurs twice.
pub open spec fn idx_wf(ps: Seq<(String, String, String)>) -> bool {
    forall|i: int, j: int|
        0 <= i < j < ps.len() ==> post_view(#[trigger] ps[i]) != post_view(#[trigger] ps[j])
}

/// Membership of an id among rendered ids.
pub open spec fn ids_has(ids: Seq<String>, id: Seq<char>) -> bool {
    exists|i: int| 0 <= i < ids.len() && (#[trigger] ids[i])@ == id
}

/// Appending one posting adds exactly its view.
proof fn lemma_idx_push(ps: Seq<(String, String, String)>, p: (String, String, String))
    ensures
        forall|f: Seq<char>, vs: Seq<char>, id: Seq<char>|
            idx_has(ps.push(p), f, vs, id) <==> (idx_has(ps, f, vs, id) || post_view(p) == (
                f,
                vs,
                id,
            )),
{
    assert forall|f: Seq<char>, vs: Seq<char>, id: Seq<char>|
        idx_has(ps.push(p), f, vs, id) <==> (idx_has(ps, f, vs, id) || post_view(p) == (
            f,
            vs,
            id,
        )) by {
        if idx_has(ps.push(p), f, vs, id) {
            let wi = choose|wi: int|
                0 <= wi < ps.push(p).len() && post_view(#[trigger] ps.push(p)[wi]) == (f, vs, id);
            if wi < ps.len() {
                assert(post_view(ps[wi]) == (f, vs, id));
            } else {
                assert(ps.push(p)[wi] == p);
            }
        }
        if idx_has(ps, f, vs, id) {
            let wi = choose|wi: int| 0 <= wi < ps.len() && post_view(#[trigger] ps[wi]) == (f, vs, id);
            assert(post_view(ps.push(p)[wi]) == (f, vs, id));
        }
        if post_view(p) == (f, vs, id) {
            assert(post_view(ps.push(p)[ps.len() as int]) == (f, vs, id));
        }
    }
}

/// Taking one more posting adds exactly its view.
proof fn lemma_idx_take_succ(ps: Seq<(String, String, String)>, i: int)
    requires
        0 <= i < ps.len(),
    ensures
        forall|f: Seq<char>, vs: Seq<char>, id: Seq<char>|
            idx_has(ps.take(i + 1), f, vs, id) <==> (idx_has(ps.take(i), f, vs, id) || post_view(
                ps[i],
            ) == (f, vs, id)),
{
    assert(ps.take(i + 1) =~= ps.take(i).push(ps[i]));
    lemma_idx_push(ps.take(i), ps[i]);
}

/// Canonical text of a scalar value, decided executably.
pub fn canon_scalar_exec(v: &Value) -> (r: Option<String>)
    ensures
        match r {
            Some(s) => canon_scalar(v@) == Some(s@),
            None => canon_scalar(v@) is None,
        },
{
    match v {
        Value::Str(s) => Some(s.clone()),
        Value::Int(n) => Some(int_to_string(*n)),
        Value::Bool(b) => {
            proof {
                reveal_strlit("true");
                reveal_strlit("false");
            }
            if *b {
                Some("true".to_owned())
            } else {
                Some("false".to_owned())
            }
        },
        _ => None,
    }
}

/// Decimal text of an integer.
pub fn int_to_string(n: i64) -> (r: String)
    ensures
        r@ == spec_int_str(n as int),
{
    if n >= 0 {
        let cs = u64_to_dec(n as u64);
        chars_to_string(&cs)
    } else {
        let m: u64 = ((-(n + 1)) as u64) + 1;
        proof {
            assert(m == -(n as int));
        }
        let mut cs: Vec<char> = Vec::new();
        cs.push('-');
        let ds = u64_to_dec(m);
        let mut k: usize = 0;
        #[verifier::loop_isolation(false)]
        while k < ds.len()
            invariant
                0 <= k <= ds@.len(),
                cs@ == seq!['-'] + ds@.take(k as int),
            decreases ds@.len() - k,
        {
            cs.push(ds[k]);
            proof {
                assert(cs@ =~= seq!['-'] + ds@.take(k + 1));
            }
            k += 1;
        }
        proof {
            assert(ds@.take(ds@.len() as int) =~= ds@);
            assert(cs@ =~= spec_int_str(n as int));
        }
        chars_to_string(&cs)
    }
}

/// Inverted index: a set of postings (field name, canonical scalar text,
/// document id) supporting exact-match lookup.
#[derive(Debug)]
pub struct Index {
    postings: Vec<(String, String, String)>,
}

impl Index {
    /// The postings, as a mathematical sequence.
    pub closed spec fn view(&self) -> Seq<(String, String, String)> {
        self.postings@
    }

    pub open spec fn wf(&self) -> bool {
        idx_wf(self@)
    }

    pub fn new() -> (r: Index)
        ensures
            r.wf(),
            forall|f: Seq<char>, vs: Seq<char>, id: Seq<char>| !idx_has(r@, f, vs, id),
    {
        Index { postings: Vec::new() }
    }

    /// Is `id` filed under `(f, vs)`?
    #[verifier::loop_isolation(false)]
    fn contains_posting(&self, f: &String, vs: &String, id: &String) -> (r: bool)
        ensures
            r == idx_has(self@, f@, vs@, id@),
    {
        let mut i: usize = 0;
        while i < self.postings.len()
            invariant
                0 <= i <= self@.len(),
                forall|k: int| 0 <= k < i ==> post_view(#[trigger] self@[k]) != (f@, vs@, id@),
            decreases self@.len() - i,
        {
            let p = &self.postings[i];
            if str_eq(&p.0, f) && str_eq(&p.1, vs) && str_eq(&p.2, id) {
                return true;
            }
            i += 1;
        }
        false
    }

    /// Adds `doc_id` under every indexable top-level field of `data`.
    #[verifier::loop_isolation(false)]
    pub fn index_document(&mut self, doc_id: &String, data: &Value)
        requires
            old(self).wf(),
            wf_jv(data@),
        ensures
            final(self).wf(),
            forall|f: Seq<char>, vs: Seq<char>, id: Seq<char>|
                idx_has(final(self)@, f, vs, id) <==> (idx_has(old(self)@, f, vs, id) || (id
                    == doc_id@ && doc_scalar(data@, f, vs))),
    {
        broadcast use lemma_pairs_of;

        match data {
            Value::Obj(pairs) => {
                let ghost pv = pairs_of(pairs@);
                let ghost orig = self@;
                let mut i: usize = 0;
                while i < pairs.len()
                    invariant
                        0 <= i <= pairs@.len(),
                        self.wf(),
                        pv == pairs_of(pairs@),
                        forall|f: Seq<char>, vs: Seq<char>, id: Seq<char>|
                            #![trigger idx_has(self@, f, vs, id)]
                            idx_has(self@, f, vs, id) <==> (idx_has(orig, f, vs, id) || (id
                                == doc_id@ && prefix_scalar(pv, i as int, f, vs))),
                    decreases pairs@.len() - i,
                {
                    let ghost pre = self@;
                    let key = &pairs[i].0;
                    proof {
                        assert(pv[i as int] == (pairs@[i as int].0@, pairs@[i as int].1@));
                    }
                    match canon_scalar_exec(&pairs[i].1) {
                        Some(vs) => {
                            if !self.contains_posting(key, &vs, doc_id) {
                                self.postings.push((key.clone(), vs.clone(), doc_id.clone()));
                                proof {
                                    lemma_idx_push(pre, self@.last());
                                    assert(self@ =~= pre.push(self@.last()));
                                    assert(post_view(self@.last()) == (key@, vs@, doc_id@));
                                    assert(idx_wf(self@)) by {
                                        assert forall|a: int, b: int|
                                            0 <= a < b < self@.len() implies post_view(
                                            #[trigger] self@[a],
                                        ) != post_view(#[trigger] self@[b]) by {
                                            if b == self@.len() - 1 {
                                                assert(idx_has(
                                                    pre,
                                                    post_view(pre[a]).0,
                                                    post_view(pre[a]).1,
                                                    post_view(pre[a]).2,
                                                ));
                                            }
                                        }
                                    }
                                }
                            }
                            proof {
                                assert forall|f: Seq<char>, vs2: Seq<char>, id: Seq<char>|
                                    idx_has(self@, f, vs2, id) <==> (idx_has(pre, f, vs2, id) || (id
                                        == doc_id@ && pv[i as int].0 == f && canon_scalar(
                                        pv[i as int].1,
                                    ) == Some(vs2))) by {
                                    if id == doc_id@ && pv[i as int].0 == f && canon_scalar(
                                        pv[i as int].1,
                                    ) == Some(vs2) {
                                        assert(f == key@ && vs2 == vs@);
                                    }
                                }
                            }
                        },
                        None => {
                            proof {
                                assert forall|f: Seq<char>, vs2: Seq<char>, id: Seq<char>|
                                    idx_has(self@, f, vs2, id) <==> (idx_has(pre, f, vs2, id) || (id
                                        == doc_id@ && pv[i as int].0 == f && canon_scalar(
                                        pv[i as int].1,
                                    ) == Some(vs2))) by {}
                            }
                        },
                    }
                    proof {
                        assert forall|f: Seq<char>, vs2: Seq<char>, id: Seq<char>|
                            #![trigger idx_has(self@, f, vs2, id)]
                            idx_has(self@, f, vs2, id) <==> (idx_has(orig, f, vs2, id) || (id
                                == doc_id@ && prefix_scalar(pv, i + 1, f, vs2))) by {
                            assert(idx_has(pre, f, vs2, id) <==> (idx_has(orig, f, vs2, id) || (id
                                == doc_id@ && prefix_scalar(pv, i as int, f, vs2))));
                            assert(prefix_scalar(pv, i + 1, f, vs2) <==> (prefix_scalar(
                                pv,
                                i as int,
                                f,
                                vs2,
                            ) || (pv[i as int].0 == f && canon_scalar(pv[i as int].1) == Some(vs2))))
                                by {
                                if prefix_scalar(pv, i + 1, f, vs2) {
                                    let k = choose|k: int|
                                        0 <= k < i + 1 && (#[trigger] pv[k]).0 == f && canon_scalar(
                                            pv[k].1,
                                        ) == Some(vs2);
                                    if k < i {
                                        assert(prefix_scalar(pv, i as int, f, vs2));
                                    }
                                }
                                if prefix_scalar(pv, i as int, f, vs2) {
                                    let k = choose|k: int|
                                        0 <= k < i && (#[trigger] pv[k]).0 == f && canon_scalar(
                                            pv[k].1,
                                        ) == Some(vs2);
                                    assert(0 <= k < i + 1 && pv[k].0 == f && canon_scalar(pv[k].1)
                                        == Some(vs2));
                                }
                                if pv[i as int].0 == f && canon_scalar(pv[i as int].1) == Some(
                                    vs2,
                                ) {
                                    assert(0 <= i < i + 1 && pv[i as int].0 == f && canon_scalar(
                                        pv[i as int].1,
                                    ) == Some(vs2));
                                }
                            }
                        }
                    }
                    i += 1;
                }
                proof {
                    assert(data@ == Jv::Obj(pv));
                    assert(keys_unique(pv));
                    assert forall|f: Seq<char>, vs: Seq<char>|
                        prefix_scalar(pv, pv.len() as int, f, vs) <==> doc_scalar(
                        data@,
                        f,
                        vs,
                    ) by {
                        if prefix_scalar(pv, pv.len() as int, f, vs) {
                            let k = choose|k: int|
                                0 <= k < pv.len() && (#[trigger] pv[k]).0 == f && canon_scalar(
                                    pv[k].1,
                                ) == Some(vs);
                            lemma_obj_get_index(pv, k);
                        }
                        if doc_scalar(data@, f, vs) {
                            lemma_obj_get_some_index(pv, f);
                        }
                    }
                }
            },
            _ => {},
        }
    }

    /// Removes `doc_id` from every posting that mirrors a top-level scalar
    /// field of `data`; postings of other documents or fields stay.
    #[verifier::loop_isolation(false)]
    pub fn remove_document(&mut self, doc_id: &String, data: &Value)
        requires
            old(self).wf(),
        ensures
            final(self).wf(),
            forall|f: Seq<char>, vs: Seq<char>, id: Seq<char>|
                idx_has(final(self)@, f, vs, id) <==> (idx_has(old(self)@, f, vs, id) && !(id
                    == doc_id@ && doc_scalar(data@, f, vs))),
    {
        let ghost orig = self@;
        let mut kept: Vec<(String, String, String)> = Vec::new();
        let mut i: usize = 0;
        while i < self.postings.len()
            invariant
                0 <= i <= orig.len(),
                self@ == orig,
                idx_wf(kept@),
                forall|f: Seq<char>, vs: Seq<char>, id: Seq<char>|
                    idx_has(kept@, f, vs, id) <==> (idx_has(orig.take(i as int), f, vs, id) && !(id
                        == doc_id@ && doc_scalar(data@, f, vs))),
            decreases orig.len() - i,
        {
            let p = &self.postings[i];
            let drop_it: bool = if str_eq(&p.2, doc_id) {
                match data.get_field(&p.0) {
                    Some(v) => match canon_scalar_exec(v) {
                        Some(vs) => str_eq(&vs, &p.1),
                        None => false,
                    },
                    None => false,
                }
            } else {
                false
            };
            proof {
                assert(drop_it == (p.2@ == doc_id@ && doc_scalar(data@, p.0@, p.1@)));
                lemma_idx_take_succ(orig, i as int);
            }
            let ghost pre = kept@;
            if !drop_it {
                kept.push((p.0.clone(), p.1.clone(), p.2.clone()));
                proof {
                    lemma_idx_push(pre, kept@.last());
                    assert(kept@ =~= pre.push(kept@.last()));
                    assert(post_view(kept@.last()) == post_view(orig[i as int]));
                    assert(idx_wf(kept@)) by {
                        assert(!idx_has(pre, orig[i as int].0@, orig[i as int].1@, orig[
                            i as int].2@)) by {
                            if idx_has(pre, orig[i as int].0@, orig[i as int].1@, orig[
                                i as int].2@) {
                                let wi = choose|wi: int|
                                    0 <= wi < orig.take(i as int).len() && post_view(
                                        #[trigger] orig.take(i as int)[wi],
                                    ) == post_view(orig[i as int]);
                                assert(orig.take(i as int)[wi] == orig[wi]);
                                assert(post_view(orig[wi]) != post_view(orig[i as int]));
                            }
                        }
                        assert forall|a: int, b: int|
                            0 <= a < b < kept@.len() implies post_view(#[trigger] kept@[a])
                            != post_view(#[trigger] kept@[b]) by {
                            if b == kept@.len() - 1 {
                                assert(idx_has(
                                    pre,
                                    post_view(pre[a]).0,
                                    post_view(pre[a]).1,
                                    post_view(pre[a]).2,
                                ));
                            }
                        }
                    }
                }
            }
            proof {
                assert forall|f: Seq<char>, vs: Seq<char>, id: Seq<char>|
                    idx_has(kept@, f, vs, id) <==> (idx_has(orig.take(i + 1), f, vs, id) && !(id
                        == doc_id@ && doc_scalar(data@, f, vs))) by {
                    assert(idx_has(pre, f, vs, id) <==> (idx_has(orig.take(i as int), f, vs, id)
                        && !(id == doc_id@ && doc_scalar(data@, f, vs))));
                    assert(idx_has(orig.take(i + 1), f, vs, id) <==> (idx_has(
                        orig.take(i as int),
                        f,
                        vs,
                        id,
                    ) || post_view(orig[i as int]) == (f, vs, id)));
                }
            }
            i += 1;
        }
        proof {
            assert(orig.take(orig.len() as int) =~= orig);
        }
        self.postings = kept;
    }

    /// The ids filed under `(field, value)`: `None` when there are none.
    #[verifier::loop_isolation(false)]
    pub fn search(&self, field: &String, value: &String) -> (r: Option<Vec<String>>)
        requires
            self.wf(),
        ensures
            r is None <==> (forall|id: Seq<char>| !idx_has(self@, field@, value@, id)),
            match r {
                Some(ids) => {
                    &&& ids@.len() > 0
                    &&& forall|id: Seq<char>|
                        #![trigger ids_has(ids@, id)]
                        #![trigger idx_has(self@, field@, value@, id)]
                        ids_has(ids@, id) <==> idx_has(self@, field@, value@, id)
                    &&& forall|a: int, b: int|
                        0 <= a < b < ids@.len() ==> (#[trigger] ids@[a])@ != (#[trigger] ids@[b])@
                },
                None => true,
            },
    {
        let mut out: Vec<String> = Vec::new();
        let mut i: usize = 0;
        while i < self.postings.len()
            invariant
                0 <= i <= self@.len(),
                forall|id: Seq<char>|
                    #![trigger ids_has(out@, id)]
                    #![trigger idx_has(self@.take(i as int), field@, value@, id)]
                    ids_has(out@, id) <==> idx_has(self@.take(i as int), field@, value@, id),
                forall|a: int, b: int|
                    0 <= a < b < out@.len() ==> (#[trigger] out@[a])@ != (#[trigger] out@[b])@,
            decreases self@.len() - i,
        {
            let p = &self.postings[i];
            let ghost pre = out@;
            proof {
                lemma_idx_take_succ(self@, i as int);
            }
            let matched = str_eq(&p.0, field) && str_eq(&p.1, value);
            if matched {
                proof {
                    assert(!ids_has(out@, self@[i as int].2@)) by {
                        if ids_has(out@, self@[i as int].2@) {
                            assert(idx_has(
                                self@.take(i as int),
                                field@,
                                value@,
                                self@[i as int].2@,
                            ));
                            let wi = choose|wi: int|
                                0 <= wi < self@.take(i as int).len() && post_view(
                                    #[trigger] self@.take(i as int)[wi],
                                ) == (field@, value@, self@[i as int].2@);
                            assert(self@.take(i as int)[wi] == self@[wi]);
                            assert(post_view(self@[wi]) != post_view(self@[i as int]));
                        }
                    }
                }
                out.push(p.2.clone());
                proof {
                    assert forall|a: int, b: int|
                        0 <= a < b < out@.len() implies (#[trigger] out@[a])@ != (
                    #[trigger] out@[b])@ by {
                        if b == out@.len() - 1 {
                            assert(out@[a] == pre[a]);
                            assert(ids_has(pre, pre[a]@) <==> ids_has(pre, pre[a]@));
                            assert(0 <= a < pre.len() && pre[a]@ == pre[a]@);
                            assert(ids_has(pre, pre[a]@));
                        } else {
                            assert(out@[a] == pre[a]);
                            assert(out@[b] == pre[b]);
                        }
                    }
                }
            }
            proof {
                assert forall|id: Seq<char>|
                    ids_has(out@, id) <==> idx_has(self@.take(i + 1), field@, value@, id) by {
                    assert(ids_has(pre, id) <==> idx_has(
                        self@.take(i as int),
                        field@,
                        value@,
                        id,
                    ));
                    if matched {
                        assert(out@ =~= pre.push(out@.last()));
                        assert(ids_has(out@, id) <==> (ids_has(pre, id) || id == self@[
                            i as int].2@)) by {
                            if ids_has(out@, id) {
                                let wi = choose|wi: int|
                                    0 <= wi < out@.len() && (#[trigger] out@[wi])@ == id;
                                if wi < pre.len() {
                                    assert(pre[wi]@ == id);
                                }
                            }
                            if ids_has(pre, id) {
                                let wi = choose|wi: int|
                                    0 <= wi < pre.len() && (#[trigger] pre[wi])@ == id;
                                assert(out@[wi]@ == id);
                            }
                            if id == self@[i as int].2@ {
                                assert(out@[out@.len() - 1]@ == id);
                            }
                        }
                    }
                }
            }
            i += 1;
        }
        proof {
            assert(self@.take(self@.len() as int) =~= self@);
        }
        if out.len() == 0 {
            proof {
                assert forall|id: Seq<char>| !idx_has(self@, field@, value@, id) by {
                    if idx_has(self@, field@, value@, id) {
                        assert(ids_has(out@, id));
                    }
                }
            }
            None
        } else {
            proof {
                assert(0 <= 0 < out@.len() && out@[0]@ == out@[0]@);
                assert(ids_has(out@, out@[0]@));
                assert(idx_has(self@, field@, value@, out@[0]@));
            }
            Some(out)
        }
    }

    /// Drops every posting.
    pub fn clear(&mut self)
        ensures
            final(self).wf(),
            forall|f: Seq<char>, vs: Seq<char>, id: Seq<char>| !idx_has(final(self)@, f, vs, id),
    {
        self.postings.clear();
    }
}

} // verus!
