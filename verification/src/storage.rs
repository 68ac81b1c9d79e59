use vstd::prelude::*;

use crate::index::{Index, doc_scalar, idx_has};
use crate::json::{render_to_string, spec_render};
use crate::nums::{dec_val, is_dec, lemma_dec_roundtrip, parse_u64, spec_dec, u64_to_dec};
use crate::query::{QueryEngine, spec_matches};
use crate::smap::{
    lemma_skey_get_index, lemma_skey_get_none, lemma_skey_get_push, lemma_skey_get_remove,
    lemma_skey_get_update, skey_find, skey_get, skeys_unique,
};
use crate::text::{chars_to_string, str_to_chars};
use crate::value::{Jv, Value, wf_jv};

verus! {

/// The failures the engine reports.
#[derive(Debug)]
pub enum OpenDBSError {
    DatabaseNotFound(String),
    RackNotFound(String),
    DocumentNotFound(String),
    InvalidQuery(String),
    IoError(String),
    SerializationError(String),
    Internal(String),
}

/// One identified, timestamped document.
#[derive(Debug)]
pub struct Document {
    pub id: String,
    pub data: Value,
    pub created_at: u64,
    pub updated_at: u64,
}

impl Clone for Document {
    /// A clone has the same id, timestamps and data model.
    fn clone(&self) -> (r: Document)
        ensures
            r.id == self.id,
            r.data@ == self.data@,
            r.created_at == self.created_at,
            r.updated_at == self.updated_at,
    {
        Document {
            id: self.id.clone(),
            data: self.data.clone(),
            created_at: self.created_at,
            updated_at: self.updated_at,
        }
    }
}

/// The model of a document record as a value tree: the on-disk form.
pub open spec fn doc_jv(d: Document) -> Jv {
    Jv::Obj(
        seq![
            ("id"@, Jv::Str(d.id@)),
            ("data"@, d.data@),
            ("created_at"@, Jv::Int(d.created_at as int)),
            ("updated_at"@, Jv::Int(d.updated_at as int)),
        ],
    )
}

/// Renders a document record for persistence.
pub fn render_document(d: &Document) -> (r: String)
    requires
        d.created_at <= i64::MAX as u64,
        d.updated_at <= i64::MAX as u64,
    ensures
        r@ == spec_render(doc_jv(*d)),
{
    proof {
        reveal_strlit("id");
        reveal_strlit("data");
        reveal_strlit("created_at");
        reveal_strlit("updated_at");
    }
    let mut pairs: Vec<(String, Value)> = Vec::new();
    pairs.push(("id".to_owned(), Value::Str(d.id.clone())));
    pairs.push(("data".to_owned(), d.data.clone()));
    pairs.push(("created_at".to_owned(), int_of_u64(d.created_at)));
    pairs.push(("updated_at".to_owned(), int_of_u64(d.updated_at)));
    let v = Value::Obj(pairs);
    proof {
        broadcast use crate::value::lemma_pairs_of;

        assert(crate::value::pairs_of(v->Obj_0@) =~= doc_jv(*d)->Obj_0);
    }
    render_to_string(&v)
}

/// Reads a document record back from its rendered text.  A returned record
/// is pinned to the input: the text is exactly that record's own rendering,
/// so reading back what `render_document` wrote reproduces the record's
/// rendering verbatim.  `None` when the text is not such a rendering.
pub fn parse_document(s: &str) -> (r: Option<Document>)
    ensures
        r matches Some(d) ==> {
            &&& wf_jv(d.data@)
            &&& d.created_at <= i64::MAX as u64
            &&& d.updated_at <= i64::MAX as u64
            &&& s@ == spec_render(doc_jv(d))
        },
{
    let v = match crate::json::parse_value(s) {
        Some(v) => v,
        None => {
            return None;
        },
    };
    let pairs = match &v {
        Value::Obj(pairs) => pairs,
        _ => {
            return None;
        },
    };
    proof {
        reveal_strlit("id");
        reveal_strlit("data");
        reveal_strlit("created_at");
        reveal_strlit("updated_at");
    }
    let id = match crate::value::obj_get_pairs(pairs, &"id".to_owned()) {
        Some(Value::Str(id)) => id.clone(),
        _ => {
            return None;
        },
    };
    let data = match crate::value::obj_get_pairs(pairs, &"data".to_owned()) {
        Some(d) => d.clone(),
        None => {
            return None;
        },
    };
    let created_at: u64 = match crate::value::obj_get_pairs(pairs, &"created_at".to_owned()) {
        Some(Value::Int(n)) => if *n >= 0 {
            *n as u64
        } else {
            return None;
        },
        _ => {
            return None;
        },
    };
    let updated_at: u64 = match crate::value::obj_get_pairs(pairs, &"updated_at".to_owned()) {
        Some(Value::Int(n)) => if *n >= 0 {
            *n as u64
        } else {
            return None;
        },
        _ => {
            return None;
        },
    };
    proof {
        broadcast use crate::value::lemma_wf_pairs, crate::value::lemma_pairs_of;

        match v@ {
            Jv::Obj(pv) => {
                if crate::value::spec_obj_get(pv, "data"@) is Some {
                    crate::value::lemma_obj_get_some_index(pv, "data"@);
                    let wi = choose|wi: int|
                        0 <= wi < pv.len() && (#[trigger] pv[wi]).0 == "data"@
                            && crate::value::spec_obj_get(pv, "data"@) == Some(pv[wi].1);
                    assert(crate::value::wf_pairs(pv));
                    crate::value::lemma_wf_pairs(pv);
                    assert(wf_jv(pv[wi].1));
                }
            },
            _ => {},
        }
    }
    let d = Document { id, data, created_at, updated_at };
    let rendered = render_document(&d);
    if crate::value::str_eq(&rendered, &s.to_owned()) {
        Some(d)
    } else {
        None
    }
}

/// A number value carrying a non-negative count or timestamp.
fn int_of_u64(n: u64) -> (r: Value)
    requires
        n <= i64::MAX as u64,
    ensures
        r@ == Jv::Int(n as int),
{
    Value::Int(n as i64)
}

/// One fuzzy-search candidate: a document whose searched field is a string.
#[derive(Debug)]
pub struct FuzzyCandidate {
    pub id: String,
    pub text: String,
    pub rendered: String,
}

/// The documents whose data satisfies the query, in map order.
pub open spec fn spec_find(docs: Seq<(String, Document)>, q: Jv) -> Seq<Document>
    decreases docs.len(),
{
    if docs.len() == 0 {
        Seq::empty()
    } else {
        spec_find(docs.drop_last(), q) + (if spec_matches(docs.last().1.data@, q) {
            seq![docs.last().1]
        } else {
            Seq::empty()
        })
    }
}

/// The string held by the document's top-level `field`, if any.
pub open spec fn field_text(d: Document, field: Seq<char>) -> Option<Seq<char>> {
    match d.data@ {
        Jv::Obj(pairs) => match crate::value::spec_obj_get(pairs, field) {
            Some(Jv::Str(t)) => Some(t),
            _ => None,
        },
        _ => None,
    }
}

/// The documents whose `field` holds a string, in map order.
pub open spec fn spec_fuzzy(docs: Seq<(String, Document)>, field: Seq<char>) -> Seq<Document>
    decreases docs.len(),
{
    if docs.len() == 0 {
        Seq::empty()
    } else {
        spec_fuzzy(docs.drop_last(), field) + (if field_text(docs.last().1, field) is Some {
            seq![docs.last().1]
        } else {
            Seq::empty()
        })
    }
}

/// A reloadable document record: well-formed data, representable
/// timestamps, and an id that cannot collide with the counter's ceiling.
pub open spec fn record_ok(d: Document) -> bool {
    &&& wf_jv(d.data@)
    &&& d.created_at <= i64::MAX as u64
    &&& d.updated_at <= i64::MAX as u64
    &&& d.updated_at >= d.created_at
    &&& !(is_dec(d.id@) && dec_val(d.id@) == u64::MAX as int)
}

/// Records a rack can be rebuilt from: each one valid, ids pairwise distinct.
pub open spec fn records_ok(rs: Seq<Document>) -> bool {
    &&& forall|i: int| 0 <= i < rs.len() ==> record_ok(#[trigger] rs[i])
    &&& forall|i: int, j: int|
        0 <= i < j < rs.len() ==> (#[trigger] rs[i]).id@ != (#[trigger] rs[j]).id@
}

/// A named collection of documents with its identifier counter and index.
#[derive(Debug)]
pub struct Rack {
    pub name: String,
    pub documents: Vec<(String, Document)>,
    pub next_id: u64,
    pub index: Index,
}

impl Rack {
    /// The document bound to `id`, if any.
    pub open spec fn doc_of(&self, id: Seq<char>) -> Option<Document> {
        skey_get(self.documents@, id)
    }

    /// The rack's invariant: documents keyed by their own ids, unique keys,
    /// well-formed data, numeric ids below the counter, and an index that
    /// mirrors exactly the indexable top-level fields of the documents.
    pub open spec fn wf(&self) -> bool {
        &&& skeys_unique(self.documents@)
        &&& forall|i: int|
            0 <= i < self.documents@.len() ==> {
                let p = #[trigger] self.documents@[i];
                &&& p.0@ == p.1.id@
                &&& wf_jv(p.1.data@)
                &&& p.1.created_at <= i64::MAX as u64
                &&& p.1.updated_at <= i64::MAX as u64
                &&& p.1.updated_at >= p.1.created_at
                &&& (is_dec(p.1.id@) && dec_val(p.1.id@) <= u64::MAX as int ==> dec_val(p.1.id@)
                    < self.next_id)
            }
        &&& self.index.wf()
        &&& forall|f: Seq<char>, vs: Seq<char>, id: Seq<char>|
            #![trigger idx_has(self.index@, f, vs, id)]
            idx_has(self.index@, f, vs, id) <==> (match skey_get(self.documents@, id) {
                Some(d) => doc_scalar(d.data@, f, vs),
                None => false,
            })
    }

    /// An empty rack whose identifier generator starts at 1.
    pub fn new(name: &str) -> (r: Rack)
        ensures
            r.wf(),
            r.documents@.len() == 0,
            r.next_id == 1,
            r.name@ == name@,
    {
        Rack { name: name.to_owned(), documents: Vec::new(), next_id: 1, index: Index::new() }
    }

    /// Allocates the next identifier, indexes and publishes the document.
    /// Fails only when the identifier space is exhausted.
    pub fn insert_doc(&mut self, data: Value, now: u64) -> (r: Result<String, OpenDBSError>)
        requires
            old(self).wf(),
            wf_jv(data@),
            now <= i64::MAX as u64,
        ensures
            final(self).wf(),
            final(self).name == old(self).name,
            match r {
                Ok(id) => {
                    &&& old(self).next_id < u64::MAX
                    &&& id@ == spec_dec(old(self).next_id as nat)
                    &&& final(self).next_id == old(self).next_id + 1
                    &&& final(self).documents@.len() == old(self).documents@.len() + 1
                    &&& final(self).documents@.drop_last() == old(self).documents@
                    &&& final(self).documents@.last().0@ == id@
                    &&& final(self).documents@.last().1.id@ == id@
                    &&& final(self).documents@.last().1.data == data
                    &&& final(self).documents@.last().1.created_at == now
                    &&& final(self).documents@.last().1.updated_at == now
                    &&& old(self).doc_of(id@) is None
                    &&& final(self).doc_of(id@) == Some(final(self).documents@.last().1)
                    &&& forall|k: Seq<char>|
                        k != id@ ==> #[trigger] final(self).doc_of(k) == old(self).doc_of(k)
                },
                Err(e) => {
                    &&& e is Internal
                    &&& old(self).next_id == u64::MAX
                    &&& *final(self) == *old(self)
                },
            },
    {
        broadcast use lemma_dec_roundtrip;

        if self.next_id == u64::MAX {
            return Err(OpenDBSError::Internal("identifier space exhausted".to_owned()));
        }
        let idc = u64_to_dec(self.next_id);
        let id = chars_to_string(&idc);
        proof {
            assert(is_dec(id@) && dec_val(id@) == self.next_id);
            lemma_skey_get_none(self.documents@, id@);
            assert forall|i: int|
                0 <= i < self.documents@.len() implies (#[trigger] self.documents@[i]).0@
                != id@ by {
                let p = self.documents@[i];
                if p.0@ == id@ {
                    assert(is_dec(p.1.id@) && dec_val(p.1.id@) == self.next_id);
                }
            }
            assert(self.doc_of(id@) is None);
        }
        let ghost pre = *self;
        self.next_id = self.next_id + 1;
        self.index.index_document(&id, &data);
        let doc = Document { id: id.clone(), data, created_at: now, updated_at: now };
        self.documents.push((id.clone(), doc));
        proof {
            assert(self.documents@.drop_last() =~= pre.documents@);
            lemma_skey_get_push_all(pre.documents@, self.documents@.last(), pre, *self, id@);
            assert forall|k: Seq<char>| true implies #[trigger] self.doc_of(k) == (if k == id@ {
                Some(self.documents@.last().1)
            } else {
                pre.doc_of(k)
            }) by {
                lemma_skey_get_push(pre.documents@, self.documents@.last(), k);
            }
        }
        Ok(id)
    }
    /// Renders every document whose data satisfies the query, in map order.
    #[verifier::loop_isolation(false)]
    pub fn find_docs(&self, engine: &QueryEngine, query: &Value) -> (r: Vec<String>)
        requires
            self.wf(),
        ensures
            r@.len() == spec_find(self.documents@, query@).len(),
            forall|k: int|
                0 <= k < r@.len() ==> (#[trigger] r@[k])@ == spec_render(
                    doc_jv(spec_find(self.documents@, query@)[k]),
                ),
    {
        let ghost q = query@;
        let mut out: Vec<String> = Vec::new();
        proof {
            assert(self.documents@.take(0) =~= Seq::empty());
        }
        let mut i: usize = 0;
        while i < self.documents.len()
            invariant
                0 <= i <= self.documents@.len(),
                out@.len() == spec_find(self.documents@.take(i as int), q).len(),
                forall|k: int|
                    0 <= k < out@.len() ==> (#[trigger] out@[k])@ == spec_render(
                        doc_jv(spec_find(self.documents@.take(i as int), q)[k]),
                    ),
            decreases self.documents@.len() - i,
        {
            proof {
                assert(self.documents@.take(i + 1).drop_last() =~= self.documents@.take(i as int));
                assert(self.documents@.take(i + 1).last() == self.documents@[i as int]);
            }
            if engine.matches(&self.documents[i].1.data, query) {
                out.push(render_document(&self.documents[i].1));
                proof {
                    assert(spec_find(self.documents@.take(i + 1), q) =~= spec_find(
                        self.documents@.take(i as int),
                        q,
                    ) + seq![self.documents@[i as int].1]);
                }
            } else {
                proof {
                    assert(spec_find(self.documents@.take(i + 1), q) =~= spec_find(
                        self.documents@.take(i as int),
                        q,
                    ));
                }
            }
            i += 1;
        }
        proof {
            assert(self.documents@.take(self.documents@.len() as int) =~= self.documents@);
        }
        out
    }

    /// The fuzzy-search candidates: for every document whose `field` is a
    /// string, its id, that string, and the rendered document.
    #[verifier::loop_isolation(false)]
    pub fn fuzzy_candidates(&self, field: &String) -> (r: Vec<FuzzyCandidate>)
        requires
            self.wf(),
        ensures
            r@.len() == spec_fuzzy(self.documents@, field@).len(),
            forall|k: int|
                0 <= k < r@.len() ==> {
                    let d = spec_fuzzy(self.documents@, field@)[k];
                    &&& (#[trigger] r@[k]).id@ == d.id@
                    &&& Some(r@[k].text@) == field_text(d, field@)
                    &&& r@[k].rendered@ == spec_render(doc_jv(d))
                },
    {
        let mut out: Vec<FuzzyCandidate> = Vec::new();
        proof {
            assert(self.documents@.take(0) =~= Seq::empty());
        }
        let mut i: usize = 0;
        while i < self.documents.len()
            invariant
                0 <= i <= self.documents@.len(),
                out@.len() == spec_fuzzy(self.documents@.take(i as int), field@).len(),
                forall|k: int|
                    0 <= k < out@.len() ==> {
                        let d = spec_fuzzy(self.documents@.take(i as int), field@)[k];
                        &&& (#[trigger] out@[k]).id@ == d.id@
                        &&& Some(out@[k].text@) == field_text(d, field@)
                        &&& out@[k].rendered@ == spec_render(doc_jv(d))
                    },
            decreases self.documents@.len() - i,
        {
            proof {
                assert(self.documents@.take(i + 1).drop_last() =~= self.documents@.take(i as int));
                assert(self.documents@.take(i + 1).last() == self.documents@[i as int]);
            }
            let d = &self.documents[i].1;
            let mut hit: Option<String> = None;
            match d.data.get_field(field) {
                Some(v) => match v {
                    Value::Str(t) => {
                        hit = Some(t.clone());
                    },
                    _ => {},
                },
                None => {},
            }
            match hit {
                Some(text) => {
                    proof {
                        assert(field_text(self.documents@[i as int].1, field@) == Some(text@));
                        assert(spec_fuzzy(self.documents@.take(i + 1), field@) =~= spec_fuzzy(
                            self.documents@.take(i as int),
                            field@,
                        ) + seq![self.documents@[i as int].1]);
                    }
                    let rendered = render_document(d);
                    out.push(FuzzyCandidate { id: d.id.clone(), text, rendered });
                },
                None => {
                    proof {
                        assert(field_text(self.documents@[i as int].1, field@) is None);
                        assert(spec_fuzzy(self.documents@.take(i + 1), field@) =~= spec_fuzzy(
                            self.documents@.take(i as int),
                            field@,
                        ));
                    }
                },
            }
            i += 1;
        }
        proof {
            assert(self.documents@.take(self.documents@.len() as int) =~= self.documents@);
        }
        out
    }

    /// Rebuilds a rack from reloaded document records: every record is
    /// validated, indexed and published, and the identifier counter is
    /// seeded above every numeric id seen.
    #[verifier::loop_isolation(false)]
    #[verifier::rlimit(80)]
    pub fn load(name: &str, records: Vec<Document>) -> (r: Result<Rack, OpenDBSError>)
        ensures
            r is Ok <==> records_ok(records@),
            match r {
                Ok(rack) => {
                    &&& rack.wf()
                    &&& rack.name@ == name@
                    &&& rack.documents@.len() == records@.len()
                    &&& forall|i: int|
                        0 <= i < records@.len() ==> (#[trigger] rack.documents@[i]).0@
                            == records@[i].id@ && rack.documents@[i].1 == records@[i]
                    &&& rack.next_id == 1 || (exists|i: int|
                        0 <= i < records@.len() && is_dec((#[trigger] records@[i]).id@) && dec_val(
                            records@[i].id@,
                        ) == rack.next_id - 1)
                },
                Err(e) => e is Internal,
            },
    {
        let mut rack = Rack::new(name);
        let ghost rs = records@;
        let mut rest = records;
        let mut k: usize = 0;
        proof {
            assert(rest@ =~= rs.skip(0));
        }
        while rest.len() > 0
            invariant
                rack.wf(),
                rack.name@ == name@,
                k + rest@.len() == rs.len(),
                rest@ == rs.skip(k as int),
                rack.documents@.len() == k,
                forall|i: int|
                    0 <= i < k ==> (#[trigger] rack.documents@[i]).0@ == rs[i].id@
                        && rack.documents@[i].1 == rs[i],
                forall|i: int| 0 <= i < k ==> record_ok(#[trigger] rs[i]),
                rack.next_id == 1 || (exists|i: int|
                    0 <= i < k && is_dec((#[trigger] rs[i]).id@) && dec_val(rs[i].id@)
                        == rack.next_id - 1),
            decreases rest@.len(),
        {
            proof {
                assert(rs.skip(k as int)[0] == rs[k as int]);
            }
            let d = rest.remove(0);
            proof {
                assert(rest@ =~= rs.skip(k as int + 1));
            }
            if !d.data.is_wf() {
                proof {
                    assert(!record_ok(rs[k as int]));
                }
                return Err(OpenDBSError::Internal("malformed document data".to_owned()));
            }
            if d.created_at > i64::MAX as u64 || d.updated_at > i64::MAX as u64
                || d.updated_at < d.created_at {
                proof {
                    assert(!record_ok(rs[k as int]));
                }
                return Err(OpenDBSError::Internal("timestamp out of range".to_owned()));
            }
            let idc = str_to_chars(d.id.as_str());
            match parse_u64(&idc) {
                Some(n) => {
                    if n == u64::MAX {
                        proof {
                            assert(!record_ok(rs[k as int]));
                        }
                        return Err(OpenDBSError::Internal("identifier out of range".to_owned()));
                    }
                    if n >= rack.next_id {
                        rack.next_id = n + 1;
                        proof {
                            assert(0 <= k < rs.len() && is_dec((#[trigger] rs[k as int]).id@)
                                && dec_val(rs[k as int].id@) == rack.next_id - 1);
                        }
                    }
                },
                None => {},
            }
            if skey_find(&rack.documents, &d.id).is_some() {
                proof {
                    let wi = choose|wi: int|
                        0 <= wi < rack.documents@.len() && (#[trigger] rack.documents@[wi]).0@
                            == d.id@;
                    assert(rs[wi].id@ == rs[k as int].id@);
                    assert(!records_ok(rs));
                }
                return Err(OpenDBSError::Internal("duplicate document id".to_owned()));
            }
            let ghost pre = rack;
            rack.index.index_document(&d.id, &d.data);
            let ghost gd = d;
            rack.documents.push((d.id.clone(), d));
            k = rack.documents.len();
            proof {
                assert(rack.documents@.drop_last() =~= pre.documents@);
                lemma_skey_get_push_all(pre.documents@, rack.documents@.last(), pre, rack, gd.id@);
                assert(record_ok(rs[k - 1]));
            }
        }
        proof {
            assert(rack.documents@.len() == rs.len());
            assert(records_ok(rs)) by {
                assert forall|i: int, j: int|
                    0 <= i < j < rs.len() implies (#[trigger] rs[i]).id@ != (
                #[trigger] rs[j]).id@ by {
                    assert(rack.documents@[i].0@ == rs[i].id@);
                    assert(rack.documents@[j].0@ == rs[j].id@);
                }
            }
        }
        Ok(rack)
    }

    /// Replaces a document's data wholesale, refreshing its index entries
    /// and its update timestamp; false when `id` is not present.
    pub fn update_doc(&mut self, id: &String, data: Value, now: u64) -> (r: bool)
        requires
            old(self).wf(),
            wf_jv(data@),
            now <= i64::MAX as u64,
        ensures
            final(self).wf(),
            final(self).name == old(self).name,
            final(self).next_id == old(self).next_id,
            r == (old(self).doc_of(id@) is Some),
            !r ==> *final(self) == *old(self),
            r ==> {
                let d0 = old(self).doc_of(id@)->Some_0;
                let d1 = final(self).doc_of(id@)->Some_0;
                &&& final(self).doc_of(id@) is Some
                &&& d1.id@ == d0.id@
                &&& d1.data == data
                &&& d1.created_at == d0.created_at
                &&& d1.updated_at == (if now >= d0.created_at {
                    now
                } else {
                    d0.created_at
                })
            },
            forall|k: Seq<char>|
                k != id@ ==> #[trigger] final(self).doc_of(k) == old(self).doc_of(k),
    {
        match skey_find(&self.documents, id) {
            None => false,
            Some(i) => {
                let ghost pre = *self;
                let (key, mut doc) = self.documents.remove(i);
                self.index.remove_document(&key, &doc.data);
                doc.data = data;
                doc.updated_at = if now >= doc.created_at {
                    now
                } else {
                    doc.created_at
                };
                self.index.index_document(&key, &doc.data);
                self.documents.insert(i, (key, doc));
                proof {
                    assert(self.documents@ =~= pre.documents@.update(
                        i as int,
                        self.documents@[i as int],
                    ));
                    assert(self.documents@[i as int].0 == pre.documents@[i as int].0);
                    lemma_rack_update_all(pre, *self, i as int, id@, now);
                }
                true
            },
        }
    }

    /// Removes a document from the map and its entries from the index;
    /// false when `id` is not present.
    pub fn delete_doc(&mut self, id: &String) -> (r: bool)
        requires
            old(self).wf(),
        ensures
            final(self).wf(),
            final(self).name == old(self).name,
            final(self).next_id == old(self).next_id,
            r == (old(self).doc_of(id@) is Some),
            !r ==> *final(self) == *old(self),
            final(self).doc_of(id@) is None,
            forall|k: Seq<char>|
                k != id@ ==> #[trigger] final(self).doc_of(k) == old(self).doc_of(k),
    {
        match skey_find(&self.documents, id) {
            None => {
                proof {
                    lemma_skey_get_none(self.documents@, id@);
                }
                false
            },
            Some(i) => {
                let ghost pre = *self;
                let (key, doc) = self.documents.remove(i);
                self.index.remove_document(&key, &doc.data);
                proof {
                    lemma_rack_remove_all(pre, *self, i as int, id@);
                }
                true
            },
        }
    }
}

/// A named set of racks: a pure namespace container.
#[derive(Debug)]
pub struct Database {
    pub name: String,
    pub racks: Vec<(String, Rack)>,
}

impl Database {
    pub open spec fn rack_of(&self, rack: Seq<char>) -> Option<Rack> {
        skey_get(self.racks@, rack)
    }

    pub open spec fn wf(&self) -> bool {
        &&& skeys_unique(self.racks@)
        &&& forall|i: int| 0 <= i < self.racks@.len() ==> (#[trigger] self.racks@[i]).1.wf()
    }
}

/// Top-level owner of all databases.
#[derive(Debug)]
pub struct StorageEngine {
    pub databases: Vec<(String, Database)>,
}

/// The rack registered under a database name and rack name, if any.
pub open spec fn rack_of(e: StorageEngine, db: Seq<char>, rk: Seq<char>) -> Option<Rack> {
    match skey_get(e.databases@, db) {
        Some(d) => skey_get(d.racks@, rk),
        None => None,
    }
}

impl StorageEngine {
    pub open spec fn db_of(&self, name: Seq<char>) -> Option<Database> {
        skey_get(self.databases@, name)
    }

    pub open spec fn wf(&self) -> bool {
        &&& skeys_unique(self.databases@)
        &&& forall|i: int| 0 <= i < self.databases@.len() ==> (#[trigger] self.databases@[i]).1.wf()
    }

    /// An engine with no databases; reloading racks is the caller's step.
    pub fn new() -> (r: StorageEngine)
        ensures
            r.wf(),
            r.databases@.len() == 0,
    {
        StorageEngine { databases: Vec::new() }
    }

    /// Registers an empty database; false, and no change, when the name is
    /// already taken.
    pub fn create_database(&mut self, name: &str) -> (r: bool)
        requires
            old(self).wf(),
        ensures
            final(self).wf(),
            r == (old(self).db_of(name@) is None),
            !r ==> *final(self) == *old(self),
            r ==> (final(self).databases@.len() == old(self).databases@.len() + 1
                && final(self).databases@.drop_last() == old(self).databases@
                && final(self).databases@.last().0@ == name@
                && final(self).databases@.last().1.racks@.len() == 0),
            final(self).db_of(name@) is Some,
            forall|k: Seq<char>|
                k != name@ ==> #[trigger] final(self).db_of(k) == old(self).db_of(k),
    {
        let key = name.to_owned();
        match skey_find(&self.databases, &key) {
            Some(_) => {
                false
            },
            None => {
                let ghost pre = self.databases@;
                let db = Database { name: name.to_owned(), racks: Vec::new() };
                self.databases.push((key, db));
                proof {
                    assert forall|k: Seq<char>| true implies #[trigger] skey_get(
                        self.databases@,
                        k,
                    ) == (if k == name@ {
                        Some(self.databases@.last().1)
                    } else {
                        skey_get(pre, k)
                    }) by {
                        lemma_skey_get_push(pre, self.databases@.last(), k);
                    }
                    assert(skeys_unique(self.databases@)) by {
                        lemma_skey_get_push(pre, self.databases@.last(), name@);
                    }
                    assert forall|i: int|
                        0 <= i < self.databases@.len() implies (#[trigger] self.databases@[i]).1.wf()
                        by {
                        if i < pre.len() {
                            assert(self.databases@[i] == pre[i]);
                        }
                    }
                    assert(self.databases@ =~= pre.push(
                        (self.databases@.last().0, self.databases@.last().1),
                    ));
                }
                true
            },
        }
    }

    /// Creates an empty rack inside a database; false when the rack exists,
    /// an error when the database does not.
    pub fn create_rack(&mut self, database: &str, rack: &str) -> (r: Result<bool, OpenDBSError>)
        requires
            old(self).wf(),
        ensures
            final(self).wf(),
            match r {
                Err(e) => e is DatabaseNotFound && final(self).databases@ == old(self).databases@
                    && old(self).db_of(database@) is None,
                Ok(b) => {
                    &&& old(self).db_of(database@) is Some
                    &&& b == (rack_of(*old(self), database@, rack@) is None)
                    &&& !b ==> final(self).databases@ == old(self).databases@
                    &&& b ==> {
                        &&& rack_of(*final(self), database@, rack@) matches Some(r1) && r1.wf()
                            && r1.documents@.len() == 0 && r1.next_id == 1
                        &&& forall|d2: Seq<char>, k2: Seq<char>|
                            !(d2 == database@ && k2 == rack@) ==> #[trigger] rack_of(
                                *final(self),
                                d2,
                                k2,
                            ) == rack_of(*old(self), d2, k2)
                        &&& forall|k: Seq<char>|
                            (#[trigger] final(self).db_of(k)) is Some <==> old(self).db_of(k)
                                is Some
                    }
                },
            },
    {
        let dbkey = database.to_owned();
        match skey_find(&self.databases, &dbkey) {
            None => Err(OpenDBSError::DatabaseNotFound(dbkey)),
            Some(i) => {
                let rkkey = rack.to_owned();
                let ghost pre = *self;
                let (dname, mut db) = self.databases.remove(i);
                match skey_find(&db.racks, &rkkey) {
                    Some(_) => {
                        self.databases.insert(i, (dname, db));
                        proof {
                            assert(self.databases@ =~= pre.databases@);
                        }
                        Ok(false)
                    },
                    None => {
                        let ghost dpre = db.racks@;
                        let newrack = Rack::new(rack);
                        db.racks.push((rkkey, newrack));
                        proof {
                            assert forall|k: Seq<char>| true implies #[trigger] skey_get(
                                db.racks@,
                                k,
                            ) == (if k == rack@ {
                                Some(db.racks@.last().1)
                            } else {
                                skey_get(dpre, k)
                            }) by {
                                lemma_skey_get_push(dpre, db.racks@.last(), k);
                            }
                            assert(skeys_unique(db.racks@)) by {
                                lemma_skey_get_push(dpre, db.racks@.last(), rack@);
                            }
                            assert forall|j: int|
                                0 <= j < db.racks@.len() implies (#[trigger] db.racks@[j]).1.wf()
                                by {
                                if j < dpre.len() {
                                    assert(db.racks@[j] == dpre[j]);
                                }
                            }
                        }
                        let ghost gdb = db;
                        let ghost gdname = dname;
                        self.databases.insert(i, (dname, db));
                        proof {
                            assert(self.databases@ =~= pre.databases@.update(
                                i as int,
                                (gdname, gdb),
                            ));
                            assert(self.databases@[i as int] == (gdname, gdb));
                            assert(self.databases@[i as int].1.racks@ == gdb.racks@);
                            lemma_engine_put_back(pre, *self, i as int, database@);
                            assert(rack_of(*self, database@, rack@) is Some);
                            assert forall|d2: Seq<char>, k2: Seq<char>|
                                !(d2 == database@ && k2 == rack@) implies #[trigger] rack_of(
                                *self,
                                d2,
                                k2,
                            ) == rack_of(pre, d2, k2) by {
                                if d2 == database@ {
                                    assert(self.db_of(database@) == Some(
                                        self.databases@[i as int].1,
                                    ));
                                    assert(self.databases@[i as int].1.racks@ == gdb.racks@);
                                    assert(skey_get(gdb.racks@, k2) == skey_get(dpre, k2));
                                    assert(pre.db_of(database@) == Some(
                                        pre.databases@[i as int].1,
                                    ));
                                    assert(pre.databases@[i as int].1.racks@ == dpre);
                                } else {
                                    assert(self.db_of(d2) == pre.db_of(d2));
                                }
                            }
                            assert forall|k: Seq<char>|
                                (#[trigger] self.db_of(k)) is Some <==> pre.db_of(k) is Some by {}
                        }
                        Ok(true)
                    },
                }
            },
        }
    }

    /// Installs a rack rebuilt from reloaded records into a database, as the
    /// startup scan does; fails when the database is missing, the rack name
    /// is already taken, or the records cannot rebuild a rack.
    #[verifier::rlimit(60)]
    pub fn load_rack(&mut self, database: &str, rack: &str, records: Vec<Document>) -> (r: Result<
        (),
        OpenDBSError,
    >)
        requires
            old(self).wf(),
        ensures
            final(self).wf(),
            match r {
                Err(e) => {
                    &&& forall|d2: Seq<char>, k2: Seq<char>|
                        #[trigger] rack_of(*final(self), d2, k2) == rack_of(*old(self), d2, k2)
                    &&& forall|k: Seq<char>|
                        (#[trigger] final(self).db_of(k)) is Some <==> old(self).db_of(k) is Some
                    &&& e is DatabaseNotFound || e is Internal
                    &&& (e is DatabaseNotFound <==> old(self).db_of(database@) is None)
                    &&& (e is Internal <==> old(self).db_of(database@) is Some && (rack_of(
                        *old(self),
                        database@,
                        rack@,
                    ) is Some || !records_ok(records@)))
                },
                Ok(u) => {
                    &&& old(self).db_of(database@) is Some
                    &&& rack_of(*old(self), database@, rack@) is None
                    &&& records_ok(records@)
                    &&& {
                        let r1 = rack_of(*final(self), database@, rack@)->Some_0;
                        &&& rack_of(*final(self), database@, rack@) is Some
                        &&& r1.wf()
                        &&& r1.documents@.len() == records@.len()
                        &&& forall|i: int|
                            0 <= i < records@.len() ==> (#[trigger] r1.documents@[i]).0@
                                == records@[i].id@ && r1.documents@[i].1 == records@[i]
                    }
                    &&& forall|d2: Seq<char>, k2: Seq<char>|
                        !(d2 == database@ && k2 == rack@) ==> #[trigger] rack_of(
                            *final(self),
                            d2,
                            k2,
                        ) == rack_of(*old(self), d2, k2)
                    &&& forall|k: Seq<char>|
                        (#[trigger] final(self).db_of(k)) is Some <==> old(self).db_of(k) is Some
                },
            },
    {
        let dbkey = database.to_owned();
        match skey_find(&self.databases, &dbkey) {
            None => Err(OpenDBSError::DatabaseNotFound(dbkey)),
            Some(i) => {
                let rkkey = rack.to_owned();
                let ghost pre = *self;
                let (dname, mut db) = self.databases.remove(i);
                if skey_find(&db.racks, &rkkey).is_some() {
                    self.databases.insert(i, (dname, db));
                    proof {
                        assert(self.databases@ =~= pre.databases@);
                    }
                    return Err(OpenDBSError::Internal("rack already loaded".to_owned()));
                }
                match Rack::load(rack, records) {
                    Err(e) => {
                        self.databases.insert(i, (dname, db));
                        proof {
                            assert(self.databases@ =~= pre.databases@);
                        }
                        Err(e)
                    },
                    Ok(loaded) => {
                        let ghost dpre = db.racks@;
                        db.racks.push((rkkey, loaded));
                        proof {
                            assert forall|k: Seq<char>| true implies #[trigger] skey_get(
                                db.racks@,
                                k,
                            ) == (if k == rack@ {
                                Some(db.racks@.last().1)
                            } else {
                                skey_get(dpre, k)
                            }) by {
                                lemma_skey_get_push(dpre, db.racks@.last(), k);
                            }
                            assert(skeys_unique(db.racks@)) by {
                                lemma_skey_get_push(dpre, db.racks@.last(), rack@);
                            }
                            assert forall|j: int|
                                0 <= j < db.racks@.len() implies (#[trigger] db.racks@[j]).1.wf()
                                by {
                                if j < dpre.len() {
                                    assert(db.racks@[j] == dpre[j]);
                                }
                            }
                        }
                        let ghost gdname = dname;
                        let ghost gdb = db;
                        self.databases.insert(i, (dname, db));
                        proof {
                            assert(self.databases@ =~= pre.databases@.update(
                                i as int,
                                (gdname, gdb),
                            ));
                            assert(self.databases@[i as int] == (gdname, gdb));
                            lemma_engine_put_back(pre, *self, i as int, database@);
                            assert(rack_of(*self, database@, rack@) is Some);
                            assert forall|d2: Seq<char>, k2: Seq<char>|
                                !(d2 == database@ && k2 == rack@) implies #[trigger] rack_of(
                                *self,
                                d2,
                                k2,
                            ) == rack_of(pre, d2, k2) by {
                                if d2 == database@ {
                                    assert(self.db_of(database@) == Some(
                                        self.databases@[i as int].1,
                                    ));
                                    assert(self.databases@[i as int].1.racks@ == gdb.racks@);
                                    assert(skey_get(gdb.racks@, k2) == skey_get(dpre, k2));
                                    assert(pre.db_of(database@) == Some(
                                        pre.databases@[i as int].1,
                                    ));
                                    assert(pre.databases@[i as int].1.racks@ == dpre);
                                } else {
                                    assert(self.db_of(d2) == pre.db_of(d2));
                                }
                            }
                            assert forall|k: Seq<char>|
                                (#[trigger] self.db_of(k)) is Some <==> pre.db_of(k) is Some by {}
                        }
                        Ok(())
                    },
                }
            },
        }
    }

    /// Allocates an id, stamps timestamps, indexes and publishes a document
    /// in the named rack.
    #[verifier::rlimit(60)]
    pub fn insert(&mut self, database: &str, rack: &str, data: Value, now: u64) -> (r: Result<
        String,
        OpenDBSError,
    >)
        requires
            old(self).wf(),
            wf_jv(data@),
            now <= i64::MAX as u64,
        ensures
            final(self).wf(),
            match r {
                Err(e) => {
                    &&& forall|d2: Seq<char>, k2: Seq<char>|
                        #[trigger] rack_of(*final(self), d2, k2) == rack_of(*old(self), d2, k2)
                    &&& forall|k: Seq<char>|
                        (#[trigger] final(self).db_of(k)) is Some <==> old(self).db_of(k) is Some
                    &&& e is DatabaseNotFound || e is RackNotFound || e is Internal
                    &&& (e is DatabaseNotFound <==> old(self).db_of(database@) is None)
                    &&& (e is RackNotFound <==> old(self).db_of(database@) is Some && rack_of(
                        *old(self),
                        database@,
                        rack@,
                    ) is None)
                    &&& (e is Internal <==> (rack_of(*old(self), database@, rack@) matches Some(r0)
                        && r0.next_id == u64::MAX))
                },
                Ok(id) => {
                    &&& rack_of(*old(self), database@, rack@) is Some
                    &&& {
                        let r0 = rack_of(*old(self), database@, rack@)->Some_0;
                        let r1 = rack_of(*final(self), database@, rack@)->Some_0;
                        &&& rack_of(*final(self), database@, rack@) is Some
                        &&& r0.next_id < u64::MAX
                        &&& id@ == spec_dec(r0.next_id as nat)
                        &&& r1.next_id == r0.next_id + 1
                        &&& r0.doc_of(id@) is None
                        &&& r1.doc_of(id@) matches Some(d) && d.id@ == id@ && d.data == data
                            && d.created_at == now && d.updated_at == now
                        &&& forall|k: Seq<char>|
                            k != id@ ==> #[trigger] r1.doc_of(k) == r0.doc_of(k)
                    }
                    &&& forall|d2: Seq<char>, k2: Seq<char>|
                        !(d2 == database@ && k2 == rack@) ==> #[trigger] rack_of(
                            *final(self),
                            d2,
                            k2,
                        ) == rack_of(*old(self), d2, k2)
                },
            },
    {
        let dbkey = database.to_owned();
        match skey_find(&self.databases, &dbkey) {
            None => Err(OpenDBSError::DatabaseNotFound(dbkey)),
            Some(i) => {
                let rkkey = rack.to_owned();
                let ghost pre = *self;
                let (dname, mut db) = self.databases.remove(i);
                match skey_find(&db.racks, &rkkey) {
                    None => {
                        self.databases.insert(i, (dname, db));
                        proof {
                            assert(self.databases@ =~= pre.databases@);
                        }
                        Err(OpenDBSError::RackNotFound(rkkey))
                    },
                    Some(j) => {
                        let ghost dpre = db;
                        let (rname, mut rk) = db.racks.remove(j);
                        let res = rk.insert_doc(data, now);
                        let ghost grname = rname;
                        let ghost grk = rk;
                        db.racks.insert(j, (rname, rk));
                        proof {
                            assert(db.racks@ =~= dpre.racks@.update(j as int, (grname, grk)));
                            assert(db.racks@[j as int] == (grname, grk));
                            lemma_db_put_back(dpre, db, j as int, rack@);
                        }
                        let ghost gdname = dname;
                        let ghost gdb = db;
                        self.databases.insert(i, (dname, db));
                        proof {
                            assert(self.databases@ =~= pre.databases@.update(
                                i as int,
                                (gdname, gdb),
                            ));
                            assert(self.databases@[i as int] == (gdname, gdb));
                            lemma_engine_put_back(pre, *self, i as int, database@);
                            assert(rack_of(*self, database@, rack@) == Some(grk));
                            assert(rack_of(pre, database@, rack@) == Some(dpre.racks@[j as int].1));
                            assert forall|d2: Seq<char>, k2: Seq<char>|
                                !(d2 == database@ && k2 == rack@) implies #[trigger] rack_of(
                                *self,
                                d2,
                                k2,
                            ) == rack_of(pre, d2, k2) by {
                                if d2 == database@ {
                                    assert(self.db_of(database@) == Some(
                                        self.databases@[i as int].1,
                                    ));
                                    assert(self.databases@[i as int].1 == gdb);
                                    assert(gdb.rack_of(k2) == dpre.rack_of(k2));
                                    assert(pre.db_of(database@) == Some(dpre));
                                } else {
                                    assert(self.db_of(d2) == pre.db_of(d2));
                                }
                            }
                        }
                        match res {
                            Ok(id) => Ok(id),
                            Err(e) => Err(e),
                        }
                    },
                }
            },
        }
    }

    /// Replaces a document's data and refreshes its timestamps and index
    /// entries; `Ok(false)` when the id is absent.
    #[verifier::rlimit(60)]
    pub fn update(&mut self, database: &str, rack: &str, id: &str, data: Value, now: u64) -> (r:
        Result<bool, OpenDBSError>)
        requires
            old(self).wf(),
            wf_jv(data@),
            now <= i64::MAX as u64,
        ensures
            final(self).wf(),
            match r {
                Err(e) => {
                    &&& forall|d2: Seq<char>, k2: Seq<char>|
                        #[trigger] rack_of(*final(self), d2, k2) == rack_of(*old(self), d2, k2)
                    &&& forall|k: Seq<char>|
                        (#[trigger] final(self).db_of(k)) is Some <==> old(self).db_of(k) is Some
                    &&& e is DatabaseNotFound || e is RackNotFound
                    &&& (e is DatabaseNotFound <==> old(self).db_of(database@) is None)
                    &&& (e is RackNotFound <==> old(self).db_of(database@) is Some && rack_of(
                        *old(self),
                        database@,
                        rack@,
                    ) is None)
                },
                Ok(b) => {
                    &&& rack_of(*old(self), database@, rack@) is Some
                    &&& {
                        let r0 = rack_of(*old(self), database@, rack@)->Some_0;
                        let r1 = rack_of(*final(self), database@, rack@)->Some_0;
                        &&& rack_of(*final(self), database@, rack@) is Some
                        &&& b == (r0.doc_of(id@) is Some)
                        &&& r1.next_id == r0.next_id
                        &&& b ==> {
                            let d0 = r0.doc_of(id@)->Some_0;
                            let d1 = r1.doc_of(id@)->Some_0;
                            &&& r1.doc_of(id@) is Some
                            &&& d1.id@ == d0.id@
                            &&& d1.data == data
                            &&& d1.created_at == d0.created_at
                            &&& d1.updated_at == (if now >= d0.created_at {
                                now
                            } else {
                                d0.created_at
                            })
                        }
                        &&& !b ==> r1.documents@ == r0.documents@
                        &&& forall|k: Seq<char>|
                            k != id@ ==> #[trigger] r1.doc_of(k) == r0.doc_of(k)
                    }
                    &&& forall|d2: Seq<char>, k2: Seq<char>|
                        !(d2 == database@ && k2 == rack@) ==> #[trigger] rack_of(
                            *final(self),
                            d2,
                            k2,
                        ) == rack_of(*old(self), d2, k2)
                },
            },
    {
        let dbkey = database.to_owned();
        match skey_find(&self.databases, &dbkey) {
            None => Err(OpenDBSError::DatabaseNotFound(dbkey)),
            Some(i) => {
                let rkkey = rack.to_owned();
                let ghost pre = *self;
                let (dname, mut db) = self.databases.remove(i);
                match skey_find(&db.racks, &rkkey) {
                    None => {
                        self.databases.insert(i, (dname, db));
                        proof {
                            assert(self.databases@ =~= pre.databases@);
                        }
                        Err(OpenDBSError::RackNotFound(rkkey))
                    },
                    Some(j) => {
                        let ghost dpre = db;
                        let (rname, mut rk) = db.racks.remove(j);
                        let idkey = id.to_owned();
                        let b = rk.update_doc(&idkey, data, now);
                        let ghost grname = rname;
                        let ghost grk = rk;
                        db.racks.insert(j, (rname, rk));
                        proof {
                            assert(db.racks@ =~= dpre.racks@.update(j as int, (grname, grk)));
                            assert(db.racks@[j as int] == (grname, grk));
                            lemma_db_put_back(dpre, db, j as int, rack@);
                        }
                        let ghost gdname = dname;
                        let ghost gdb = db;
                        self.databases.insert(i, (dname, db));
                        proof {
                            assert(self.databases@ =~= pre.databases@.update(
                                i as int,
                                (gdname, gdb),
                            ));
                            assert(self.databases@[i as int] == (gdname, gdb));
                            lemma_engine_put_back(pre, *self, i as int, database@);
                            assert(rack_of(*self, database@, rack@) == Some(grk));
                            assert(rack_of(pre, database@, rack@) == Some(dpre.racks@[j as int].1));
                            assert forall|d2: Seq<char>, k2: Seq<char>|
                                !(d2 == database@ && k2 == rack@) implies #[trigger] rack_of(
                                *self,
                                d2,
                                k2,
                            ) == rack_of(pre, d2, k2) by {
                                if d2 == database@ {
                                    assert(self.db_of(database@) == Some(
                                        self.databases@[i as int].1,
                                    ));
                                    assert(self.databases@[i as int].1 == gdb);
                                    assert(gdb.rack_of(k2) == dpre.rack_of(k2));
                                    assert(pre.db_of(database@) == Some(dpre));
                                } else {
                                    assert(self.db_of(d2) == pre.db_of(d2));
                                }
                            }
                        }
                        Ok(b)
                    },
                }
            },
        }
    }

    /// Removes a document from the rack, its index and the callers' view;
    /// `Ok(false)` when the id is absent.
    #[verifier::rlimit(60)]
    pub fn delete(&mut self, database: &str, rack: &str, id: &str) -> (r: Result<
        bool,
        OpenDBSError,
    >)
        requires
            old(self).wf(),
        ensures
            final(self).wf(),
            match r {
                Err(e) => {
                    &&& forall|d2: Seq<char>, k2: Seq<char>|
                        #[trigger] rack_of(*final(self), d2, k2) == rack_of(*old(self), d2, k2)
                    &&& forall|k: Seq<char>|
                        (#[trigger] final(self).db_of(k)) is Some <==> old(self).db_of(k) is Some
                    &&& e is DatabaseNotFound || e is RackNotFound
                    &&& (e is DatabaseNotFound <==> old(self).db_of(database@) is None)
                    &&& (e is RackNotFound <==> old(self).db_of(database@) is Some && rack_of(
                        *old(self),
                        database@,
                        rack@,
                    ) is None)
                },
                Ok(b) => {
                    &&& rack_of(*old(self), database@, rack@) is Some
                    &&& {
                        let r0 = rack_of(*old(self), database@, rack@)->Some_0;
                        let r1 = rack_of(*final(self), database@, rack@)->Some_0;
                        &&& rack_of(*final(self), database@, rack@) is Some
                        &&& b == (r0.doc_of(id@) is Some)
                        &&& r1.next_id == r0.next_id
                        &&& r1.doc_of(id@) is None
                        &&& !b ==> r1.documents@ == r0.documents@
                        &&& forall|k: Seq<char>|
                            k != id@ ==> #[trigger] r1.doc_of(k) == r0.doc_of(k)
                    }
                    &&& forall|d2: Seq<char>, k2: Seq<char>|
                        !(d2 == database@ && k2 == rack@) ==> #[trigger] rack_of(
                            *final(self),
                            d2,
                            k2,
                        ) == rack_of(*old(self), d2, k2)
                },
            },
    {
        let dbkey = database.to_owned();
        match skey_find(&self.databases, &dbkey) {
            None => Err(OpenDBSError::DatabaseNotFound(dbkey)),
            Some(i) => {
                let rkkey = rack.to_owned();
                let ghost pre = *self;
                let (dname, mut db) = self.databases.remove(i);
                match skey_find(&db.racks, &rkkey) {
                    None => {
                        self.databases.insert(i, (dname, db));
                        proof {
                            assert(self.databases@ =~= pre.databases@);
                        }
                        Err(OpenDBSError::RackNotFound(rkkey))
                    },
                    Some(j) => {
                        let ghost dpre = db;
                        let (rname, mut rk) = db.racks.remove(j);
                        let idkey = id.to_owned();
                        let b = rk.delete_doc(&idkey);
                        let ghost grname = rname;
                        let ghost grk = rk;
                        db.racks.insert(j, (rname, rk));
                        proof {
                            assert(db.racks@ =~= dpre.racks@.update(j as int, (grname, grk)));
                            assert(db.racks@[j as int] == (grname, grk));
                            lemma_db_put_back(dpre, db, j as int, rack@);
                        }
                        let ghost gdname = dname;
                        let ghost gdb = db;
                        self.databases.insert(i, (dname, db));
                        proof {
                            assert(self.databases@ =~= pre.databases@.update(
                                i as int,
                                (gdname, gdb),
                            ));
                            assert(self.databases@[i as int] == (gdname, gdb));
                            lemma_engine_put_back(pre, *self, i as int, database@);
                            assert(rack_of(*self, database@, rack@) == Some(grk));
                            assert(rack_of(pre, database@, rack@) == Some(dpre.racks@[j as int].1));
                            assert forall|d2: Seq<char>, k2: Seq<char>|
                                !(d2 == database@ && k2 == rack@) implies #[trigger] rack_of(
                                *self,
                                d2,
                                k2,
                            ) == rack_of(pre, d2, k2) by {
                                if d2 == database@ {
                                    assert(self.db_of(database@) == Some(
                                        self.databases@[i as int].1,
                                    ));
                                    assert(self.databases@[i as int].1 == gdb);
                                    assert(gdb.rack_of(k2) == dpre.rack_of(k2));
                                    assert(pre.db_of(database@) == Some(dpre));
                                } else {
                                    assert(self.db_of(d2) == pre.db_of(d2));
                                }
                            }
                        }
                        Ok(b)
                    },
                }
            },
        }
    }

    /// Renders every document of the rack whose data satisfies the query.
    pub fn find(&self, database: &str, rack: &str, query: &Value) -> (r: Result<
        Vec<String>,
        OpenDBSError,
    >)
        requires
            self.wf(),
        ensures
            match r {
                Err(e) => {
                    &&& e is DatabaseNotFound || e is RackNotFound
                    &&& (e is DatabaseNotFound <==> self.db_of(database@) is None)
                    &&& (e is RackNotFound <==> self.db_of(database@) is Some && rack_of(
                        *self,
                        database@,
                        rack@,
                    ) is None)
                },
                Ok(out) => {
                    &&& rack_of(*self, database@, rack@) matches Some(r0) && out@.len()
                        == spec_find(r0.documents@, query@).len() && (forall|k: int|
                        0 <= k < out@.len() ==> (#[trigger] out@[k])@ == spec_render(
                            doc_jv(spec_find(r0.documents@, query@)[k]),
                        ))
                },
            },
    {
        let dbkey = database.to_owned();
        match skey_find(&self.databases, &dbkey) {
            None => Err(OpenDBSError::DatabaseNotFound(dbkey)),
            Some(i) => {
                let rkkey = rack.to_owned();
                let db = &self.databases[i].1;
                match skey_find(&db.racks, &rkkey) {
                    None => Err(OpenDBSError::RackNotFound(rkkey)),
                    Some(j) => {
                        let engine = QueryEngine::new();
                        Ok(db.racks[j].1.find_docs(&engine, query))
                    },
                }
            },
        }
    }

    /// The fuzzy-search candidates of a rack for one field.
    pub fn fuzzy_candidates(&self, database: &str, rack: &str, field: &str) -> (r: Result<
        Vec<FuzzyCandidate>,
        OpenDBSError,
    >)
        requires
            self.wf(),
        ensures
            match r {
                Err(e) => {
                    &&& e is DatabaseNotFound || e is RackNotFound
                    &&& (e is DatabaseNotFound <==> self.db_of(database@) is None)
                    &&& (e is RackNotFound <==> self.db_of(database@) is Some && rack_of(
                        *self,
                        database@,
                        rack@,
                    ) is None)
                },
                Ok(out) => {
                    &&& rack_of(*self, database@, rack@) matches Some(r0) && out@.len()
                        == spec_fuzzy(r0.documents@, field@).len() && (forall|k: int|
                        0 <= k < out@.len() ==> {
                            let d = spec_fuzzy(r0.documents@, field@)[k];
                            &&& (#[trigger] out@[k]).id@ == d.id@
                            &&& Some(out@[k].text@) == field_text(d, field@)
                            &&& out@[k].rendered@ == spec_render(doc_jv(d))
                        })
                },
            },
    {
        let dbkey = database.to_owned();
        match skey_find(&self.databases, &dbkey) {
            None => Err(OpenDBSError::DatabaseNotFound(dbkey)),
            Some(i) => {
                let rkkey = rack.to_owned();
                let db = &self.databases[i].1;
                match skey_find(&db.racks, &rkkey) {
                    None => Err(OpenDBSError::RackNotFound(rkkey)),
                    Some(j) => {
                        let fkey = field.to_owned();
                        Ok(db.racks[j].1.fuzzy_candidates(&fkey))
                    },
                }
            },
        }
    }

    /// A point-in-time count of databases, racks and documents; counts that
    /// would not fit in a machine word saturate.
    #[verifier::loop_isolation(false)]
    pub fn get_stats(&self) -> (r: (u64, u64, u64))
        requires
            self.wf(),
        ensures
            r.0 == self.databases@.len(),
            r.1 == count_racks(self.databases@),
            r.2 == count_docs(self.databases@),
    {
        proof {
            assert(self.databases@.take(0) =~= Seq::empty());
        }
        let mut racks: u64 = 0;
        let mut docs: u64 = 0;
        let mut i: usize = 0;
        while i < self.databases.len()
            invariant
                0 <= i <= self.databases@.len(),
                racks == count_racks(self.databases@.take(i as int)),
                docs == count_docs(self.databases@.take(i as int)),
            decreases self.databases@.len() - i,
        {
            proof {
                assert(self.databases@.take(i + 1).drop_last() =~= self.databases@.take(i as int));
                assert(self.databases@.take(i + 1).last() == self.databases@[i as int]);
            }
            let db = &self.databases[i].1;
            let rl = db.racks.len() as u64;
            racks = if racks <= u64::MAX - rl {
                racks + rl
            } else {
                u64::MAX
            };
            let mut j: usize = 0;
            proof {
                assert(db.racks@.take(0) =~= Seq::empty());
            }
            let ghost docs0 = docs as nat;
            while j < db.racks.len()
                invariant
                    0 <= j <= db.racks@.len(),
                    docs == sat_add(docs0, db_docs(db.racks@.take(j as int))),
                decreases db.racks@.len() - j,
            {
                proof {
                    assert(db.racks@.take(j + 1).drop_last() =~= db.racks@.take(j as int));
                    assert(db.racks@.take(j + 1).last() == db.racks@[j as int]);
                }
                let dl = db.racks[j].1.documents.len() as u64;
                docs = if docs <= u64::MAX - dl {
                    docs + dl
                } else {
                    u64::MAX
                };
                j += 1;
            }
            proof {
                assert(db.racks@.take(db.racks@.len() as int) =~= db.racks@);
            }
            i += 1;
        }
        proof {
            assert(self.databases@.take(self.databases@.len() as int) =~= self.databases@);
        }
        (self.databases.len() as u64, racks, docs)
    }
}

/// Addition capped at the largest machine count.
pub open spec fn sat_add(a: nat, b: nat) -> nat {
    if a + b > u64::MAX {
        u64::MAX as nat
    } else {
        a + b
    }
}

/// Racks summed over the databases, saturating.
pub open spec fn count_racks(dbs: Seq<(String, Database)>) -> nat
    decreases dbs.len(),
{
    if dbs.len() == 0 {
        0
    } else {
        sat_add(count_racks(dbs.drop_last()), dbs.last().1.racks@.len())
    }
}

/// Documents summed over one database's racks, saturating.
pub open spec fn db_docs(racks: Seq<(String, Rack)>) -> nat
    decreases racks.len(),
{
    if racks.len() == 0 {
        0
    } else {
        sat_add(db_docs(racks.drop_last()), racks.last().1.documents@.len())
    }
}

/// Documents summed over all databases, saturating.
pub open spec fn count_docs(dbs: Seq<(String, Database)>) -> nat
    decreases dbs.len(),
{
    if dbs.len() == 0 {
        0
    } else {
        sat_add(count_docs(dbs.drop_last()), db_docs(dbs.last().1.racks@))
    }
}

/// Putting an updated database back at its position changes only its entry.
proof fn lemma_engine_put_back(pre: StorageEngine, post: StorageEngine, i: int, db: Seq<char>)
    requires
        pre.wf(),
        0 <= i < pre.databases@.len(),
        pre.databases@[i].0@ == db,
        post.databases@.len() == pre.databases@.len(),
        post.databases@ == pre.databases@.update(i, post.databases@[i]),
        post.databases@[i].0 == pre.databases@[i].0,
        post.databases@[i].1.wf(),
    ensures
        post.wf(),
        post.db_of(db) == Some(post.databases@[i].1),
        pre.db_of(db) == Some(pre.databases@[i].1),
        forall|k: Seq<char>| k != db ==> #[trigger] post.db_of(k) == pre.db_of(k),
{
    lemma_skey_get_index(pre.databases@, i);
    assert forall|k: Seq<char>| true implies #[trigger] skey_get(post.databases@, k) == (if k == db {
        Some(post.databases@[i].1)
    } else {
        skey_get(pre.databases@, k)
    }) by {
        lemma_skey_get_update(pre.databases@, i, post.databases@[i].1, k);
        assert(pre.databases@.update(i, (pre.databases@[i].0, post.databases@[i].1))
            == pre.databases@.update(i, post.databases@[i]));
    }
    assert(skeys_unique(post.databases@)) by {
        lemma_skey_get_update(pre.databases@, i, post.databases@[i].1, db);
        assert(pre.databases@.update(i, (pre.databases@[i].0, post.databases@[i].1))
            == pre.databases@.update(i, post.databases@[i]));
    }
    assert forall|j: int|
        0 <= j < post.databases@.len() implies (#[trigger] post.databases@[j]).1.wf() by {
        if j != i {
            assert(post.databases@[j] == pre.databases@[j]);
        }
    }
}

/// Putting an updated rack back at its position changes only its entry.
proof fn lemma_db_put_back(pre: Database, post: Database, i: int, rk: Seq<char>)
    requires
        pre.wf(),
        0 <= i < pre.racks@.len(),
        pre.racks@[i].0@ == rk,
        post.racks@.len() == pre.racks@.len(),
        post.racks@ == pre.racks@.update(i, post.racks@[i]),
        post.racks@[i].0 == pre.racks@[i].0,
        post.racks@[i].1.wf(),
    ensures
        post.wf(),
        post.rack_of(rk) == Some(post.racks@[i].1),
        pre.rack_of(rk) == Some(pre.racks@[i].1),
        forall|k: Seq<char>| k != rk ==> #[trigger] post.rack_of(k) == pre.rack_of(k),
{
    lemma_skey_get_index(pre.racks@, i);
    assert forall|k: Seq<char>| true implies #[trigger] skey_get(post.racks@, k) == (if k == rk {
        Some(post.racks@[i].1)
    } else {
        skey_get(pre.racks@, k)
    }) by {
        lemma_skey_get_update(pre.racks@, i, post.racks@[i].1, k);
        assert(pre.racks@.update(i, (pre.racks@[i].0, post.racks@[i].1)) == pre.racks@.update(
            i,
            post.racks@[i],
        ));
    }
    assert(skeys_unique(post.racks@)) by {
        lemma_skey_get_update(pre.racks@, i, post.racks@[i].1, rk);
        assert(pre.racks@.update(i, (pre.racks@[i].0, post.racks@[i].1)) == pre.racks@.update(
            i,
            post.racks@[i],
        ));
    }
    assert forall|j: int|
        0 <= j < post.racks@.len() implies (#[trigger] post.racks@[j]).1.wf() by {
        if j != i {
            assert(post.racks@[j] == pre.racks@[j]);
        }
    }
}

/// Replacing one document's data in place keeps the rack invariant.
proof fn lemma_rack_update_all(pre: Rack, post: Rack, i: int, id: Seq<char>, now: u64)
    requires
        pre.wf(),
        0 <= i < pre.documents@.len(),
        pre.documents@[i].0@ == id,
        post.next_id == pre.next_id,
        post.documents@ == pre.documents@.update(i, post.documents@[i]),
        post.documents@[i].0 == pre.documents@[i].0,
        post.documents@[i].1.id@ == pre.documents@[i].1.id@,
        wf_jv(post.documents@[i].1.data@),
        post.documents@[i].1.created_at == pre.documents@[i].1.created_at,
        post.documents@[i].1.updated_at >= post.documents@[i].1.created_at,
        post.documents@[i].1.updated_at <= i64::MAX as u64,
        post.index.wf(),
        forall|f: Seq<char>, vs: Seq<char>, idc: Seq<char>|
            idx_has(post.index@, f, vs, idc) <==> ((idx_has(pre.index@, f, vs, idc) && !(idc == id
                && doc_scalar(pre.documents@[i].1.data@, f, vs))) || (idc == id && doc_scalar(
                post.documents@[i].1.data@,
                f,
                vs,
            ))),
    ensures
        post.wf(),
        post.doc_of(id) is Some,
        post.doc_of(id)->Some_0 == post.documents@[i].1,
        pre.doc_of(id) == Some(pre.documents@[i].1),
        forall|k: Seq<char>| k != id ==> #[trigger] post.doc_of(k) == pre.doc_of(k),
    decreases 0int,
{
    lemma_skey_get_index(pre.documents@, i);
    assert forall|k: Seq<char>| true implies #[trigger] skey_get(post.documents@, k) == (if k == id {
        Some(post.documents@[i].1)
    } else {
        skey_get(pre.documents@, k)
    }) by {
        lemma_skey_get_update(pre.documents@, i, post.documents@[i].1, k);
        assert(pre.documents@.update(i, (pre.documents@[i].0, post.documents@[i].1))
            == pre.documents@.update(i, post.documents@[i]));
    }
    assert(skeys_unique(post.documents@)) by {
        lemma_skey_get_update(pre.documents@, i, post.documents@[i].1, id);
        assert(pre.documents@.update(i, (pre.documents@[i].0, post.documents@[i].1))
            == pre.documents@.update(i, post.documents@[i]));
    }
    assert forall|j: int|
        0 <= j < post.documents@.len() implies {
        let q = #[trigger] post.documents@[j];
        &&& q.0@ == q.1.id@
        &&& wf_jv(q.1.data@)
        &&& q.1.created_at <= i64::MAX as u64
        &&& q.1.updated_at <= i64::MAX as u64
        &&& q.1.updated_at >= q.1.created_at
        &&& (is_dec(q.1.id@) && dec_val(q.1.id@) <= u64::MAX as int ==> dec_val(q.1.id@)
            < post.next_id)
    } by {
        if j != i {
            assert(post.documents@[j] == pre.documents@[j]);
        } else {
            assert(pre.documents@[i].0@ == pre.documents@[i].1.id@);
        }
    }
    assert forall|f: Seq<char>, vs: Seq<char>, idc: Seq<char>| #![trigger idx_has(post.index@, f, vs, idc)]
        idx_has(post.index@, f, vs, idc) <==> (match skey_get(post.documents@, idc) {
        Some(d) => doc_scalar(d.data@, f, vs),
        None => false,
    }) by {
        assert(idx_has(pre.index@, f, vs, idc) <==> (match skey_get(pre.documents@, idc) {
            Some(d) => doc_scalar(d.data@, f, vs),
            None => false,
        }));
    }
}

/// Removing one document keeps the rack invariant.
proof fn lemma_rack_remove_all(pre: Rack, post: Rack, i: int, id: Seq<char>)
    requires
        pre.wf(),
        0 <= i < pre.documents@.len(),
        pre.documents@[i].0@ == id,
        post.next_id == pre.next_id,
        post.documents@ == pre.documents@.remove(i),
        post.index.wf(),
        forall|f: Seq<char>, vs: Seq<char>, idc: Seq<char>|
            idx_has(post.index@, f, vs, idc) <==> (idx_has(pre.index@, f, vs, idc) && !(idc == id
                && doc_scalar(pre.documents@[i].1.data@, f, vs))),
    ensures
        post.wf(),
        post.doc_of(id) is None,
        pre.doc_of(id) is Some,
        forall|k: Seq<char>| k != id ==> #[trigger] post.doc_of(k) == pre.doc_of(k),
{
    lemma_skey_get_index(pre.documents@, i);
    assert forall|k: Seq<char>| true implies #[trigger] skey_get(post.documents@, k) == (if k == id {
        None
    } else {
        skey_get(pre.documents@, k)
    }) by {
        lemma_skey_get_remove(pre.documents@, i, k);
    }
    assert(skeys_unique(post.documents@)) by {
        lemma_skey_get_remove(pre.documents@, i, id);
    }
    assert forall|j: int|
        0 <= j < post.documents@.len() implies {
        let q = #[trigger] post.documents@[j];
        &&& q.0@ == q.1.id@
        &&& wf_jv(q.1.data@)
        &&& q.1.created_at <= i64::MAX as u64
        &&& q.1.updated_at <= i64::MAX as u64
        &&& q.1.updated_at >= q.1.created_at
        &&& (is_dec(q.1.id@) && dec_val(q.1.id@) <= u64::MAX as int ==> dec_val(q.1.id@)
            < post.next_id)
    } by {
        if j < i {
            assert(post.documents@[j] == pre.documents@[j]);
        } else {
            assert(post.documents@[j] == pre.documents@[j + 1]);
        }
    }
    assert forall|f: Seq<char>, vs: Seq<char>, idc: Seq<char>| #![trigger idx_has(post.index@, f, vs, idc)]
        idx_has(post.index@, f, vs, idc) <==> (match skey_get(post.documents@, idc) {
        Some(d) => doc_scalar(d.data@, f, vs),
        None => false,
    }) by {
        assert(idx_has(pre.index@, f, vs, idc) <==> (match skey_get(pre.documents@, idc) {
            Some(d) => doc_scalar(d.data@, f, vs),
            None => false,
        }));
    }
}

/// Pushing a fresh document keeps the rack invariant.
proof fn lemma_skey_get_push_all(
    docs: Seq<(String, Document)>,
    p: (String, Document),
    pre: Rack,
    post: Rack,
    id: Seq<char>,
)
    requires
        pre.wf(),
        pre.documents@ == docs,
        skey_get(docs, id) is None,
        p.0@ == id,
        p.1.id@ == id,
        wf_jv(p.1.data@),
        p.1.created_at <= i64::MAX as u64,
        p.1.updated_at <= i64::MAX as u64,
        p.1.updated_at >= p.1.created_at,
        is_dec(id) && dec_val(id) <= u64::MAX as int ==> dec_val(id) < post.next_id,
        post.next_id >= pre.next_id,
        post.documents@ == docs.push(p),
        post.index.wf(),
        forall|f: Seq<char>, vs: Seq<char>, idc: Seq<char>|
            idx_has(post.index@, f, vs, idc) <==> (idx_has(pre.index@, f, vs, idc) || (idc == id
                && doc_scalar(p.1.data@, f, vs))),
    ensures
        post.wf(),
{
    assert forall|k: Seq<char>| true implies #[trigger] skey_get(post.documents@, k) == (if k == id {
        Some(p.1)
    } else {
        skey_get(docs, k)
    }) by {
        lemma_skey_get_push(docs, p, k);
    }
    assert(skeys_unique(post.documents@)) by {
        lemma_skey_get_push(docs, p, id);
    }
    assert forall|i: int|
        0 <= i < post.documents@.len() implies {
        let q = #[trigger] post.documents@[i];
        &&& q.0@ == q.1.id@
        &&& wf_jv(q.1.data@)
        &&& (is_dec(q.1.id@) && dec_val(q.1.id@) <= u64::MAX as int ==> dec_val(q.1.id@)
            < post.next_id)
    } by {
        if i < docs.len() {
            assert(post.documents@[i] == docs[i]);
            assert(docs[i] == pre.documents@[i]);
        } else {
            assert(post.documents@[i] == p);
        }
    }
    assert forall|f: Seq<char>, vs: Seq<char>, idc: Seq<char>| #![trigger idx_has(post.index@, f, vs, idc)]
        idx_has(post.index@, f, vs, idc) <==> (match skey_get(post.documents@, idc) {
        Some(d) => doc_scalar(d.data@, f, vs),
        None => false,
    }) by {
        assert(idx_has(pre.index@, f, vs, idc) <==> (match skey_get(pre.documents@, idc) {
            Some(d) => doc_scalar(d.data@, f, vs),
            None => false,
        }));
        assert(skey_get(post.documents@, idc) == (if idc == id {
            Some(p.1)
        } else {
            skey_get(docs, idc)
        }));
    }
}

} // verus!
