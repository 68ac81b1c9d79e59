//! An embedded document-store engine: a namespace of databases holding racks
//! (collections) of JSON-like documents, with an inverted index over scalar
//! top-level fields and a small exact-match / comparison query language.
//!
//! The engine here is the in-memory core: callers persist what the rendering
//! functions produce and feed reloaded records back through `Rack::load`.
//!
//! Numbers are 64-bit signed integers throughout: a payload whose number has
//! a fractional part or an exponent, or does not fit in an `i64`, is
//! rejected as invalid input rather than read approximately.

use vstd::prelude::*;

mod index;
mod json;
mod laws;
mod nums;
mod smap;
mod storage;
mod text;
mod query;
mod value;

pub use index::{Index, canon_scalar_exec, int_to_string};
pub use json::{parse_value, render_to_string, scalar_rendering, str_rendering};
pub use laws::{
    lemma_create_database_twice, lemma_deleted_not_indexed, lemma_index_consistency,
    lemma_create_rack_twice, lemma_insert_ids_monotonic, lemma_insert_then_find,
    lemma_matches_self,
    lemma_reload_advances_ids, lemma_spec_eq_refl,
};
pub use query::{NumCmp, QueryEngine};
pub use storage::{
    Database, Document, FuzzyCandidate, OpenDBSError, Rack, StorageEngine, parse_document,
    render_document,
};
pub use value::Value;

verus! {

} // verus!
