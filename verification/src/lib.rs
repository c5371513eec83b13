//! A small full-text search engine core: schema definition, script-aware
//! tokenization, inverted-index construction, a durable index codec, and
//! ranked top-K retrieval.
//!
//! The engine is split into leaves-first modules: `tokenizer` turns text into
//! normalized terms, `schema` declares fields and their policies, `store`
//! holds a committed inverted index with its stored values, `writer` builds an
//! index from documents, `codec` lays the index out as bytes for durable
//! storage, and `query` parses and answers ranked queries.
//!
//! Text is handled as `Vec<char>` (one entry per Unicode scalar value), so
//! that CJK text, which has no byte-level word boundaries, needs no decoding
//! inside the engine. Callers convert with `str::chars`.

#![verifier::loop_isolation(false)]

use vstd::prelude::*;

pub mod tokenizer;
pub mod schema;
pub mod store;
pub mod writer;
pub mod query;
pub mod codec;

verus! {

/// The character sequences of a vector of terms, term by term.
pub open spec fn seq_views(v: Seq<Vec<char>>) -> Seq<Seq<char>> {
    v.map_values(|t: Vec<char>| t@)
}

/// Compares two character sequences element by element.
pub fn chars_eq(a: &Vec<char>, b: &Vec<char>) -> (r: bool)
    ensures
        r <==> a@ == b@,
{
    if a.len() != b.len() {
        assert(a@.len() != b@.len());
        return false;
    }
    let mut i: usize = 0;
    while i < a.len()
        invariant
            i <= a.len(),
            a.len() == b.len(),
            forall|j: int| 0 <= j < i ==> a@[j] == b@[j],
        decreases a.len() - i,
    {
        if a[i] != b[i] {
            return false;
        }
        i = i + 1;
    }
    assert(a@ =~= b@);
    true
}

} // verus!
