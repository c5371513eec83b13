//! The committed index store: per field a mapping from term to posting list,
//! plus a document-id-indexed store of stored field values. Document-ids are
//! the indices of the stored-document sequence: assigned monotonically in
//! ingestion order starting at 0, never reused.

use vstd::prelude::*;
use crate::schema::{Schema, FieldModel, FieldType};
use crate::chars_eq;

verus! {

/// A field value as a document carries it.
pub enum Value {
    Text(Vec<char>),
    UInt(u64),
}

/// The mathematical content of a field value.
pub ghost enum ValueModel {
    Text(Seq<char>),
    UInt(u64),
}

impl Value {
    pub open spec fn model(self) -> ValueModel {
        match self {
            Value::Text(t) => ValueModel::Text(t@),
            Value::UInt(x) => ValueModel::UInt(x),
        }
    }
}

/// Whether a value fits a field's declared type.
pub open spec fn type_matches(v: ValueModel, t: FieldType) -> bool {
    match v {
        ValueModel::Text(_) => t == FieldType::Text,
        ValueModel::UInt(_) => t == FieldType::UInt,
    }
}

/// One (field, value) pair of a document; `field` indexes the schema.
pub struct DocField {
    pub field: usize,
    pub value: Value,
}

pub ghost struct DocFieldModel {
    pub field: usize,
    pub value: ValueModel,
}

impl DocField {
    pub open spec fn model(self) -> DocFieldModel {
        DocFieldModel { field: self.field, value: self.value.model() }
    }
}

/// The pairs of a document, in document order.
pub open spec fn doc_models(d: Seq<DocField>) -> Seq<DocFieldModel> {
    d.map_values(|f: DocField| f.model())
}

/// One posting: a document that contains the term, with the 0-based term
/// positions of its occurrences; the term frequency is the position count.
pub struct PostingEntry {
    pub doc: usize,
    pub positions: Vec<usize>,
}

pub ghost struct PostingModel {
    pub doc: usize,
    pub positions: Seq<usize>,
}

impl PostingEntry {
    pub open spec fn model(self) -> PostingModel {
        PostingModel { doc: self.doc, positions: self.positions@ }
    }
}

pub open spec fn posting_models(ps: Seq<PostingEntry>) -> Seq<PostingModel> {
    ps.map_values(|p: PostingEntry| p.model())
}

/// A term of one field's inverted index, with its posting list.
pub struct TermPostings {
    pub term: Vec<char>,
    pub postings: Vec<PostingEntry>,
}

pub ghost struct TermModel {
    pub term: Seq<char>,
    pub postings: Seq<PostingModel>,
}

impl TermPostings {
    pub open spec fn model(self) -> TermModel {
        TermModel { term: self.term@, postings: posting_models(self.postings@) }
    }
}

pub open spec fn term_models(ts: Seq<TermPostings>) -> Seq<TermModel> {
    ts.map_values(|t: TermPostings| t.model())
}

/// Whether some term of the field equals `t`.
pub open spec fn has_term(ts: Seq<TermModel>, t: Seq<char>) -> bool {
    exists|i: int| 0 <= i < ts.len() && ts[i].term == t
}

/// The posting list of term `t`, or the empty list where the field does not
/// hold the term.
pub open spec fn find_term(ts: Seq<TermModel>, t: Seq<char>) -> Seq<PostingModel>
    decreases ts.len(),
{
    if ts.len() == 0 {
        Seq::empty()
    } else if ts[0].term == t {
        ts[0].postings
    } else {
        find_term(ts.drop_first(), t)
    }
}

/// The positions of document `d` in a posting list, or the empty sequence
/// where the document does not appear.
pub open spec fn positions_of(ps: Seq<PostingModel>, d: usize) -> Seq<usize>
    decreases ps.len(),
{
    if ps.len() == 0 {
        Seq::empty()
    } else if ps[0].doc == d {
        ps[0].positions
    } else {
        positions_of(ps.drop_first(), d)
    }
}

/// The positions of term `t` of field `f` in document `d`: the single lookup
/// all retrieval contracts speak of.
pub open spec fn term_doc_positions(
    inv: Seq<Seq<TermModel>>,
    f: int,
    t: Seq<char>,
    d: usize,
) -> Seq<usize> {
    positions_of(find_term(inv[f], t), d)
}

/// A posting list is well formed under a document count: strictly ascending
/// document-ids below the count, each with at least one position.
pub open spec fn postings_wf(ps: Seq<PostingModel>, ndocs: int) -> bool {
    &&& forall|i: int, j: int| 0 <= i < j < ps.len() ==> ps[i].doc < ps[j].doc
    &&& forall|i: int| 0 <= i < ps.len() ==> ps[i].doc < ndocs && ps[i].positions.len() > 0
}

/// A field's term mapping is well formed: distinct terms, each with a
/// non-empty well-formed posting list.
pub open spec fn terms_wf(ts: Seq<TermModel>, ndocs: int) -> bool {
    &&& forall|i: int, j: int| 0 <= i < j < ts.len() ==> ts[i].term != ts[j].term
    &&& forall|i: int| 0 <= i < ts.len() ==> postings_wf(ts[i].postings, ndocs)
        && ts[i].postings.len() > 0
}

/// The term mappings of all fields, field by field.
pub open spec fn inverted_models(inv: Seq<Vec<TermPostings>>) -> Seq<Seq<TermModel>> {
    inv.map_values(|ts: Vec<TermPostings>| term_models(ts@))
}

/// The stored documents, in document-id order.
pub open spec fn stored_models(docs: Seq<Vec<DocField>>) -> Seq<Seq<DocFieldModel>> {
    docs.map_values(|d: Vec<DocField>| doc_models(d@))
}

/// The durable aggregate: schema, one term mapping per field, and the stored
/// field values per document-id.
pub struct Index {
    pub schema: Schema,
    pub inverted: Vec<Vec<TermPostings>>,
    pub docs: Vec<Vec<DocField>>,
}

impl Index {
    /// The term mappings, field by field.
    pub open spec fn inv_model(self) -> Seq<Seq<TermModel>> {
        inverted_models(self.inverted@)
    }

    /// The stored documents, in document-id order.
    pub open spec fn docs_model(self) -> Seq<Seq<DocFieldModel>> {
        stored_models(self.docs@)
    }

    /// A committed index is well formed: one term mapping per schema field,
    /// each well formed under the document count, over a well-formed schema.
    pub open spec fn wf(self) -> bool {
        &&& self.schema.wf()
        &&& self.inverted@.len() == self.schema.spec_fields().len()
        &&& forall|f: int| 0 <= f < self.inverted@.len() ==> terms_wf(
            #[trigger] self.inv_model()[f],
            self.docs@.len() as int,
        )
    }

    /// How many documents the index holds.
    pub fn num_docs(&self) -> (n: usize)
        ensures
            n == self.docs_model().len(),
    {
        self.docs.len()
    }

    /// The posting list of `(field, term)`, or nothing where the field does
    /// not hold the term.
    pub fn term_postings(&self, field: usize, term: &Vec<char>) -> (r: Option<&Vec<PostingEntry>>)
        requires
            field < self.inv_model().len(),
        ensures
            match r {
                Some(ps) => has_term(self.inv_model()[field as int], term@) && posting_models(ps@)
                    == find_term(self.inv_model()[field as int], term@),
                None => !has_term(self.inv_model()[field as int], term@) && find_term(
                    self.inv_model()[field as int],
                    term@,
                ) == Seq::<PostingModel>::empty(),
            },
    {
        let ghost ts = self.inv_model()[field as int];
        let fvec = &self.inverted[field];
        let mut i: usize = 0;
        while i < fvec.len()
            invariant
                i <= fvec@.len(),
                ts == term_models(fvec@),
                forall|j: int| 0 <= j < i ==> ts[j].term != term@,
            decreases fvec@.len() - i,
        {
            if chars_eq(&fvec[i].term, term) {
                proof {
                    lemma_find_term_at(ts, term@, i as int);
                }
                return Some(&fvec[i].postings);
            }
            i = i + 1;
        }
        proof {
            lemma_find_term_none(ts, term@);
        }
        None
    }

    /// The stored-field subset of the document with this id, verbatim as it
    /// was added; nothing for an id never assigned.
    pub fn stored_values(&self, doc_id: usize) -> (r: Option<&Vec<DocField>>)
        ensures
            match r {
                Some(d) => doc_id < self.docs_model().len() && doc_models(d@)
                    == self.docs_model()[doc_id as int],
                None => doc_id >= self.docs_model().len(),
            },
    {
        if doc_id < self.docs.len() {
            Some(&self.docs[doc_id])
        } else {
            None
        }
    }
}

/// The posting list of the first term equal to `t` is `find_term`'s value.
pub proof fn lemma_find_term_at(ts: Seq<TermModel>, t: Seq<char>, i: int)
    requires
        0 <= i < ts.len(),
        ts[i].term == t,
        forall|j: int| 0 <= j < i ==> ts[j].term != t,
    ensures
        find_term(ts, t) == ts[i].postings,
    decreases i,
{
    if i > 0 {
        assert(forall|j: int| 0 <= j < ts.len() - 1 ==> ts.drop_first()[j] == ts[j + 1]);
        lemma_find_term_at(ts.drop_first(), t, i - 1);
    }
}

/// Where no term equals `t`, `find_term` is empty.
pub proof fn lemma_find_term_none(ts: Seq<TermModel>, t: Seq<char>)
    requires
        forall|j: int| 0 <= j < ts.len() ==> ts[j].term != t,
    ensures
        find_term(ts, t) == Seq::<PostingModel>::empty(),
    decreases ts.len(),
{
    if ts.len() > 0 {
        assert(forall|j: int| 0 <= j < ts.len() - 1 ==> ts.drop_first()[j] == ts[j + 1]);
        lemma_find_term_none(ts.drop_first(), t);
    }
}

/// Updating the term at `i` (the first with its name) rewrites exactly that
/// term's posting list in `find_term`'s view.
pub proof fn lemma_find_term_update(ts: Seq<TermModel>, i: int, tm: TermModel, t: Seq<char>)
    requires
        0 <= i < ts.len(),
        ts[i].term == tm.term,
        forall|j: int| 0 <= j < i ==> ts[j].term != tm.term,
    ensures
        find_term(ts.update(i, tm), t) == if t == tm.term {
            tm.postings
        } else {
            find_term(ts, t)
        },
    decreases i,
{
    let u = ts.update(i, tm);
    if i == 0 {
        if t == tm.term {
        } else {
            assert(u.drop_first() =~= ts.drop_first());
        }
    } else {
        assert(u[0] == ts[0]);
        if t == ts[0].term {
        } else {
            assert(u.drop_first() =~= ts.drop_first().update(i - 1, tm));
            assert(forall|j: int| 0 <= j < ts.len() - 1 ==> ts.drop_first()[j] == ts[j + 1]);
            lemma_find_term_update(ts.drop_first(), i - 1, tm, t);
        }
    }
}

/// Appending a term absent so far adds exactly its posting list to
/// `find_term`'s view.
pub proof fn lemma_find_term_push(ts: Seq<TermModel>, tm: TermModel, t: Seq<char>)
    requires
        forall|j: int| 0 <= j < ts.len() ==> ts[j].term != tm.term,
    ensures
        find_term(ts.push(tm), t) == if t == tm.term {
            tm.postings
        } else {
            find_term(ts, t)
        },
    decreases ts.len(),
{
    let u = ts.push(tm);
    assert(u.len() == ts.len() + 1);
    if ts.len() == 0 {
        assert(u[0] == tm);
        if t == tm.term {
            assert(find_term(u, t) == tm.postings);
        } else {
            assert(u.drop_first() =~= Seq::<TermModel>::empty());
            assert(find_term(u, t) == find_term(u.drop_first(), t));
            assert(find_term(u, t) == Seq::<PostingModel>::empty());
        }
    } else {
        assert(u[0] == ts[0]);
        if t == ts[0].term {
            assert(find_term(u, t) == ts[0].postings);
            assert(find_term(ts, t) == ts[0].postings);
        } else {
            assert(u.drop_first() =~= ts.drop_first().push(tm));
            assert(forall|j: int| 0 <= j < ts.len() - 1 ==> ts.drop_first()[j] == ts[j + 1]);
            lemma_find_term_push(ts.drop_first(), tm, t);
            assert(find_term(u, t) == find_term(u.drop_first(), t));
            assert(find_term(ts, t) == find_term(ts.drop_first(), t));
        }
    }
}

/// The positions of the first posting for `d` are `positions_of`'s value.
pub proof fn lemma_positions_at(ps: Seq<PostingModel>, d: usize, i: int)
    requires
        0 <= i < ps.len(),
        ps[i].doc == d,
        forall|j: int| 0 <= j < i ==> ps[j].doc != d,
    ensures
        positions_of(ps, d) == ps[i].positions,
    decreases i,
{
    if i > 0 {
        assert(forall|j: int| 0 <= j < ps.len() - 1 ==> ps.drop_first()[j] == ps[j + 1]);
        lemma_positions_at(ps.drop_first(), d, i - 1);
    }
}

/// Where no posting names `d`, `positions_of` is empty.
pub proof fn lemma_positions_none(ps: Seq<PostingModel>, d: usize)
    requires
        forall|j: int| 0 <= j < ps.len() ==> ps[j].doc != d,
    ensures
        positions_of(ps, d) == Seq::<usize>::empty(),
    decreases ps.len(),
{
    if ps.len() > 0 {
        assert(forall|j: int| 0 <= j < ps.len() - 1 ==> ps.drop_first()[j] == ps[j + 1]);
        lemma_positions_none(ps.drop_first(), d);
    }
}

/// Appending a posting for a document absent so far adds exactly its
/// positions to `positions_of`'s view.
pub proof fn lemma_positions_push(ps: Seq<PostingModel>, pe: PostingModel, d: usize)
    requires
        forall|j: int| 0 <= j < ps.len() ==> ps[j].doc != pe.doc,
    ensures
        positions_of(ps.push(pe), d) == if d == pe.doc {
            pe.positions
        } else {
            positions_of(ps, d)
        },
    decreases ps.len(),
{
    let u = ps.push(pe);
    assert(u.len() == ps.len() + 1);
    if ps.len() == 0 {
        assert(u[0] == pe);
        if d == pe.doc {
            assert(positions_of(u, d) == pe.positions);
        } else {
            assert(u.drop_first() =~= Seq::<PostingModel>::empty());
            assert(positions_of(u, d) == positions_of(u.drop_first(), d));
            assert(positions_of(u, d) == Seq::<usize>::empty());
        }
    } else {
        assert(u[0] == ps[0]);
        if d == ps[0].doc {
            assert(positions_of(u, d) == ps[0].positions);
            assert(positions_of(ps, d) == ps[0].positions);
        } else {
            assert(u.drop_first() =~= ps.drop_first().push(pe));
            assert(forall|j: int| 0 <= j < ps.len() - 1 ==> ps.drop_first()[j] == ps[j + 1]);
            lemma_positions_push(ps.drop_first(), pe, d);
            assert(positions_of(u, d) == positions_of(u.drop_first(), d));
            assert(positions_of(ps, d) == positions_of(ps.drop_first(), d));
        }
    }
}

/// Rewriting the last posting (whose document appears once) rewrites exactly
/// that document's positions in `positions_of`'s view.
pub proof fn lemma_positions_update_last(ps: Seq<PostingModel>, pe: PostingModel, d: usize)
    requires
        ps.len() > 0,
        ps.last().doc == pe.doc,
        forall|j: int| 0 <= j < ps.len() - 1 ==> ps[j].doc != pe.doc,
    ensures
        positions_of(ps.update(ps.len() - 1, pe), d) == if d == pe.doc {
            pe.positions
        } else {
            positions_of(ps, d)
        },
    decreases ps.len(),
{
    let u = ps.update(ps.len() - 1, pe);
    if ps.len() == 1 {
        assert(u[0] == pe);
        if d != pe.doc {
            assert(u.drop_first() =~= Seq::<PostingModel>::empty());
            assert(ps.drop_first() =~= Seq::<PostingModel>::empty());
        }
    } else {
        assert(u[0] == ps[0]);
        assert(ps[0].doc != pe.doc);
        if d == ps[0].doc {
        } else {
            assert(u.drop_first() =~= ps.drop_first().update(ps.len() - 2, pe));
            assert(forall|j: int| 0 <= j < ps.len() - 1 ==> ps.drop_first()[j] == ps[j + 1]);
            assert(ps.drop_first().last() == ps.last());
            lemma_positions_update_last(ps.drop_first(), pe, d);
        }
    }
}

/// A well-formed posting list holds at most one posting per document, so its
/// length is bounded by the document count.
pub proof fn lemma_postings_len_bound(ps: Seq<PostingModel>, ndocs: int)
    requires
        postings_wf(ps, ndocs),
        ndocs >= 0,
    ensures
        ps.len() <= ndocs,
    decreases ps.len(),
{
    if ps.len() > 0 {
        let shorter = ps.drop_last();
        assert(forall|j: int| 0 <= j < ps.len() - 1 ==> shorter[j] == ps[j]);
        assert(postings_wf(shorter, ps.last().doc as int));
        lemma_postings_len_bound(shorter, ps.last().doc as int);
    }
}

/// What `find_term` returns is itself a well-formed posting list.
pub proof fn lemma_find_term_wf(ts: Seq<TermModel>, t: Seq<char>, ndocs: int)
    requires
        terms_wf(ts, ndocs),
    ensures
        postings_wf(find_term(ts, t), ndocs),
    decreases ts.len(),
{
    if ts.len() > 0 && ts[0].term != t {
        assert(forall|j: int| 0 <= j < ts.len() - 1 ==> ts.drop_first()[j] == ts[j + 1]);
        assert(terms_wf(ts.drop_first(), ndocs));
        lemma_find_term_wf(ts.drop_first(), t, ndocs);
    }
}

/// Clones a character sequence, view for view.
pub fn clone_chars(t: &Vec<char>) -> (r: Vec<char>)
    ensures
        r@ == t@,
{
    let r = t.clone();
    proof {
        assert(r@ =~= t@);
    }
    r
}

} // verus!
