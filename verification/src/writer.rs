//! The index writer: accepts documents conforming to the schema, runs indexed
//! text fields through the tokenizer, accumulates postings in memory keyed by
//! (field, term), and commits them as one immutable index. Document-ids are
//! assigned in ingestion order starting at 0.

use vstd::prelude::*;
use crate::schema::{Schema, FieldModel, FieldType, IndexPolicy};
use crate::store::{
    Value, ValueModel, DocField, DocFieldModel, PostingEntry, PostingModel, TermPostings,
    TermModel, Index, type_matches, doc_models, term_models, posting_models, inverted_models,
    stored_models, find_term, positions_of, term_doc_positions, postings_wf, terms_wf,
    lemma_find_term_at, lemma_find_term_none, lemma_find_term_update, lemma_find_term_push,
    lemma_positions_at, lemma_positions_none, lemma_positions_push, lemma_positions_update_last,
    clone_chars,
};
use crate::tokenizer::{Tokenizer, mode_tokens};
use crate::{chars_eq, seq_views};

verus! {

/// Why one document was rejected; the document is skipped and the batch
/// continues.
#[derive(Clone, Copy, PartialEq, Eq, Structural, Debug)]
pub enum AddError {
    /// A pair names a field index the schema does not declare.
    NoSuchField,
    /// Two pairs of the document name the same field.
    RepeatedField,
    /// A value does not fit its field's declared type.
    TypeMismatch,
}

/// What is wrong with the document's pair `k`, if anything; earlier pairs are
/// `None`.
pub open spec fn entry_error(
    schema: Seq<FieldModel>,
    doc: Seq<DocFieldModel>,
    k: int,
) -> Option<AddError> {
    if doc[k].field >= schema.len() {
        Some(AddError::NoSuchField)
    } else if exists|l: int| 0 <= l < k && doc[l].field == doc[k].field {
        Some(AddError::RepeatedField)
    } else if !type_matches(doc[k].value, schema[doc[k].field as int].ftype) {
        Some(AddError::TypeMismatch)
    } else {
        None
    }
}

pub open spec fn doc_error_upto(
    schema: Seq<FieldModel>,
    doc: Seq<DocFieldModel>,
    n: int,
) -> Option<AddError>
    decreases n,
{
    if n <= 0 {
        None
    } else if doc_error_upto(schema, doc, n - 1) is Some {
        doc_error_upto(schema, doc, n - 1)
    } else {
        entry_error(schema, doc, n - 1)
    }
}

/// The first pair's error, in document order; `None` for a document that
/// conforms to the schema.
pub open spec fn doc_error(schema: Seq<FieldModel>, doc: Seq<DocFieldModel>) -> Option<AddError> {
    doc_error_upto(schema, doc, doc.len() as int)
}

/// A document conforms to the schema: every pair names a declared field, at
/// most once, with a value of the declared type.
pub open spec fn doc_wf(schema: Seq<FieldModel>, doc: Seq<DocFieldModel>) -> bool {
    &&& forall|k: int| 0 <= k < doc.len() ==> (#[trigger] doc[k]).field < schema.len()
        && type_matches(doc[k].value, schema[doc[k].field as int].ftype)
    &&& forall|k: int, l: int| 0 <= k < l < doc.len() ==> doc[k].field != doc[l].field
}

proof fn lemma_doc_error_stable(schema: Seq<FieldModel>, doc: Seq<DocFieldModel>, k: int, n: int)
    requires
        0 <= k < n,
        doc_error_upto(schema, doc, k + 1) is Some,
    ensures
        doc_error_upto(schema, doc, n) == doc_error_upto(schema, doc, k + 1),
    decreases n,
{
    if n > k + 1 {
        lemma_doc_error_stable(schema, doc, k, n - 1);
    }
}

/// The first failing pair decides the document's error.
pub proof fn lemma_doc_error_at(schema: Seq<FieldModel>, doc: Seq<DocFieldModel>, k: int)
    requires
        0 <= k < doc.len(),
        entry_error(schema, doc, k) is Some,
        forall|l: int| 0 <= l < k ==> entry_error(schema, doc, l) is None,
    ensures
        doc_error(schema, doc) == entry_error(schema, doc, k),
{
    lemma_doc_error_upto_none(schema, doc, k);
    lemma_doc_error_stable(schema, doc, k, doc.len() as int);
}

proof fn lemma_doc_error_upto_none(schema: Seq<FieldModel>, doc: Seq<DocFieldModel>, n: int)
    requires
        forall|l: int| 0 <= l < n ==> entry_error(schema, doc, l) is None,
    ensures
        doc_error_upto(schema, doc, n) is None,
    decreases n,
{
    if n > 0 {
        lemma_doc_error_upto_none(schema, doc, n - 1);
    }
}

/// A document's error is `None` exactly when the document conforms.
pub proof fn lemma_doc_error_none(schema: Seq<FieldModel>, doc: Seq<DocFieldModel>)
    ensures
        doc_error(schema, doc) is None <==> doc_wf(schema, doc),
{
    if doc_wf(schema, doc) {
        assert forall|l: int| 0 <= l < doc.len() implies entry_error(schema, doc, l) is None by {
            assert(doc[l].field < schema.len());
        }
        lemma_doc_error_upto_none(schema, doc, doc.len() as int);
    }
    if doc_error(schema, doc) is None {
        assert forall|k: int| 0 <= k < doc.len() implies entry_error(schema, doc, k) is None by {
            if entry_error(schema, doc, k) is Some {
                lemma_entry_error_first(schema, doc, k);
            }
        }
        assert forall|k: int| 0 <= k < doc.len() implies (#[trigger] doc[k]).field < schema.len()
            && type_matches(doc[k].value, schema[doc[k].field as int].ftype) by {
            assert(entry_error(schema, doc, k) is None);
        }
        assert forall|k: int, l: int| 0 <= k < l < doc.len() implies doc[k].field != doc[l].field by {
            assert(entry_error(schema, doc, l) is None);
        }
    }
}

proof fn lemma_entry_error_first(schema: Seq<FieldModel>, doc: Seq<DocFieldModel>, k: int)
    requires
        0 <= k < doc.len(),
        entry_error(schema, doc, k) is Some,
    ensures
        doc_error(schema, doc) is Some,
{
    let k0 = choose|k0: int| 0 <= k0 <= k && entry_error(schema, doc, k0) is Some && forall|l: int|
        0 <= l < k0 ==> entry_error(schema, doc, l) is None;
    assert(exists|k0: int|
        0 <= k0 <= k && entry_error(schema, doc, k0) is Some && (forall|l: int|
            0 <= l < k0 ==> entry_error(schema, doc, l) is None)) by {
        lemma_first_some(schema, doc, k);
    }
    lemma_doc_error_at(schema, doc, k0);
}

proof fn lemma_first_some(schema: Seq<FieldModel>, doc: Seq<DocFieldModel>, k: int)
    requires
        0 <= k < doc.len(),
        entry_error(schema, doc, k) is Some,
    ensures
        exists|k0: int|
            0 <= k0 <= k && entry_error(schema, doc, k0) is Some && (forall|l: int|
                0 <= l < k0 ==> entry_error(schema, doc, l) is None),
    decreases k,
{
    if forall|l: int| 0 <= l < k ==> entry_error(schema, doc, l) is None {
        assert(0 <= k <= k && entry_error(schema, doc, k) is Some && (forall|l: int|
            0 <= l < k ==> entry_error(schema, doc, l) is None));
    } else {
        let l = choose|l: int| 0 <= l < k && entry_error(schema, doc, l) is Some;
        lemma_first_some(schema, doc, l);
    }
}

/// The terms one (field, value) pair contributes: tokenized text for an
/// indexed-with-positions text field, the whole value as a single term for an
/// exact-match text field, nothing otherwise.
pub open spec fn entry_terms(fm: FieldModel, v: ValueModel) -> Seq<Seq<char>> {
    match v {
        ValueModel::Text(t) => {
            if fm.ftype == FieldType::Text && fm.policy == IndexPolicy::Positions {
                mode_tokens(fm.mode, t)
            } else if fm.ftype == FieldType::Text && fm.policy == IndexPolicy::Exact {
                seq![t]
            } else {
                Seq::empty()
            }
        },
        ValueModel::UInt(_) => Seq::empty(),
    }
}

/// The value a document gives to field `f`, if any.
pub open spec fn find_value(doc: Seq<DocFieldModel>, f: int) -> Option<ValueModel>
    decreases doc.len(),
{
    if doc.len() == 0 {
        None
    } else if doc.last().field as int == f {
        Some(doc.last().value)
    } else {
        find_value(doc.drop_last(), f)
    }
}

proof fn lemma_find_value_none(doc: Seq<DocFieldModel>, f: int)
    requires
        forall|l: int| 0 <= l < doc.len() ==> (#[trigger] doc[l]).field as int != f,
    ensures
        find_value(doc, f) == None::<ValueModel>,
    decreases doc.len(),
{
    if doc.len() > 0 {
        lemma_find_value_none(doc.drop_last(), f);
    }
}

/// The terms a whole document contributes to field `f`.
pub open spec fn doc_field_terms(
    schema: Seq<FieldModel>,
    doc: Seq<DocFieldModel>,
    f: int,
) -> Seq<Seq<char>> {
    match find_value(doc, f) {
        Some(v) => entry_terms(schema[f], v),
        None => Seq::empty(),
    }
}

/// The 0-based positions at which term `t` occurs in a token sequence.
pub open spec fn occurrences(tokens: Seq<Seq<char>>, t: Seq<char>) -> Seq<usize>
    decreases tokens.len(),
{
    if tokens.len() == 0 {
        Seq::empty()
    } else if tokens.last() == t {
        occurrences(tokens.drop_last(), t).push((tokens.len() - 1) as usize)
    } else {
        occurrences(tokens.drop_last(), t)
    }
}

/// The stored-field subset of a document, in document order, verbatim.
pub open spec fn stored_subset(
    schema: Seq<FieldModel>,
    doc: Seq<DocFieldModel>,
) -> Seq<DocFieldModel>
    decreases doc.len(),
{
    if doc.len() == 0 {
        Seq::empty()
    } else if schema[doc.last().field as int].stored {
        stored_subset(schema, doc.drop_last()).push(doc.last())
    } else {
        stored_subset(schema, doc.drop_last())
    }
}

fn clone_value(v: &Value) -> (r: Value)
    ensures
        r.model() == v.model(),
{
    match v {
        Value::Text(t) => Value::Text(clone_chars(t)),
        Value::UInt(x) => Value::UInt(*x),
    }
}

/// Appends one occurrence (at position `pos`) of `term` in document `did` to
/// a field's term mapping, leaving every other (term, document) pair's
/// positions untouched.
fn insert_token(ts: &mut Vec<TermPostings>, term: &Vec<char>, did: usize, pos: usize)
    requires
        terms_wf(term_models(old(ts)@), did + 1),
    ensures
        terms_wf(term_models(final(ts)@), did + 1),
        forall|t: Seq<char>, d: usize|
            positions_of(find_term(term_models(final(ts)@), t), d) == if d == did && t == term@ {
                positions_of(find_term(term_models(old(ts)@), t), did).push(pos)
            } else {
                positions_of(find_term(term_models(old(ts)@), t), d)
            },
{
    let ghost tsm = term_models(ts@);
    let mut i: usize = 0;
    let n = ts.len();
    while i < n
        invariant
            i <= n,
            n == ts@.len(),
            ts@ == old(ts)@,
            tsm == term_models(ts@),
            forall|j: int| 0 <= j < i ==> tsm[j].term != term@,
        decreases n - i,
    {
        if chars_eq(&ts[i].term, term) {
            // The term exists: extend its posting list.
            let ghost pre = tsm[i as int];
            proof {
                lemma_find_term_at(tsm, term@, i as int);
            }
            let mut tp = ts.remove(i);
            let m = tp.postings.len();
            let ghost prefix = ts@;
            if m > 0 && tp.postings[m - 1].doc == did {
                // Another occurrence in the same document: one more position.
                let ghost pm = posting_models(tp.postings@);
                let mut pe = match tp.postings.pop() {
                    Some(pe) => pe,
                    None => {
                        proof {
                            assert(false);
                        }
                        PostingEntry { doc: did, positions: Vec::new() }
                    },
                };
                pe.positions.push(pos);
                tp.postings.push(pe);
                proof {
                    assert(posting_models(tp.postings@) =~= pm.update(
                        pm.len() - 1,
                        pe.model(),
                    ));
                    assert forall|j: int| 0 <= j < pm.len() - 1 implies pm[j].doc != did by {
                        assert(pm[j].doc < pm[pm.len() - 1].doc);
                    }
                }
            } else {
                // First occurrence in this document: a new posting at the end.
                let ghost pm = posting_models(tp.postings@);
                let mut pv: Vec<usize> = Vec::new();
                pv.push(pos);
                proof {
                    assert(pv@ =~= seq![pos]);
                }
                tp.postings.push(PostingEntry { doc: did, positions: pv });
                proof {
                    assert forall|j: int| 0 <= j < pm.len() implies pm[j].doc != did by {
                        if j < pm.len() - 1 {
                            assert(pm[j].doc < pm[pm.len() - 1].doc);
                        }
                    }
                    assert(posting_models(tp.postings@) =~= pm.push(
                        PostingModel { doc: did, positions: seq![pos] },
                    ));
                    lemma_positions_none(pm, did);
                }
            }
            let ghost newtm = tp.model();
            let ghost tpg = tp;
            ts.insert(i, tp);
            proof {
                let u = old(ts)@;
                u.remove_ensures(i as int);
                prefix.insert_ensures(i as int, tpg);
                assert(ts@.len() == u.len());
                assert(ts@ == prefix.insert(i as int, tpg));
                assert(prefix == u.remove(i as int));
                assert forall|j: int| 0 <= j < u.len() implies ts@[j] == u.update(i as int, tpg)[j] by {
                    if j < i {
                        assert(prefix.insert(i as int, tpg)[j] == prefix[j]);
                        assert(u.remove(i as int)[j] == u[j]);
                    } else if j == i {
                        assert(prefix.insert(i as int, tpg)[j] == tpg);
                    } else {
                        assert(prefix.insert(i as int, tpg)[j] == prefix[j - 1]);
                        assert(u.remove(i as int)[j - 1] == u[j]);
                    }
                }
                assert(ts@ =~= u.update(i as int, tpg));
                assert(term_models(ts@) =~= tsm.update(i as int, newtm));
                let pm = pre.postings;
                assert forall|t: Seq<char>, d: usize|
                    positions_of(find_term(term_models(ts@), t), d) == (if d == did && t == term@ {
                        positions_of(find_term(tsm, t), did).push(pos)
                    } else {
                        positions_of(find_term(tsm, t), d)
                    }) by {
                    lemma_find_term_update(tsm, i as int, newtm, t);
                    if t == term@ {
                        if pm.len() > 0 && pm.last().doc == did {
                            assert forall|j: int| 0 <= j < pm.len() - 1 implies pm[j].doc
                                != did by {
                                assert(pm[j].doc < pm[pm.len() - 1].doc);
                            }
                            lemma_positions_at(pm, did, pm.len() - 1);
                            lemma_positions_update_last(
                                pm,
                                PostingModel {
                                    doc: did,
                                    positions: pm.last().positions.push(pos),
                                },
                                d,
                            );
                            assert(newtm.postings =~= pm.update(
                                pm.len() - 1,
                                PostingModel {
                                    doc: did,
                                    positions: pm.last().positions.push(pos),
                                },
                            ));
                        } else {
                            assert forall|j: int| 0 <= j < pm.len() implies pm[j].doc != did by {
                                if pm.len() > 0 && j < pm.len() - 1 {
                                    assert(pm[j].doc < pm[pm.len() - 1].doc);
                                }
                            }
                            lemma_positions_none(pm, did);
                            lemma_positions_push(
                                pm,
                                PostingModel { doc: did, positions: seq![pos] },
                                d,
                            );
                            assert(newtm.postings =~= pm.push(
                                PostingModel { doc: did, positions: seq![pos] },
                            ));
                            assert(Seq::<usize>::empty().push(pos) =~= seq![pos]);
                        }
                    }
                }
                assert forall|a: int, b: int|
                    0 <= a < b < term_models(ts@).len() implies term_models(ts@)[a].term
                    != term_models(ts@)[b].term by {
                    assert(tsm[a].term == term_models(ts@)[a].term || a == i);
                }
                assert(terms_wf(term_models(ts@), did + 1));
            }
            return ;
        }
        i = i + 1;
    }
    // The term is new to this field.
    proof {
        lemma_find_term_none(tsm, term@);
    }
    let mut pv: Vec<usize> = Vec::new();
    pv.push(pos);
    proof {
        assert(pv@ =~= seq![pos]);
    }
    let mut ps: Vec<PostingEntry> = Vec::new();
    ps.push(PostingEntry { doc: did, positions: pv });
    let tp = TermPostings { term: clone_chars(term), postings: ps };
    let ghost newtm = tp.model();
    ts.push(tp);
    proof {
        assert(term_models(ts@) =~= tsm.push(newtm));
        assert(newtm.postings =~= seq![PostingModel { doc: did, positions: seq![pos] }]);
        assert forall|t: Seq<char>, d: usize|
            positions_of(find_term(term_models(ts@), t), d) == (if d == did && t == term@ {
                positions_of(find_term(tsm, t), did).push(pos)
            } else {
                positions_of(find_term(tsm, t), d)
            }) by {
            lemma_find_term_push(tsm, newtm, t);
            if t == term@ {
                assert(newtm.postings.len() == 1);
                assert(newtm.postings[0].doc == did);
                assert(newtm.postings[0].positions == seq![pos]);
                assert(positions_of(newtm.postings, did) == seq![pos]);
                assert(Seq::<usize>::empty().push(pos) =~= seq![pos]);
                if d != did {
                    lemma_positions_none(newtm.postings, d);
                }
            }
        }
        assert(terms_wf(term_models(ts@), did + 1));
    }
}

/// The index writer of one build cycle. It owns the accumulating posting
/// lists and stored documents; `commit` turns them into the immutable index.
pub struct Writer {
    pub schema: Schema,
    pub tokenizer: Tokenizer,
    pub inverted: Vec<Vec<TermPostings>>,
    pub docs: Vec<Vec<DocField>>,
}

impl Writer {
    /// The accumulated term mappings, field by field.
    pub open spec fn inv_model(self) -> Seq<Seq<TermModel>> {
        inverted_models(self.inverted@)
    }

    /// The buffered stored documents, in document-id order.
    pub open spec fn docs_model(self) -> Seq<Seq<DocFieldModel>> {
        stored_models(self.docs@)
    }

    pub open spec fn wf(self) -> bool {
        &&& self.schema.wf()
        &&& self.inverted@.len() == self.schema.spec_fields().len()
        &&& forall|f: int| 0 <= f < self.inverted@.len() ==> terms_wf(
            #[trigger] self.inv_model()[f],
            self.docs@.len() as int,
        )
    }

    /// Opens a writer over a built schema, with the tokenizer configuration
    /// the query engine will share; the accumulator starts empty.
    pub fn open(schema: Schema, tokenizer: Tokenizer) -> (w: Writer)
        requires
            schema.wf(),
        ensures
            w.wf(),
            w.schema == schema,
            w.docs_model().len() == 0,
            w.inv_model().len() == schema.spec_fields().len(),
            forall|f: int| 0 <= f < w.inv_model().len() ==> w.inv_model()[f] == Seq::<
                TermModel,
            >::empty(),
    {
        let n = schema.fields.len();
        let mut inverted: Vec<Vec<TermPostings>> = Vec::new();
        let mut i: usize = 0;
        while i < n
            invariant
                i <= n,
                inverted@.len() == i,
                forall|f: int| 0 <= f < i ==> inverted@[f]@.len() == 0,
            decreases n - i,
        {
            inverted.push(Vec::new());
            i = i + 1;
        }
        let w = Writer { schema, tokenizer, inverted, docs: Vec::new() };
        proof {
            assert forall|f: int| 0 <= f < w.inv_model().len() implies w.inv_model()[f] == Seq::<
                TermModel,
            >::empty() by {
                assert(w.inv_model()[f] =~= Seq::<TermModel>::empty());
            }
        }
        w
    }

    /// Buffers one document: validates it against the schema, stores its
    /// stored-field subset under the next document-id, and accumulates the
    /// postings its indexed fields contribute. A rejected document leaves the
    /// writer unchanged; the batch goes on.
    #[verifier::rlimit(100)]
    pub fn add(&mut self, doc: Vec<DocField>) -> (r: Result<(), AddError>)
        requires
            old(self).wf(),
        ensures
            final(self).wf(),
            final(self).schema == old(self).schema,
            final(self).inv_model().len() == old(self).inv_model().len(),
            r is Err <==> doc_error(old(self).schema.spec_fields(), doc_models(doc@)) is Some,
            match r {
                Ok(_) => {
                    &&& doc_wf(old(self).schema.spec_fields(), doc_models(doc@))
                    &&& final(self).docs_model() == old(self).docs_model().push(
                        stored_subset(old(self).schema.spec_fields(), doc_models(doc@)),
                    )
                    &&& forall|f: int, t: Seq<char>, d: usize|
                        0 <= f < old(self).inv_model().len() ==> term_doc_positions(
                            final(self).inv_model(),
                            f,
                            t,
                            d,
                        ) == (if d == old(self).docs_model().len() {
                            occurrences(
                                doc_field_terms(
                                    old(self).schema.spec_fields(),
                                    doc_models(doc@),
                                    f,
                                ),
                                t,
                            )
                        } else {
                            term_doc_positions(old(self).inv_model(), f, t, d)
                        })
                },
                Err(e) => Some(e) == doc_error(old(self).schema.spec_fields(), doc_models(doc@))
                    && *final(self) == *old(self),
            },
    {
        let ghost sm = self.schema.spec_fields();
        let ghost dm = doc_models(doc@);
        let nfields = self.schema.fields.len();
        let ndoc = doc.len();

        // Validation: the first offending pair decides the error.
        let mut k: usize = 0;
        while k < ndoc
            invariant
                k <= ndoc,
                ndoc == doc@.len(),
                dm == doc_models(doc@),
                sm == self.schema.spec_fields(),
                nfields == sm.len(),
                forall|l: int| 0 <= l < k ==> entry_error(sm, dm, l) is None,
            decreases ndoc - k,
        {
            let f = doc[k].field;
            assert(dm[k as int].field == f);
            if f >= nfields {
                proof {
                    assert(entry_error(sm, dm, k as int) == Some(AddError::NoSuchField));
                    lemma_doc_error_at(sm, dm, k as int);
                }
                return Err(AddError::NoSuchField);
            }
            let mut l: usize = 0;
            while l < k
                invariant
                    l <= k,
                    k < ndoc,
                    ndoc == doc@.len(),
                    dm == doc_models(doc@),
                    forall|l2: int| 0 <= l2 < l ==> dm[l2].field != dm[k as int].field,
                decreases k - l,
            {
                if doc[l].field == f {
                    proof {
                        assert(dm[l as int].field == dm[k as int].field);
                        assert(entry_error(sm, dm, k as int) == Some(AddError::RepeatedField));
                        lemma_doc_error_at(sm, dm, k as int);
                    }
                    return Err(AddError::RepeatedField);
                }
                l = l + 1;
            }
            let tyok = match &doc[k].value {
                Value::Text(_) => self.schema.fields[f].ftype == FieldType::Text,
                Value::UInt(_) => self.schema.fields[f].ftype == FieldType::UInt,
            };
            if !tyok {
                proof {
                    assert(!type_matches(dm[k as int].value, sm[dm[k as int].field as int].ftype));
                    assert(entry_error(sm, dm, k as int) == Some(AddError::TypeMismatch));
                    lemma_doc_error_at(sm, dm, k as int);
                }
                return Err(AddError::TypeMismatch);
            }
            proof {
                assert(type_matches(dm[k as int].value, sm[dm[k as int].field as int].ftype));
                assert(entry_error(sm, dm, k as int) is None);
            }
            k = k + 1;
        }
        proof {
            lemma_doc_error_upto_none(sm, dm, dm.len() as int);
            lemma_doc_error_none(sm, dm);
            assert(doc_wf(sm, dm));
        }

        let ghost w0 = self.inv_model();
        let ghost d0 = self.docs_model();
        let did = self.docs.len();

        // The stored-field subset, in document order, verbatim.
        let mut stored: Vec<DocField> = Vec::new();
        let mut e: usize = 0;
        while e < ndoc
            invariant
                e <= ndoc,
                ndoc == doc@.len(),
                dm == doc_models(doc@),
                sm == self.schema.spec_fields(),
                doc_wf(sm, dm),
                doc_models(stored@) == stored_subset(sm, dm.take(e as int)),
            decreases ndoc - e,
        {
            let ghost pre = dm.take(e as int);
            let ghost post = dm.take(e as int + 1);
            proof {
                assert(post.drop_last() =~= pre);
                assert(post.last() == dm[e as int]);
            }
            let f = doc[e].field;
            if self.schema.fields[f].stored {
                let ghost olds = doc_models(stored@);
                stored.push(DocField { field: f, value: clone_value(&doc[e].value) });
                proof {
                    assert(doc_models(stored@) =~= olds.push(dm[e as int]));
                }
            }
            e = e + 1;
        }
        proof {
            assert(dm.take(ndoc as int) =~= dm);
        }
        self.docs.push(stored);
        proof {
            assert(self.docs_model() =~= d0.push(stored_subset(sm, dm)));
            assert(self.docs@.len() == did + 1);
            assert forall|f: int| 0 <= f < self.inverted@.len() implies terms_wf(
                #[trigger] self.inv_model()[f],
                did + 1,
            ) by {
                assert(terms_wf(w0[f], did as int));
                assert forall|i: int| 0 <= i < w0[f].len() implies postings_wf(
                    #[trigger] w0[f][i].postings,
                    did + 1,
                ) && w0[f][i].postings.len() > 0 by {
                    assert(postings_wf(w0[f][i].postings, did as int));
                }
            }
            // Before this batch entry, document `did` appears in no posting list.
            assert forall|f: int, t: Seq<char>| 0 <= f < sm.len() implies term_doc_positions(
                w0,
                f,
                t,
                did,
            ) == Seq::<usize>::empty() by {
                crate::store::lemma_find_term_wf(w0[f], t, did as int);
                let ps = find_term(w0[f], t);
                assert forall|j: int| 0 <= j < ps.len() implies ps[j].doc != did by {
                    assert(ps[j].doc < did);
                }
                lemma_positions_none(ps, did);
            }
        }
        let ghost docs1 = self.docs@;

        // The postings of each indexed field of the document.
        let mut e2: usize = 0;
        while e2 < ndoc
            invariant
                e2 <= ndoc,
                ndoc == doc@.len(),
                dm == doc_models(doc@),
                doc_wf(sm, dm),
                self.schema == old(self).schema,
                sm == self.schema.spec_fields(),
                self.docs@ == docs1,
                self.docs@.len() == did + 1,
                self.inverted@.len() == sm.len(),
                forall|f: int| 0 <= f < sm.len() ==> terms_wf(
                    #[trigger] self.inv_model()[f],
                    did + 1,
                ),
                forall|f: int, t: Seq<char>, d: usize|
                    0 <= f < sm.len() ==> term_doc_positions(self.inv_model(), f, t, d) == (if d
                        == did {
                        occurrences(doc_field_terms(sm, dm.take(e2 as int), f), t)
                    } else {
                        term_doc_positions(w0, f, t, d)
                    }),
                forall|f: int, t: Seq<char>|
                    0 <= f < sm.len() ==> term_doc_positions(w0, f, t, did) == Seq::<
                        usize,
                    >::empty(),
            decreases ndoc - e2,
        {
            let ghost pre = dm.take(e2 as int);
            let ghost post = dm.take(e2 as int + 1);
            proof {
                assert(post.drop_last() =~= pre);
                assert(post.last() == dm[e2 as int]);
            }
            let f = doc[e2].field;
            assert(dm[e2 as int].field == f);
            let ghost curm = self.inv_model();
            let ghost toks = entry_terms(sm[f as int], dm[e2 as int].value);
            let tokens: Vec<Vec<char>> = match &doc[e2].value {
                Value::Text(txt) => {
                    match self.schema.fields[f].policy {
                        IndexPolicy::Positions => {
                            let r = self.tokenizer.tokenize(txt, self.schema.fields[f].mode);
                            proof {
                                assert(seq_views(r@) == toks);
                            }
                            r
                        },
                        IndexPolicy::Exact => {
                            let mut v: Vec<Vec<char>> = Vec::new();
                            v.push(clone_chars(txt));
                            proof {
                                assert(seq_views(v@) =~= seq![txt@]);
                            }
                            v
                        },
                        IndexPolicy::NotIndexed => {
                            let v: Vec<Vec<char>> = Vec::new();
                            proof {
                                assert(seq_views(v@) =~= Seq::<Seq<char>>::empty());
                            }
                            v
                        },
                    }
                },
                Value::UInt(_) => {
                    let v: Vec<Vec<char>> = Vec::new();
                    proof {
                        assert(seq_views(v@) =~= Seq::<Seq<char>>::empty());
                    }
                    v
                },
            };
            assert(seq_views(tokens@) == toks);
            // Field `f` appears once in the document, so nothing of it was
            // indexed from earlier pairs.
            proof {
                assert forall|l: int| 0 <= l < pre.len() implies (#[trigger] pre[l]).field as int
                    != f as int by {
                    assert(pre[l] == dm[l]);
                    assert(dm[l].field != dm[e2 as int].field);
                }
                lemma_find_value_none(pre, f as int);
                assert(doc_field_terms(sm, pre, f as int) == Seq::<Seq<char>>::empty());
            }
            let ghost inv0 = self.inverted@;
            let mut ts = self.inverted.remove(f);
            let ghost invrem = self.inverted@;
            let ghost orig = curm[f as int];
            proof {
                assert(term_models(ts@) == orig);
                assert forall|t: Seq<char>| positions_of(
                    find_term(orig, t),
                    did,
                ) == Seq::<usize>::empty() by {
                    assert(term_doc_positions(curm, f as int, t, did) == occurrences(
                        doc_field_terms(sm, pre, f as int),
                        t,
                    ));
                }
            }
            let ntok = tokens.len();
            let mut kk: usize = 0;
            while kk < ntok
                invariant
                    kk <= ntok,
                    ntok == tokens@.len(),
                    seq_views(tokens@) == toks,
                    terms_wf(term_models(ts@), did + 1),
                    forall|t: Seq<char>, d: usize|
                        positions_of(find_term(term_models(ts@), t), d) == (if d == did {
                            occurrences(toks.take(kk as int), t)
                        } else {
                            positions_of(find_term(orig, t), d)
                        }),
                    forall|t: Seq<char>| positions_of(find_term(orig, t), did) == Seq::<
                        usize,
                    >::empty(),
                decreases ntok - kk,
            {
                let ghost tsm_before = term_models(ts@);
                insert_token(&mut ts, &tokens[kk], did, kk);
                proof {
                    let tkpre = toks.take(kk as int);
                    let tkpost = toks.take(kk as int + 1);
                    assert(tkpost.drop_last() =~= tkpre);
                    assert(tkpost.last() == toks[kk as int]);
                    assert(toks[kk as int] == tokens@[kk as int]@);
                    assert forall|t: Seq<char>, d: usize|
                        positions_of(find_term(term_models(ts@), t), d) == (if d == did {
                            occurrences(tkpost, t)
                        } else {
                            positions_of(find_term(orig, t), d)
                        }) by {
                        if t == tokens@[kk as int]@ {
                            assert(occurrences(tkpost, t) == occurrences(tkpre, t).push(
                                (tkpost.len() - 1) as usize,
                            ));
                            assert((tkpost.len() - 1) as usize == kk);
                        } else {
                            assert(occurrences(tkpost, t) == occurrences(tkpre, t));
                        }
                    }
                }
                kk = kk + 1;
            }
            proof {
                assert(toks.take(ntok as int) =~= toks);
            }
            let ghost tsg = ts;
            self.inverted.insert(f, ts);
            proof {
                inv0.remove_ensures(f as int);
                invrem.insert_ensures(f as int, tsg);
                assert(self.inverted@ == invrem.insert(f as int, tsg));
                assert forall|j: int| 0 <= j < inv0.len() implies self.inverted@[j] == inv0.update(
                    f as int,
                    tsg,
                )[j] by {
                    if j < f {
                        assert(invrem.insert(f as int, tsg)[j] == invrem[j]);
                        assert(inv0.remove(f as int)[j] == inv0[j]);
                    } else if j == f {
                        assert(invrem.insert(f as int, tsg)[j] == tsg);
                    } else {
                        assert(invrem.insert(f as int, tsg)[j] == invrem[j - 1]);
                        assert(inv0.remove(f as int)[j - 1] == inv0[j]);
                    }
                }
                assert(self.inverted@ =~= inv0.update(f as int, tsg));
                assert(self.inv_model() =~= curm.update(f as int, term_models(tsg@)));
                // The value this pair gives to `f`, and to no other field.
                assert(find_value(post, f as int) == Some(dm[e2 as int].value));
                assert(doc_field_terms(sm, post, f as int) == toks);
                assert forall|f2: int, t: Seq<char>, d: usize|
                    0 <= f2 < sm.len() implies term_doc_positions(self.inv_model(), f2, t, d)
                    == (if d == did {
                    occurrences(doc_field_terms(sm, post, f2), t)
                } else {
                    term_doc_positions(w0, f2, t, d)
                }) by {
                    if f2 == f as int {
                        assert(self.inv_model()[f2] == term_models(tsg@));
                        assert(positions_of(find_term(term_models(tsg@), t), d) == (if d == did {
                            occurrences(toks, t)
                        } else {
                            positions_of(find_term(orig, t), d)
                        }));
                        if d != did {
                            assert(positions_of(find_term(orig, t), d) == term_doc_positions(
                                curm,
                                f as int,
                                t,
                                d,
                            ));
                            assert(term_doc_positions(curm, f as int, t, d) == (if d == did {
                                occurrences(doc_field_terms(sm, pre, f as int), t)
                            } else {
                                term_doc_positions(w0, f as int, t, d)
                            }));
                        }
                    } else {
                        assert(self.inv_model()[f2] == curm[f2]);
                        assert(find_value(post, f2) == find_value(pre, f2));
                        assert(doc_field_terms(sm, post, f2) == doc_field_terms(sm, pre, f2));
                        assert(term_doc_positions(self.inv_model(), f2, t, d)
                            == term_doc_positions(curm, f2, t, d));
                        assert(term_doc_positions(curm, f2, t, d) == (if d == did {
                            occurrences(doc_field_terms(sm, pre, f2), t)
                        } else {
                            term_doc_positions(w0, f2, t, d)
                        }));
                    }
                }
                assert forall|f2: int| 0 <= f2 < sm.len() implies terms_wf(
                    #[trigger] self.inv_model()[f2],
                    did + 1,
                ) by {
                    if f2 != f as int {
                        assert(self.inv_model()[f2] == curm[f2]);
                    }
                }
            }
            e2 = e2 + 1;
        }
        proof {
            assert(dm.take(ndoc as int) =~= dm);
        }
        Ok(())
    }

    /// Publishes the accumulated batch as one immutable index: the sole
    /// durability boundary. Document-ids are the buffered positions, in
    /// ingestion order.
    pub fn commit(self) -> (ix: Index)
        requires
            self.wf(),
        ensures
            ix.wf(),
            ix.schema == self.schema,
            ix.inv_model() == self.inv_model(),
            ix.docs_model() == self.docs_model(),
    {
        let ghost w = self;
        let ix = Index { schema: self.schema, inverted: self.inverted, docs: self.docs };
        proof {
            assert forall|f: int| 0 <= f < ix.inverted@.len() implies terms_wf(
                #[trigger] ix.inv_model()[f],
                ix.docs@.len() as int,
            ) by {
                assert(terms_wf(w.inv_model()[f], w.docs@.len() as int));
            }
        }
        ix
    }
}

/// Document-ids are assigned monotonically: one `add` appends its document's
/// stored-field subset under the next id — the previous document count — and
/// leaves every committed document's id and stored values untouched. This is
/// what `add`'s contract gives, written out for the stored store.
pub proof fn lemma_ids_and_stored_values(
    docs0: Seq<Seq<DocFieldModel>>,
    sm: Seq<FieldModel>,
    dm: Seq<DocFieldModel>,
    docs1: Seq<Seq<DocFieldModel>>,
)
    requires
        docs1 == docs0.push(stored_subset(sm, dm)),
    ensures
        docs1.len() == docs0.len() + 1,
        docs1[docs0.len() as int] == stored_subset(sm, dm),
        forall|d: int| 0 <= d < docs0.len() ==> docs1[d] == docs0[d],
{
}

} // verus!
