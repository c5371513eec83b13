//! The query engine: parses a query string against a set of target fields,
//! tokenizes query terms with the same tokenizer configuration as the index,
//! retrieves and ranks matching documents, and returns the top-K by relevance.
//!
//! Scores are integer-scaled term-frequency/inverse-document-frequency
//! weights: a matched (term, field) pair contributes
//! `tf * (1000 * (N + 1) / (df + 1))`, saturating at `u64::MAX`, where `tf` is
//! the term frequency in the document's field, `df` the posting-list length,
//! and `N` the document count. Ties are broken by ascending document-id.

use vstd::prelude::*;
use vstd::arithmetic::div_mod::lemma_fundamental_div_mod;
use crate::schema::{Schema, SchemaError, FieldModel, FieldType, IndexPolicy, find_field};
use crate::store::{
    Index, TermModel, find_term, positions_of, term_doc_positions, terms_wf,
    lemma_find_term_wf, lemma_postings_len_bound,
};
use crate::tokenizer::{Tokenizer, mode_tokens};
use crate::seq_views;

verus! {

/// Why a query was rejected: malformed syntax, or a field reference that the
/// schema cannot resolve.
#[derive(Clone, Copy, PartialEq, Eq, Structural, Debug)]
pub enum QueryError {
    /// Malformed query syntax: an empty field name or term in a qualified
    /// clause, or a qualified field that is not queryable text.
    QueryParse,
    /// The query names a field absent from the schema.
    UnknownField,
}

/// One resolved query atom: a term to look up in one field.
pub struct QueryAtom {
    pub field: usize,
    pub term: Vec<char>,
}

pub ghost struct AtomModel {
    pub field: usize,
    pub term: Seq<char>,
}

impl QueryAtom {
    pub open spec fn model(self) -> AtomModel {
        AtomModel { field: self.field, term: self.term@ }
    }
}

pub open spec fn atom_models(q: Seq<QueryAtom>) -> Seq<AtomModel> {
    q.map_values(|a: QueryAtom| a.model())
}

/// One ranked result: a matching document and its score.
#[derive(Clone, Copy, PartialEq, Eq, Structural, Debug)]
pub struct Hit {
    pub doc: usize,
    pub score: u64,
}

/// ASCII whitespace, which separates query clauses.
pub open spec fn is_space(c: char) -> bool {
    c == ' ' || c == '\t' || c == '\n' || c == '\r'
}

/// The whitespace-separated clauses of a query string, in order.
pub open spec fn split_ws(s: Seq<char>) -> Seq<Seq<char>>
    decreases s.len(),
{
    if s.len() == 0 {
        seq![]
    } else {
        let rest = split_ws(s.drop_last());
        let c = s.last();
        if is_space(c) {
            rest
        } else if s.len() >= 2 && !is_space(s[s.len() - 2]) {
            rest.update(rest.len() - 1, rest.last().push(c))
        } else {
            rest.push(seq![c])
        }
    }
}

/// The position of the first `:` of a clause, if any.
pub open spec fn first_colon(t: Seq<char>) -> Option<int>
    decreases t.len(),
{
    if t.len() == 0 {
        None
    } else if t[0] == ':' {
        Some(0)
    } else {
        match first_colon(t.drop_first()) {
            Some(i) => Some(i + 1),
            None => None,
        }
    }
}

proof fn lemma_first_colon_at(t: Seq<char>, i: int)
    requires
        0 <= i < t.len(),
        t[i] == ':',
        forall|j: int| 0 <= j < i ==> t[j] != ':',
    ensures
        first_colon(t) == Some(i),
    decreases i,
{
    if i > 0 {
        assert(forall|j: int| 0 <= j < t.len() - 1 ==> t.drop_first()[j] == t[j + 1]);
        lemma_first_colon_at(t.drop_first(), i - 1);
    }
}

proof fn lemma_first_colon_none(t: Seq<char>)
    requires
        forall|j: int| 0 <= j < t.len() ==> t[j] != ':',
    ensures
        first_colon(t) == None::<int>,
    decreases t.len(),
{
    if t.len() > 0 {
        assert(forall|j: int| 0 <= j < t.len() - 1 ==> t.drop_first()[j] == t[j + 1]);
        lemma_first_colon_none(t.drop_first());
    }
}

/// The atoms one field contributes for a term text: its tokenization in the
/// field's mode, or the whole text as one term for an exact-match field.
pub open spec fn field_atoms(fm: FieldModel, fid: usize, text: Seq<char>) -> Seq<AtomModel> {
    if fm.policy == IndexPolicy::Exact {
        seq![AtomModel { field: fid, term: text }]
    } else {
        mode_tokens(fm.mode, text).map_values(|t: Seq<char>| AtomModel { field: fid, term: t })
    }
}

/// The atoms of a bare clause: its tokens in each target field's mode, target
/// fields in caller order.
pub open spec fn bare_atoms(
    schema: Seq<FieldModel>,
    targets: Seq<usize>,
    clause: Seq<char>,
) -> Seq<AtomModel>
    decreases targets.len(),
{
    if targets.len() == 0 {
        Seq::empty()
    } else {
        bare_atoms(schema, targets.drop_last(), clause) + field_atoms(
            schema[targets.last() as int],
            targets.last(),
            clause,
        )
    }
}

/// What one clause parses to: a bare clause targets every target field; a
/// `field:term` clause targets the named field, which must exist and be
/// queryable text.
pub open spec fn clause_result(
    schema: Seq<FieldModel>,
    targets: Seq<usize>,
    clause: Seq<char>,
) -> Result<Seq<AtomModel>, QueryError> {
    match first_colon(clause) {
        None => Ok(bare_atoms(schema, targets, clause)),
        Some(i) => {
            let fname = clause.take(i);
            let tpart = clause.skip(i + 1);
            if fname.len() == 0 || tpart.len() == 0 {
                Err(QueryError::QueryParse)
            } else {
                match find_field(schema, fname) {
                    None => Err(QueryError::UnknownField),
                    Some(fi) => {
                        if schema[fi].ftype != FieldType::Text || schema[fi].policy
                            == IndexPolicy::NotIndexed {
                            Err(QueryError::QueryParse)
                        } else {
                            Ok(field_atoms(schema[fi], fi as usize, tpart))
                        }
                    },
                }
            }
        },
    }
}

pub open spec fn parse_upto(
    schema: Seq<FieldModel>,
    targets: Seq<usize>,
    clauses: Seq<Seq<char>>,
    n: int,
) -> Result<Seq<AtomModel>, QueryError>
    decreases n,
{
    if n <= 0 {
        Ok(Seq::empty())
    } else {
        match parse_upto(schema, targets, clauses, n - 1) {
            Err(e) => Err(e),
            Ok(a) => match clause_result(schema, targets, clauses[n - 1]) {
                Err(e) => Err(e),
                Ok(b) => Ok(a + b),
            },
        }
    }
}

/// What a whole query string parses to: the atoms of its clauses in order, or
/// the first clause's error.
pub open spec fn spec_parse(
    schema: Seq<FieldModel>,
    targets: Seq<usize>,
    s: Seq<char>,
) -> Result<Seq<AtomModel>, QueryError> {
    parse_upto(schema, targets, split_ws(s), split_ws(s).len() as int)
}

proof fn lemma_parse_err_stable(
    schema: Seq<FieldModel>,
    targets: Seq<usize>,
    clauses: Seq<Seq<char>>,
    k: int,
    n: int,
)
    requires
        0 <= k < n,
        parse_upto(schema, targets, clauses, k + 1) is Err,
    ensures
        parse_upto(schema, targets, clauses, n) == parse_upto(schema, targets, clauses, k + 1),
    decreases n,
{
    if n > k + 1 {
        lemma_parse_err_stable(schema, targets, clauses, k, n - 1);
    }
}

fn copy_range(t: &Vec<char>, from: usize, to: usize) -> (r: Vec<char>)
    requires
        from <= to <= t@.len(),
    ensures
        r@ == t@.subrange(from as int, to as int),
{
    let mut r: Vec<char> = Vec::new();
    let mut i: usize = from;
    while i < to
        invariant
            from <= i <= to <= t@.len(),
            r@.len() == i - from,
            forall|j: int| 0 <= j < r@.len() ==> r@[j] == t@[from + j],
        decreases to - i,
    {
        r.push(t[i]);
        i = i + 1;
    }
    assert(r@ =~= t@.subrange(from as int, to as int));
    r
}

fn split_ws_exec(text: &Vec<char>) -> (r: Vec<Vec<char>>)
    ensures
        seq_views(r@) == split_ws(text@),
{
    let mut toks: Vec<Vec<char>> = Vec::new();
    let mut cur: Vec<char> = Vec::new();
    let mut i: usize = 0;
    while i < text.len()
        invariant
            i <= text@.len(),
            (cur@.len() > 0) <==> (i > 0 && !is_space(text@[i as int - 1])),
            cur@.len() > 0 ==> split_ws(text@.take(i as int)) == seq_views(toks@).push(cur@),
            cur@.len() == 0 ==> split_ws(text@.take(i as int)) == seq_views(toks@),
        decreases text@.len() - i,
    {
        let ghost pre = text@.take(i as int);
        let ghost post = text@.take(i as int + 1);
        proof {
            assert(post.drop_last() =~= pre);
            assert(post.last() == text@[i as int]);
        }
        let c = text[i];
        let space = c == ' ' || c == '\t' || c == '\n' || c == '\r';
        if !space {
            if cur.len() > 0 {
                let ghost rest = split_ws(pre);
                proof {
                    assert(post.len() >= 2 && !is_space(post[post.len() - 2]));
                    assert(rest.last() == cur@);
                    assert(rest.update(rest.len() - 1, cur@.push(text@[i as int])) =~= seq_views(
                        toks@,
                    ).push(cur@.push(text@[i as int])));
                }
                cur.push(c);
            } else {
                cur.push(c);
                proof {
                    assert(cur@ =~= seq![text@[i as int]]);
                }
            }
        } else {
            if cur.len() > 0 {
                let ghost old_toks = toks@;
                let ghost old_cur = cur@;
                toks.push(cur);
                cur = Vec::new();
                proof {
                    assert(seq_views(toks@) =~= seq_views(old_toks).push(old_cur));
                }
            }
        }
        i = i + 1;
    }
    proof {
        assert(text@.take(text@.len() as int) =~= text@);
    }
    if cur.len() > 0 {
        let ghost old_toks = toks@;
        let ghost old_cur = cur@;
        toks.push(cur);
        proof {
            assert(seq_views(toks@) =~= seq_views(old_toks).push(old_cur));
        }
    }
    toks
}

/// Appends the atoms one field contributes for a term text.
fn push_field_atoms(
    atoms: &mut Vec<QueryAtom>,
    schema: &Schema,
    tokenizer: &Tokenizer,
    fid: usize,
    text: &Vec<char>,
)
    requires
        fid < schema.spec_fields().len(),
    ensures
        atom_models(final(atoms)@) == atom_models(old(atoms)@) + field_atoms(
            schema.spec_fields()[fid as int],
            fid,
            text@,
        ),
        (forall|k: int|
            0 <= k < old(atoms)@.len() ==> (#[trigger] old(atoms)@[k]).field
                < schema.spec_fields().len()) ==> (forall|k: int|
            0 <= k < final(atoms)@.len() ==> (#[trigger] final(atoms)@[k]).field
                < schema.spec_fields().len()),
{
    let ghost fm = schema.spec_fields()[fid as int];
    let ghost base = atom_models(atoms@);
    match schema.fields[fid].policy {
        IndexPolicy::Exact => {
            atoms.push(QueryAtom { field: fid, term: crate::store::clone_chars(text) });
            proof {
                assert(atom_models(atoms@) =~= base + seq![AtomModel { field: fid, term: text@ }]);
            }
        },
        _ => {
            let toks = tokenizer.tokenize(text, schema.fields[fid].mode);
            let ghost tv = mode_tokens(fm.mode, text@);
            let ghost target = tv.map_values(|t: Seq<char>| AtomModel { field: fid, term: t });
            let n = toks.len();
            let mut k: usize = 0;
            while k < n
                invariant
                    k <= n,
                    n == toks@.len(),
                    seq_views(toks@) == tv,
                    atom_models(atoms@) == base + target.take(k as int),
                decreases n - k,
            {
                let ghost olda = atom_models(atoms@);
                let term = crate::store::clone_chars(&toks[k]);
                atoms.push(QueryAtom { field: fid, term });
                proof {
                    assert(target.take(k as int + 1).drop_last() =~= target.take(k as int));
                    assert(atom_models(atoms@) =~= olda.push(target[k as int]));
                    assert(base + target.take(k as int + 1) =~= (base + target.take(k as int)).push(
                        target[k as int],
                    ));
                }
                k = k + 1;
            }
            proof {
                assert(target.take(n as int) =~= target);
                if fm.policy == IndexPolicy::Positions || fm.policy == IndexPolicy::NotIndexed {
                    assert(field_atoms(fm, fid, text@) == target);
                }
            }
        },
    }
    proof {
        if forall|k: int|
            0 <= k < old(atoms)@.len() ==> (#[trigger] old(atoms)@[k]).field
                < schema.spec_fields().len() {
            assert forall|k: int|
                0 <= k < atoms@.len() implies (#[trigger] atoms@[k]).field
                    < schema.spec_fields().len() by {
                assert(atoms@[k].field == atom_models(atoms@)[k].field);
                if k < old(atoms)@.len() {
                    assert(atom_models(atoms@)[k] == atom_models(old(atoms)@)[k]);
                    assert(atom_models(old(atoms)@)[k].field == old(atoms)@[k].field);
                } else {
                    assert(atom_models(atoms@)[k].field == fid);
                }
            }
        }
    }
}

/// Parses a query string against the target fields. Bare clauses search every
/// target field; `field:term` clauses search the named field. The first
/// offending clause decides the error, and an erroneous query yields no atoms.
pub fn parse(
    schema: &Schema,
    tokenizer: &Tokenizer,
    text: &Vec<char>,
    targets: &Vec<usize>,
) -> (r: Result<Vec<QueryAtom>, QueryError>)
    requires
        forall|ti: int|
            0 <= ti < targets@.len() ==> (#[trigger] targets@[ti]) < schema.spec_fields().len(),
    ensures
        match r {
            Ok(q) => spec_parse(schema.spec_fields(), targets@, text@) == Ok::<
                Seq<AtomModel>,
                QueryError,
            >(atom_models(q@)) && forall|k: int|
                0 <= k < q@.len() ==> (#[trigger] q@[k]).field < schema.spec_fields().len(),
            Err(e) => spec_parse(schema.spec_fields(), targets@, text@) == Err::<
                Seq<AtomModel>,
                QueryError,
            >(e),
        },
{
    let ghost sm = schema.spec_fields();
    let clauses = split_ws_exec(text);
    let ghost cs = split_ws(text@);
    let mut atoms: Vec<QueryAtom> = Vec::new();
    proof {
        assert(atom_models(atoms@) =~= Seq::<AtomModel>::empty());
    }
    let nc = clauses.len();
    let mut e: usize = 0;
    while e < nc
        invariant
            e <= nc,
            nc == clauses@.len(),
            seq_views(clauses@) == cs,
            sm == schema.spec_fields(),
            forall|ti: int| 0 <= ti < targets@.len() ==> (#[trigger] targets@[ti]) < sm.len(),
            parse_upto(sm, targets@, cs, e as int) == Ok::<Seq<AtomModel>, QueryError>(
                atom_models(atoms@),
            ),
            forall|k: int| 0 <= k < atoms@.len() ==> (#[trigger] atoms@[k]).field < sm.len(),
        decreases nc - e,
    {
        let clause = &clauses[e];
        assert(clause@ == cs[e as int]);
        let ghost abase = atom_models(atoms@);
        // Find the first ':' of the clause.
        let mut ci: usize = 0;
        let mut colon: Option<usize> = None;
        let cl = clause.len();
        while ci < cl
            invariant
                ci <= cl,
                cl == clause@.len(),
                colon is None,
                forall|j: int| 0 <= j < ci ==> clause@[j] != ':',
            decreases cl - ci,
        {
            if clause[ci] == ':' {
                colon = Some(ci);
                break ;
            }
            ci = ci + 1;
        }
        match colon {
            None => {
                proof {
                    lemma_first_colon_none(clause@);
                }
                // A bare clause: tokens of every target field.
                let nt = targets.len();
                let mut ti: usize = 0;
                while ti < nt
                    invariant
                        ti <= nt,
                        nt == targets@.len(),
                        sm == schema.spec_fields(),
                        forall|t2: int| 0 <= t2 < targets@.len() ==> (#[trigger] targets@[t2])
                            < sm.len(),
                        atom_models(atoms@) == abase + bare_atoms(
                            sm,
                            targets@.take(ti as int),
                            clause@,
                        ),
                        forall|k: int| 0 <= k < atoms@.len() ==> (#[trigger] atoms@[k]).field
                            < sm.len(),
                    decreases nt - ti,
                {
                    let ghost tpre = targets@.take(ti as int);
                    let ghost tpost = targets@.take(ti as int + 1);
                    proof {
                        assert(tpost.drop_last() =~= tpre);
                        assert(tpost.last() == targets@[ti as int]);
                    }
                    push_field_atoms(&mut atoms, schema, tokenizer, targets[ti], clause);
                    proof {
                        assert(atom_models(atoms@) =~= abase + bare_atoms(sm, tpost, clause@));
                    }
                    ti = ti + 1;
                }
                proof {
                    assert(targets@.take(nt as int) =~= targets@);
                    assert(atom_models(atoms@) == abase + bare_atoms(sm, targets@, cs[e as int]));
                    assert(clause_result(sm, targets@, cs[e as int]) == Ok::<
                        Seq<AtomModel>,
                        QueryError,
                    >(bare_atoms(sm, targets@, cs[e as int])));
                }
            },
            Some(ci) => {
                proof {
                    lemma_first_colon_at(clause@, ci as int);
                }
                if ci == 0 || ci + 1 >= clause.len() {
                    proof {
                        assert(clause@.take(ci as int).len() == 0 || clause@.skip(
                            ci as int + 1,
                        ).len() == 0);
                        assert(clause_result(sm, targets@, cs[e as int]) == Err::<
                            Seq<AtomModel>,
                            QueryError,
                        >(QueryError::QueryParse));
                        lemma_parse_err_stable(sm, targets@, cs, e as int, cs.len() as int);
                    }
                    return Err(QueryError::QueryParse);
                }
                let fname = copy_range(clause, 0, ci);
                let tpart = copy_range(clause, ci + 1, clause.len());
                proof {
                    assert(fname@ =~= clause@.take(ci as int));
                    assert(tpart@ =~= clause@.skip(ci as int + 1));
                }
                let fr = schema.get_field(&fname);
                match fr {
                    Err(_) => {
                        proof {
                            assert forall|j: int| 0 <= j < sm.len() implies sm[j].name
                                != fname@ by {
                                assert(!crate::schema::has_field(sm, fname@));
                            }
                            crate::schema::lemma_find_field_none(sm, fname@);
                            assert(clause_result(sm, targets@, cs[e as int]) == Err::<
                                Seq<AtomModel>,
                                QueryError,
                            >(QueryError::UnknownField));
                            lemma_parse_err_stable(sm, targets@, cs, e as int, cs.len() as int);
                        }
                        return Err(QueryError::UnknownField);
                    },
                    Ok(fi) => {
                        proof {
                            crate::schema::lemma_find_field_at(sm, fname@, fi as int);
                            assert(find_field(sm, cs[e as int].take(ci as int)) == Some(
                                fi as int,
                            ));
                            assert(cs[e as int].take(ci as int).len() != 0);
                            assert(cs[e as int].skip(ci as int + 1).len() != 0);
                        }
                        let queryable = schema.fields[fi].ftype == FieldType::Text
                            && !(schema.fields[fi].policy == IndexPolicy::NotIndexed);
                        if !queryable {
                            proof {
                                assert(clause_result(sm, targets@, cs[e as int]) == Err::<
                                    Seq<AtomModel>,
                                    QueryError,
                                >(QueryError::QueryParse));
                                lemma_parse_err_stable(sm, targets@, cs, e as int, cs.len() as int);
                            }
                            return Err(QueryError::QueryParse);
                        }
                        push_field_atoms(&mut atoms, schema, tokenizer, fi, &tpart);
                        proof {
                            assert(atom_models(atoms@) == abase + field_atoms(
                                sm[fi as int],
                                fi,
                                tpart@,
                            ));
                            assert(clause_result(sm, targets@, cs[e as int]) == Ok::<
                                Seq<AtomModel>,
                                QueryError,
                            >(field_atoms(sm[fi as int], fi, cs[e as int].skip(ci as int + 1))));
                        }
                    },
                }
            },
        }
        proof {
            assert(parse_upto(sm, targets@, cs, e as int + 1) == Ok::<Seq<AtomModel>, QueryError>(
                atom_models(atoms@),
            ));
        }
        e = e + 1;
    }
    proof {
        assert(parse_upto(sm, targets@, cs, cs.len() as int) == Ok::<Seq<AtomModel>, QueryError>(
            atom_models(atoms@),
        ));
    }
    Ok(atoms)
}

/// Saturation at `u64::MAX`.
pub open spec fn sat64(x: int) -> u64 {
    if x > u64::MAX {
        u64::MAX
    } else if x < 0 {
        0
    } else {
        x as u64
    }
}

/// The integer-scaled inverse document frequency of a term with `df` postings
/// in an index of `n` documents.
pub open spec fn idf_val(n: int, df: int) -> int {
    1000 * (n + 1) / (df + 1)
}

/// What one matched atom contributes to a document's score.
pub open spec fn term_weight(tf: int, df: int, n: int) -> u64 {
    sat64(tf * idf_val(n, df))
}

pub open spec fn atom_tf(inv: Seq<Seq<TermModel>>, a: AtomModel, d: usize) -> int {
    term_doc_positions(inv, a.field as int, a.term, d).len() as int
}

pub open spec fn atom_df(inv: Seq<Seq<TermModel>>, a: AtomModel) -> int {
    find_term(inv[a.field as int], a.term).len() as int
}

pub open spec fn score_upto(
    inv: Seq<Seq<TermModel>>,
    q: Seq<AtomModel>,
    n: int,
    d: usize,
    k: int,
) -> u64
    decreases k,
{
    if k <= 0 {
        0
    } else {
        sat64(
            score_upto(inv, q, n, d, k - 1) + term_weight(
                atom_tf(inv, q[k - 1], d),
                atom_df(inv, q[k - 1]),
                n,
            ),
        )
    }
}

/// The relevance score of document `d` for a query: the saturating sum of its
/// atoms' contributions, in query order.
pub open spec fn score_of(inv: Seq<Seq<TermModel>>, q: Seq<AtomModel>, n: int, d: usize) -> u64 {
    score_upto(inv, q, n, d, q.len() as int)
}

/// The scoring documents below `bound`, ascending: exactly those with a
/// score-contributing term.
pub open spec fn matches_upto(
    inv: Seq<Seq<TermModel>>,
    q: Seq<AtomModel>,
    n: int,
    bound: int,
) -> Seq<Hit>
    decreases bound,
{
    if bound <= 0 {
        Seq::empty()
    } else {
        let rest = matches_upto(inv, q, n, bound - 1);
        let d = (bound - 1) as usize;
        if score_of(inv, q, n, d) > 0 {
            rest.push(Hit { doc: d, score: score_of(inv, q, n, d) })
        } else {
            rest
        }
    }
}

/// Ranking order: higher score first; equal scores in ascending document-id
/// order.
pub open spec fn ranks_before(a: Hit, b: Hit) -> bool {
    a.score > b.score || (a.score == b.score && a.doc < b.doc)
}

/// Insertion into a ranked list, stable for the ranking order.
pub open spec fn insert_hit(h: Hit, s: Seq<Hit>) -> Seq<Hit>
    decreases s.len(),
{
    if s.len() == 0 {
        seq![h]
    } else if ranks_before(h, s[0]) {
        seq![h] + s
    } else {
        seq![s[0]] + insert_hit(h, s.drop_first())
    }
}

/// The hits in ranking order: highest score first, ties by ascending
/// document-id.
pub open spec fn ranked(s: Seq<Hit>) -> Seq<Hit>
    decreases s.len(),
{
    if s.len() == 0 {
        Seq::empty()
    } else {
        insert_hit(s.last(), ranked(s.drop_last()))
    }
}

/// The whole result list a search yields before the limit is applied.
pub open spec fn spec_results(inv: Seq<Seq<TermModel>>, q: Seq<AtomModel>, n: int) -> Seq<Hit> {
    ranked(matches_upto(inv, q, n, n))
}

fn sat_mul_idf(tf: usize, df: usize, n: usize) -> (r: u64)
    ensures
        r == term_weight(tf as int, df as int, n as int),
{
    let tfu: u128 = tf as u128;
    let num: u128 = 1000u128 * (n as u128 + 1);
    let idf: u128 = num / (df as u128 + 1);
    proof {
        assert(num == 1000 * (n as int + 1));
        assert(idf == idf_val(n as int, df as int));
        assert(idf >= 0);
    }
    if tfu == 0 {
        assert(term_weight(0, df as int, n as int) == sat64(0));
        return 0;
    }
    let cap: u128 = u64::MAX as u128 / tfu;
    if idf > cap {
        proof {
            let a = tfu as int;
            let b = idf as int;
            let m = u64::MAX as int;
            lemma_fundamental_div_mod(m, a);
            assert(a * b > m) by (nonlinear_arith)
                requires
                    m == a * (m / a) + m % a,
                    0 <= m % a < a,
                    b >= m / a + 1,
                    a > 0,
            ;
        }
        return u64::MAX;
    }
    proof {
        let a = tfu as int;
        let b = idf as int;
        let m = u64::MAX as int;
        lemma_fundamental_div_mod(m, a);
        assert(a * b <= m) by (nonlinear_arith)
            requires
                m == a * (m / a) + m % a,
                0 <= m % a < a,
                0 <= b <= m / a,
                a > 0,
        ;
    }
    let p: u128 = tfu * idf;
    p as u64
}

impl Index {
    /// The term frequency of `(field, term)` in document `d`: how many
    /// positions the posting holds.
    fn term_freq(&self, atom: &QueryAtom, d: usize) -> (tf: usize)
        requires
            atom.field < self.inv_model().len(),
        ensures
            tf == atom_tf(self.inv_model(), atom.model(), d),
    {
        let ghost ps = find_term(self.inv_model()[atom.field as int], atom.term@);
        match self.term_postings(atom.field, &atom.term) {
            None => {
                assert(positions_of(ps, d) =~= Seq::<usize>::empty());
                0
            },
            Some(postings) => {
                let n = postings.len();
                let mut i: usize = 0;
                while i < n
                    invariant
                        i <= n,
                        n == postings@.len(),
                        crate::store::posting_models(postings@) == ps,
                        forall|j: int| 0 <= j < i ==> ps[j].doc != d,
                    decreases n - i,
                {
                    if postings[i].doc == d {
                        proof {
                            crate::store::lemma_positions_at(ps, d, i as int);
                        }
                        return postings[i].positions.len();
                    }
                    i = i + 1;
                }
                proof {
                    crate::store::lemma_positions_none(ps, d);
                }
                0
            },
        }
    }

    fn score_doc(&self, query: &Vec<QueryAtom>, d: usize) -> (s: u64)
        requires
            forall|k: int|
                0 <= k < query@.len() ==> (#[trigger] query@[k]).field < self.inv_model().len(),
        ensures
            s == score_of(
                self.inv_model(),
                atom_models(query@),
                self.docs_model().len() as int,
                d,
            ),
    {
        let ghost qm = atom_models(query@);
        let ghost n = self.docs_model().len() as int;
        let ndocs = self.docs.len();
        let nq = query.len();
        let mut acc: u64 = 0;
        let mut k: usize = 0;
        while k < nq
            invariant
                k <= nq,
                nq == query@.len(),
                qm == atom_models(query@),
                n == self.docs_model().len() as int,
                ndocs == self.docs@.len(),
                forall|k2: int| 0 <= k2 < query@.len() ==> (#[trigger] query@[k2]).field
                    < self.inv_model().len(),
                acc == score_upto(self.inv_model(), qm, n, d, k as int),
            decreases nq - k,
        {
            let atom = &query[k];
            let tf = self.term_freq(atom, d);
            let df = match self.term_postings(atom.field, &atom.term) {
                Some(ps) => ps.len(),
                None => 0,
            };
            proof {
                assert(df == atom_df(self.inv_model(), qm[k as int]));
                assert(tf == atom_tf(self.inv_model(), qm[k as int], d));
            }
            let c = sat_mul_idf(tf, df, ndocs);
            acc = acc.saturating_add(c);
            k = k + 1;
        }
        acc
    }
}

fn insert_ranked(v: &mut Vec<Hit>, h: Hit)
    ensures
        final(v)@ == insert_hit(h, old(v)@),
{
    let n = v.len();
    let mut p: usize = 0;
    while p < n
        invariant
            p <= n,
            n == v@.len(),
            v@ == old(v)@,
            forall|j: int| 0 <= j < p ==> !ranks_before(h, v@[j]),
        decreases n - p,
    {
        let before = h.score > v[p].score || (h.score == v[p].score && h.doc < v[p].doc);
        if before {
            break ;
        }
        p = p + 1;
    }
    assert(p < n ==> ranks_before(h, v@[p as int]));
    v.insert(p, h);
    proof {
        lemma_insert_hit_at(old(v)@, h, p as int);
        v@.insert_ensures(p as int, h);
        assert(v@ == old(v)@.insert(p as int, h));
        assert(v@ =~= old(v)@.take(p as int).push(h) + old(v)@.skip(p as int));
    }
}

proof fn lemma_insert_hit_at(s: Seq<Hit>, h: Hit, p: int)
    requires
        0 <= p <= s.len(),
        forall|j: int| 0 <= j < p ==> !ranks_before(h, s[j]),
        p < s.len() ==> ranks_before(h, s[p]),
    ensures
        insert_hit(h, s) == s.take(p).push(h) + s.skip(p),
    decreases p,
{
    if p == 0 {
        if s.len() == 0 {
            assert(insert_hit(h, s) =~= s.take(0).push(h) + s.skip(0));
        } else {
            assert(insert_hit(h, s) == seq![h] + s);
            assert(seq![h] + s =~= s.take(0).push(h) + s.skip(0));
        }
    } else {
        assert(!ranks_before(h, s[0]));
        assert(forall|j: int| 0 <= j < s.len() - 1 ==> s.drop_first()[j] == s[j + 1]);
        lemma_insert_hit_at(s.drop_first(), h, p - 1);
        assert(insert_hit(h, s) == seq![s[0]] + insert_hit(h, s.drop_first()));
        assert(seq![s[0]] + (s.drop_first().take(p - 1).push(h) + s.drop_first().skip(p - 1))
            =~= s.take(p).push(h) + s.skip(p));
    }
}

/// Searches the index: ranks every document with a score-contributing term
/// and returns the top `limit` in descending score order, ties by ascending
/// document-id; fewer than `limit` matches yield all of them, and none is an
/// empty result.
pub fn search(index: &Index, query: &Vec<QueryAtom>, limit: usize) -> (r: Vec<Hit>)
    requires
        forall|k: int|
            0 <= k < query@.len() ==> (#[trigger] query@[k]).field < index.inv_model().len(),
    ensures
        ({
            let full = spec_results(
                index.inv_model(),
                atom_models(query@),
                index.docs_model().len() as int,
            );
            r@ == full.take(if limit as int <= full.len() {
                limit as int
            } else {
                full.len() as int
            })
        }),
{
    let ghost qm = atom_models(query@);
    let ghost n = index.docs_model().len() as int;
    let ndocs = index.docs.len();
    let mut hits: Vec<Hit> = Vec::new();
    let mut d: usize = 0;
    while d < ndocs
        invariant
            d <= ndocs,
            ndocs == index.docs@.len(),
            qm == atom_models(query@),
            forall|k: int| 0 <= k < query@.len() ==> (#[trigger] query@[k]).field
                < index.inv_model().len(),
            hits@ == matches_upto(index.inv_model(), qm, ndocs as int, d as int),
        decreases ndocs - d,
    {
        let s = index.score_doc(query, d);
        if s > 0 {
            hits.push(Hit { doc: d, score: s });
        }
        d = d + 1;
    }
    let mut out: Vec<Hit> = Vec::new();
    let nh = hits.len();
    let mut k: usize = 0;
    while k < nh
        invariant
            k <= nh,
            nh == hits@.len(),
            out@ == ranked(hits@.take(k as int)),
        decreases nh - k,
    {
        proof {
            assert(hits@.take(k as int + 1).drop_last() =~= hits@.take(k as int));
            assert(hits@.take(k as int + 1).last() == hits@[k as int]);
        }
        insert_ranked(&mut out, hits[k]);
        k = k + 1;
    }
    proof {
        assert(hits@.take(nh as int) =~= hits@);
    }
    if out.len() > limit {
        out.truncate(limit);
        proof {
            assert(out@ =~= spec_results(index.inv_model(), qm, ndocs as int).take(limit as int));
        }
    } else {
        proof {
            let full = spec_results(index.inv_model(), qm, ndocs as int);
            assert(out@ =~= full.take(full.len() as int));
        }
    }
    out
}

proof fn lemma_parse_upto_ok(
    schema: Seq<FieldModel>,
    targets: Seq<usize>,
    clauses: Seq<Seq<char>>,
    k: int,
)
    requires
        0 <= k <= clauses.len(),
        forall|j: int| 0 <= j < k ==> clause_result(schema, targets, #[trigger] clauses[j]) is Ok,
    ensures
        parse_upto(schema, targets, clauses, k) is Ok,
    decreases k,
{
    if k > 0 {
        lemma_parse_upto_ok(schema, targets, clauses, k - 1);
    }
}

/// A query whose first offending clause names a field absent from the schema
/// fails with exactly that clause's `UnknownField` error, and yields no atoms.
pub proof fn lemma_unknown_field_rejected(
    schema: Seq<FieldModel>,
    targets: Seq<usize>,
    s: Seq<char>,
    k: int,
)
    requires
        0 <= k < split_ws(s).len(),
        forall|j: int|
            0 <= j < k ==> clause_result(schema, targets, #[trigger] split_ws(s)[j]) is Ok,
        clause_result(schema, targets, split_ws(s)[k]) == Err::<Seq<AtomModel>, QueryError>(
            QueryError::UnknownField,
        ),
    ensures
        spec_parse(schema, targets, s) == Err::<Seq<AtomModel>, QueryError>(
            QueryError::UnknownField,
        ),
{
    let clauses = split_ws(s);
    lemma_parse_upto_ok(schema, targets, clauses, k);
    assert(parse_upto(schema, targets, clauses, k + 1) == Err::<Seq<AtomModel>, QueryError>(
        QueryError::UnknownField,
    ));
    lemma_parse_err_stable(schema, targets, clauses, k, clauses.len() as int);
}

/// Repeated identical queries against an unchanged index return identical
/// ordered results.
pub proof fn lemma_search_deterministic(
    inv: Seq<Seq<TermModel>>,
    q: Seq<AtomModel>,
    n: int,
    r1: Seq<Hit>,
    r2: Seq<Hit>,
)
    requires
        r1 == spec_results(inv, q, n),
        r2 == spec_results(inv, q, n),
    ensures
        r1 == r2,
{
}

/// The hits of a ranked list, in ranking order: each pair of result positions
/// is ordered by descending score, ties by ascending document-id.
pub open spec fn sorted_hits(s: Seq<Hit>) -> bool {
    forall|i: int, j: int| 0 <= i < j < s.len() ==> ranks_before(s[i], s[j])
}

/// No two hits name the same document.
pub open spec fn distinct_docs(s: Seq<Hit>) -> bool {
    forall|i: int, j: int| 0 <= i < j < s.len() ==> s[i].doc != s[j].doc
}

proof fn lemma_insert_hit_sorted(s: Seq<Hit>, h: Hit)
    requires
        sorted_hits(s),
        forall|i: int| 0 <= i < s.len() ==> s[i].doc != h.doc,
    ensures
        sorted_hits(insert_hit(h, s)),
        insert_hit(h, s).len() == s.len() + 1,
        insert_hit(h, s).contains(h),
        forall|x: Hit| s.contains(x) ==> insert_hit(h, s).contains(x),
        forall|i: int| 0 <= i < insert_hit(h, s).len() ==> (#[trigger] insert_hit(h, s)[i] == h
            || s.contains(insert_hit(h, s)[i])),
    decreases s.len(),
{
    let r = insert_hit(h, s);
    if s.len() == 0 {
        assert(r =~= seq![h]);
        assert(r[0] == h);
    } else if ranks_before(h, s[0]) {
        assert(r == seq![h] + s);
        assert forall|i: int, j: int| 0 <= i < j < r.len() implies ranks_before(r[i], r[j]) by {
            if i == 0 {
                if j > 1 {
                    assert(ranks_before(s[0], s[j - 1]));
                    lemma_ranks_before_trans(h, s[0], s[j - 1]);
                }
            }
        }
        assert(r[0] == h);
        assert forall|x: Hit| s.contains(x) implies r.contains(x) by {
            let j = choose|j: int| 0 <= j < s.len() && s[j] == x;
            assert(r[j + 1] == x);
        }
        assert forall|i: int| 0 <= i < r.len() implies (#[trigger] r[i] == h || s.contains(
            r[i],
        )) by {
            if i > 0 {
                assert(r[i] == s[i - 1]);
            }
        }
    } else {
        let sd = s.drop_first();
        assert(forall|j: int| 0 <= j < sd.len() ==> sd[j] == s[j + 1]);
        lemma_insert_hit_sorted(sd, h);
        let rd = insert_hit(h, sd);
        assert(r == seq![s[0]] + rd);
        // On distinct documents the ranking order is total, so the head ranks
        // before the inserted hit.
        assert(s[0].doc != h.doc);
        assert(ranks_before(s[0], h));
        assert forall|i: int, j: int| 0 <= i < j < r.len() implies ranks_before(r[i], r[j]) by {
            if i == 0 {
                assert(r[j] == rd[j - 1]);
                if rd[j - 1] == h {
                    assert(ranks_before(s[0], h));
                } else {
                    assert(sd.contains(rd[j - 1]));
                    let jj = choose|jj: int| 0 <= jj < sd.len() && sd[jj] == rd[j - 1];
                    assert(ranks_before(s[0], s[jj + 1]));
                }
            } else {
                assert(r[i] == rd[i - 1] && r[j] == rd[j - 1]);
            }
        }
        assert(rd.contains(h));
        assert forall|x: Hit| s.contains(x) implies r.contains(x) by {
            let j = choose|j: int| 0 <= j < s.len() && s[j] == x;
            if j == 0 {
                assert(r[0] == x);
            } else {
                assert(sd[j - 1] == x);
                assert(sd.contains(x));
                assert(rd.contains(x));
                let jj = choose|jj: int| 0 <= jj < rd.len() && rd[jj] == x;
                assert(r[jj + 1] == x);
            }
        }
        let jh = choose|jh: int| 0 <= jh < rd.len() && rd[jh] == h;
        assert(r[jh + 1] == h);
        assert(r.contains(h));
        assert forall|i: int| 0 <= i < r.len() implies (#[trigger] r[i] == h || s.contains(
            r[i],
        )) by {
            if i == 0 {
                assert(r[0] == s[0]);
            } else {
                assert(r[i] == rd[i - 1]);
                if rd[i - 1] != h {
                    assert(sd.contains(rd[i - 1]));
                    let jj = choose|jj: int| 0 <= jj < sd.len() && sd[jj] == rd[i - 1];
                    assert(r[i] == s[jj + 1]);
                }
            }
        }
    }
}

proof fn lemma_ranks_before_trans(a: Hit, b: Hit, c: Hit)
    requires
        ranks_before(a, b),
        ranks_before(b, c),
    ensures
        ranks_before(a, c),
{
}

/// A matched occurrence contributes a positive weight: the inverse document
/// frequency never rounds to zero.
proof fn lemma_weight_positive(inv: Seq<Seq<TermModel>>, a: AtomModel, n: int, d: usize)
    requires
        0 <= a.field < inv.len(),
        terms_wf(inv[a.field as int], n),
        0 <= n,
        term_doc_positions(inv, a.field as int, a.term, d).len() > 0,
    ensures
        term_weight(atom_tf(inv, a, d), atom_df(inv, a), n) > 0,
{
    let tf = atom_tf(inv, a, d);
    let df = atom_df(inv, a);
    lemma_find_term_wf(inv[a.field as int], a.term, n);
    lemma_postings_len_bound(find_term(inv[a.field as int], a.term), n);
    assert(df <= n);
    vstd::arithmetic::div_mod::lemma_div_non_zero(1000 * (n + 1), df + 1);
    assert(idf_val(n, df) > 0);
    assert(tf * idf_val(n, df) >= 1) by (nonlinear_arith)
        requires
            tf >= 1,
            idf_val(n, df) >= 1,
    ;
}

/// One positive contribution keeps the whole saturating score positive.
proof fn lemma_score_pos(inv: Seq<Seq<TermModel>>, q: Seq<AtomModel>, n: int, d: usize, k: int, j: int)
    requires
        0 <= k < j <= q.len(),
        term_weight(atom_tf(inv, q[k], d), atom_df(inv, q[k]), n) > 0,
    ensures
        score_upto(inv, q, n, d, j) > 0,
    decreases j,
{
    if j == k + 1 {
        assert(score_upto(inv, q, n, d, j) == sat64(
            score_upto(inv, q, n, d, k) + term_weight(atom_tf(inv, q[k], d), atom_df(inv, q[k]), n),
        ));
    } else {
        lemma_score_pos(inv, q, n, d, k, j - 1);
    }
}

/// A scoring document below the bound stands in the match list.
proof fn lemma_matches_contain(inv: Seq<Seq<TermModel>>, q: Seq<AtomModel>, n: int, b: int, d: usize)
    requires
        score_of(inv, q, n, d) > 0,
        (d as int) < b <= usize::MAX,
    ensures
        exists|i: int|
            0 <= i < matches_upto(inv, q, n, b).len() && (#[trigger] matches_upto(inv, q, n, b)[i])
                == (Hit { doc: d, score: score_of(inv, q, n, d) }),
    decreases b,
{
    let full = matches_upto(inv, q, n, b);
    if b == d as int + 1 {
        let rest = matches_upto(inv, q, n, b - 1);
        assert((b - 1) as usize == d);
        assert(full == rest.push(Hit { doc: d, score: score_of(inv, q, n, d) }));
        assert(full[rest.len() as int] == (Hit { doc: d, score: score_of(inv, q, n, d) }));
    } else {
        lemma_matches_contain(inv, q, n, b - 1, d);
        let rest = matches_upto(inv, q, n, b - 1);
        let i = choose|i: int|
            0 <= i < rest.len() && rest[i] == (Hit { doc: d, score: score_of(inv, q, n, d) });
        assert(full[i] == rest[i]);
    }
}

/// Every indexed occurrence is retrieved: a document holding a query atom's
/// term in that atom's field scores above zero and stands among the ranked
/// results, so a search whose limit covers the matches returns its id.
pub proof fn lemma_indexed_term_retrieved(
    inv: Seq<Seq<TermModel>>,
    q: Seq<AtomModel>,
    n: int,
    k: int,
    d: usize,
)
    requires
        0 <= k < q.len(),
        0 <= q[k].field < inv.len(),
        forall|f: int| 0 <= f < inv.len() ==> terms_wf(#[trigger] inv[f], n),
        (d as int) < n <= usize::MAX,
        term_doc_positions(inv, q[k].field as int, q[k].term, d).len() > 0,
    ensures
        score_of(inv, q, n, d) > 0,
        exists|i: int|
            0 <= i < spec_results(inv, q, n).len() && (#[trigger] spec_results(inv, q, n)[i]).doc
                == d,
{
    lemma_weight_positive(inv, q[k], n, d);
    lemma_score_pos(inv, q, n, d, k, q.len() as int);
    lemma_matches_contain(inv, q, n, n, d);
    let ms = matches_upto(inv, q, n, n);
    let h = Hit { doc: d, score: score_of(inv, q, n, d) };
    lemma_matches_distinct_bounded(inv, q, n, n);
    lemma_ranked_sorted(ms);
    let i = choose|i: int| 0 <= i < ms.len() && ms[i] == h;
    assert(ms.contains(h));
    assert(spec_results(inv, q, n).contains(h));
    let i2 = choose|i2: int| 0 <= i2 < spec_results(inv, q, n).len() && spec_results(inv, q, n)[i2] == h;
    assert(spec_results(inv, q, n)[i2].doc == d);
}

/// Two documents with equal score stand in ascending document-id order, and
/// scores never ascend: the ranking order holds of every result pair.
pub proof fn lemma_results_ordered(inv: Seq<Seq<TermModel>>, q: Seq<AtomModel>, n: int)
    requires
        n <= usize::MAX,
    ensures
        sorted_hits(spec_results(inv, q, n)),
{
    lemma_matches_distinct_bounded(inv, q, n, n);
    lemma_ranked_sorted(matches_upto(inv, q, n, n));
}

/// The match list holds distinct documents below the bound.
proof fn lemma_matches_distinct_bounded(inv: Seq<Seq<TermModel>>, q: Seq<AtomModel>, n: int, b: int)
    requires
        b <= usize::MAX,
    ensures
        forall|i: int|
            0 <= i < matches_upto(inv, q, n, b).len() ==> (#[trigger] matches_upto(
                inv,
                q,
                n,
                b,
            )[i]).doc < b,
        distinct_docs(matches_upto(inv, q, n, b)),
    decreases b,
{
    if b > 0 {
        lemma_matches_distinct_bounded(inv, q, n, b - 1);
        let rest = matches_upto(inv, q, n, b - 1);
        let full = matches_upto(inv, q, n, b);
        assert forall|i: int| 0 <= i < full.len() implies (#[trigger] full[i]).doc < b by {
            if i < rest.len() {
                assert(full[i] == rest[i]);
            } else {
                assert(full[i].doc == (b - 1) as usize);
            }
        }
        assert forall|i: int, j: int| 0 <= i < j < full.len() implies full[i].doc
            != full[j].doc by {
            if j < rest.len() {
                assert(full[i] == rest[i] && full[j] == rest[j]);
            } else if i < rest.len() {
                assert(full[i] == rest[i]);
                assert(rest[i].doc < b - 1);
            }
        }
    }
}

/// Ranking reorders the matches and loses none of them.
proof fn lemma_ranked_sorted(s: Seq<Hit>)
    requires
        distinct_docs(s),
    ensures
        sorted_hits(ranked(s)),
        ranked(s).len() == s.len(),
        forall|x: Hit| s.contains(x) ==> ranked(s).contains(x),
        forall|i: int| 0 <= i < ranked(s).len() ==> s.contains(#[trigger] ranked(s)[i]),
    decreases s.len(),
{
    if s.len() > 0 {
        let sd = s.drop_last();
        assert(forall|j: int| 0 <= j < sd.len() ==> sd[j] == s[j]);
        lemma_ranked_sorted(sd);
        let rd = ranked(sd);
        assert forall|i: int| 0 <= i < rd.len() implies rd[i].doc != s.last().doc by {
            assert(sd.contains(rd[i]));
            let j = choose|j: int| 0 <= j < sd.len() && sd[j] == rd[i];
            assert(s[j].doc != s[s.len() - 1].doc);
        }
        lemma_insert_hit_sorted(rd, s.last());
        assert forall|x: Hit| s.contains(x) implies ranked(s).contains(x) by {
            let j = choose|j: int| 0 <= j < s.len() && s[j] == x;
            if j < s.len() - 1 {
                assert(sd[j] == x);
                assert(sd.contains(x));
                assert(rd.contains(x));
            } else {
                assert(x == s.last());
            }
        }
        assert forall|i: int| 0 <= i < ranked(s).len() implies s.contains(
            #[trigger] ranked(s)[i],
        ) by {
            if ranked(s)[i] == s.last() {
                assert(s[s.len() - 1] == s.last());
            } else {
                assert(rd.contains(ranked(s)[i]));
                let jj = choose|jj: int| 0 <= jj < rd.len() && rd[jj] == ranked(s)[i];
                assert(sd.contains(rd[jj]));
                let j2 = choose|j2: int| 0 <= j2 < sd.len() && sd[j2] == rd[jj];
                assert(s[j2] == ranked(s)[i]);
            }
        }
    }
}

} // verus!

