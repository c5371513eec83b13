//! The durable layout of an index: a flat sequence of 64-bit words, starting
//! with a magic marker, holding the schema, the per-field term mappings and
//! the stored documents. `encode` lays a committed index out, word for word as
//! `enc_index` states; `decode` returns exactly what `sdec_index` says an
//! image holds, and fails with `NotFound` where that is nothing. Decoding
//! inverts encoding (`lemma_image_round_trip` with `lemma_index_image_fits`):
//! the image a commit wrote reads back as the very schema, postings and stored
//! documents it was written with, so re-opening never renumbers document-ids.

use vstd::prelude::*;
use crate::schema::{Schema, Field, FieldModel, FieldType, IndexPolicy, field_models};
use crate::store::{
    Index, Value, ValueModel, DocField, DocFieldModel, PostingEntry, PostingModel, TermPostings,
    TermModel, doc_models, posting_models, term_models, inverted_models, stored_models,
};
use crate::tokenizer::ScriptMode;

verus! {

/// The errors of opening a storage image.
#[derive(Clone, Copy, PartialEq, Eq, Structural, Debug)]
pub enum StorageError {
    /// The words hold no valid index: never committed, or damaged.
    NotFound,
    /// The image is valid but its schema differs from the one supplied.
    SchemaMismatch,
}

/// The marker every index image starts with.
pub const MAGIC: u64 = 0x1d9cb3;

pub open spec fn enc_chars(s: Seq<char>) -> Seq<u64> {
    seq![s.len() as u64] + s.map_values(|c: char| (c as u32) as u64)
}

pub open spec fn ftype_tag(t: FieldType) -> u64 {
    match t {
        FieldType::Text => 0,
        FieldType::UInt => 1,
    }
}

pub open spec fn policy_tag(p: IndexPolicy) -> u64 {
    match p {
        IndexPolicy::NotIndexed => 0,
        IndexPolicy::Positions => 1,
        IndexPolicy::Exact => 2,
    }
}

pub open spec fn mode_tag(m: ScriptMode) -> u64 {
    match m {
        ScriptMode::Cjk => 0,
        ScriptMode::Unicode => 1,
    }
}

pub open spec fn enc_field(f: FieldModel) -> Seq<u64> {
    enc_chars(f.name) + seq![
        ftype_tag(f.ftype),
        policy_tag(f.policy),
        if f.stored {
            1u64
        } else {
            0u64
        },
        mode_tag(f.mode),
    ]
}

pub open spec fn enc_fields(fs: Seq<FieldModel>) -> Seq<u64>
    decreases fs.len(),
{
    if fs.len() == 0 {
        Seq::empty()
    } else {
        enc_field(fs[0]) + enc_fields(fs.drop_first())
    }
}

pub open spec fn enc_positions(ps: Seq<usize>) -> Seq<u64> {
    seq![ps.len() as u64] + ps.map_values(|p: usize| p as u64)
}

pub open spec fn enc_posting(p: PostingModel) -> Seq<u64> {
    seq![p.doc as u64] + enc_positions(p.positions)
}

pub open spec fn enc_postings(ps: Seq<PostingModel>) -> Seq<u64>
    decreases ps.len(),
{
    if ps.len() == 0 {
        Seq::empty()
    } else {
        enc_posting(ps[0]) + enc_postings(ps.drop_first())
    }
}

pub open spec fn enc_term(t: TermModel) -> Seq<u64> {
    enc_chars(t.term) + seq![t.postings.len() as u64] + enc_postings(t.postings)
}

pub open spec fn enc_terms(ts: Seq<TermModel>) -> Seq<u64>
    decreases ts.len(),
{
    if ts.len() == 0 {
        Seq::empty()
    } else {
        enc_term(ts[0]) + enc_terms(ts.drop_first())
    }
}

pub open spec fn enc_inverted(inv: Seq<Seq<TermModel>>) -> Seq<u64>
    decreases inv.len(),
{
    if inv.len() == 0 {
        Seq::empty()
    } else {
        seq![inv[0].len() as u64] + enc_terms(inv[0]) + enc_inverted(inv.drop_first())
    }
}

pub open spec fn enc_value(v: ValueModel) -> Seq<u64> {
    match v {
        ValueModel::Text(t) => seq![0u64] + enc_chars(t),
        ValueModel::UInt(x) => seq![1u64, x],
    }
}

pub open spec fn enc_pair(p: DocFieldModel) -> Seq<u64> {
    seq![p.field as u64] + enc_value(p.value)
}

pub open spec fn enc_pairs(ps: Seq<DocFieldModel>) -> Seq<u64>
    decreases ps.len(),
{
    if ps.len() == 0 {
        Seq::empty()
    } else {
        enc_pair(ps[0]) + enc_pairs(ps.drop_first())
    }
}

pub open spec fn enc_docs(ds: Seq<Seq<DocFieldModel>>) -> Seq<u64>
    decreases ds.len(),
{
    if ds.len() == 0 {
        Seq::empty()
    } else {
        seq![ds[0].len() as u64] + enc_pairs(ds[0]) + enc_docs(ds.drop_first())
    }
}

/// The whole image of an index with the given schema, term mappings and
/// stored documents.
pub open spec fn enc_index(
    fs: Seq<FieldModel>,
    inv: Seq<Seq<TermModel>>,
    ds: Seq<Seq<DocFieldModel>>,
) -> Seq<u64> {
    seq![MAGIC, fs.len() as u64] + enc_fields(fs) + enc_inverted(inv) + seq![ds.len() as u64]
        + enc_docs(ds)
}

fn push_chars(out: &mut Vec<u64>, s: &Vec<char>)
    ensures
        final(out)@ == old(out)@ + enc_chars(s@),
{
    let ghost base = out@;
    out.push(s.len() as u64);
    let mut i: usize = 0;
    while i < s.len()
        invariant
            i <= s@.len(),
            out@ == base + seq![s@.len() as u64] + s@.take(i as int).map_values(
                |c: char| (c as u32) as u64,
            ),
        decreases s@.len() - i,
    {
        let ghost pre = out@;
        out.push((s[i] as u32) as u64);
        proof {
            assert(s@.take(i as int + 1).map_values(|c: char| (c as u32) as u64) =~= s@.take(
                i as int,
            ).map_values(|c: char| (c as u32) as u64).push((s@[i as int] as u32) as u64));
            assert(out@ =~= base + seq![s@.len() as u64] + s@.take(i as int + 1).map_values(
                |c: char| (c as u32) as u64,
            ));
        }
        i = i + 1;
    }
    proof {
        assert(s@.take(s@.len() as int) =~= s@);
        assert(out@ =~= base + enc_chars(s@));
    }
}

fn push_positions(out: &mut Vec<u64>, ps: &Vec<usize>)
    ensures
        final(out)@ == old(out)@ + enc_positions(ps@),
{
    let ghost base = out@;
    out.push(ps.len() as u64);
    let mut i: usize = 0;
    while i < ps.len()
        invariant
            i <= ps@.len(),
            out@ == base + seq![ps@.len() as u64] + ps@.take(i as int).map_values(
                |p: usize| p as u64,
            ),
        decreases ps@.len() - i,
    {
        out.push(ps[i] as u64);
        proof {
            assert(ps@.take(i as int + 1).map_values(|p: usize| p as u64) =~= ps@.take(
                i as int,
            ).map_values(|p: usize| p as u64).push(ps@[i as int] as u64));
            assert(out@ =~= base + seq![ps@.len() as u64] + ps@.take(i as int + 1).map_values(
                |p: usize| p as u64,
            ));
        }
        i = i + 1;
    }
    proof {
        assert(ps@.take(ps@.len() as int) =~= ps@);
        assert(out@ =~= base + enc_positions(ps@));
    }
}

/// Lays a committed index out as its durable word image.
#[verifier::rlimit(100)]
pub fn encode(ix: &Index) -> (out: Vec<u64>)
    ensures
        out@ == enc_index(ix.schema.spec_fields(), ix.inv_model(), ix.docs_model()),
{
    let ghost fs = ix.schema.spec_fields();
    let mut out: Vec<u64> = Vec::new();
    out.push(MAGIC);
    out.push(ix.schema.fields.len() as u64);
    proof {
        assert(out@ =~= seq![MAGIC, fs.len() as u64]);
    }
    let mut i: usize = 0;
    while i < ix.schema.fields.len()
        invariant
            i <= ix.schema.fields@.len(),
            fs == ix.schema.spec_fields(),
            out@ == seq![MAGIC, fs.len() as u64] + enc_fields(fs.take(i as int)),
        decreases ix.schema.fields@.len() - i,
    {
        let f = &ix.schema.fields[i];
        let ghost pre = out@;
        push_chars(&mut out, &f.name);
        let tt: u64 = match f.ftype {
            FieldType::Text => 0,
            FieldType::UInt => 1,
        };
        out.push(tt);
        let pt: u64 = match f.policy {
            IndexPolicy::NotIndexed => 0,
            IndexPolicy::Positions => 1,
            IndexPolicy::Exact => 2,
        };
        out.push(pt);
        out.push(if f.stored {
            1
        } else {
            0
        });
        let mt: u64 = match f.mode {
            ScriptMode::Cjk => 0,
            ScriptMode::Unicode => 1,
        };
        out.push(mt);
        proof {
            assert(out@ =~= pre + enc_field(fs[i as int]));
            lemma_enc_list_snoc_fields(fs, i as int);
            assert(out@ =~= seq![MAGIC, fs.len() as u64] + enc_fields(fs.take(i as int + 1)));
        }
        i = i + 1;
    }
    proof {
        assert(fs.take(fs.len() as int) =~= fs);
    }
    let ghost inv = ix.inv_model();
    let ghost header = seq![MAGIC, fs.len() as u64] + enc_fields(fs);
    let mut fi: usize = 0;
    while fi < ix.inverted.len()
        invariant
            fi <= ix.inverted@.len(),
            fs == ix.schema.spec_fields(),
            inv == ix.inv_model(),
            header == seq![MAGIC, fs.len() as u64] + enc_fields(fs),
            out@ == header + enc_inverted(inv.take(fi as int)),
        decreases ix.inverted@.len() - fi,
    {
        let fvec = &ix.inverted[fi];
        let ghost ts = inv[fi as int];
        let ghost pre = out@;
        out.push(fvec.len() as u64);
        let mut ti: usize = 0;
        while ti < fvec.len()
            invariant
                ti <= fvec@.len(),
                ts == term_models(fvec@),
                out@ == pre + seq![ts.len() as u64] + enc_terms(ts.take(ti as int)),
            decreases fvec@.len() - ti,
        {
            let ghost pret = out@;
            let t = &fvec[ti];
            push_chars(&mut out, &t.term);
            out.push(t.postings.len() as u64);
            let ghost ps = ts[ti as int].postings;
            let ghost prep = out@;
            let mut pi: usize = 0;
            while pi < t.postings.len()
                invariant
                    pi <= t.postings@.len(),
                    ps == posting_models(t.postings@),
                    out@ == prep + enc_postings(ps.take(pi as int)),
                decreases t.postings@.len() - pi,
            {
                let ghost prepp = out@;
                out.push(t.postings[pi].doc as u64);
                push_positions(&mut out, &t.postings[pi].positions);
                proof {
                    assert(out@ =~= prepp + enc_posting(ps[pi as int]));
                    lemma_enc_list_snoc_postings(ps, pi as int);
                    assert(out@ =~= prep + enc_postings(ps.take(pi as int + 1)));
                }
                pi = pi + 1;
            }
            proof {
                assert(ps.take(ps.len() as int) =~= ps);
                assert(out@ =~= pret + enc_term(ts[ti as int]));
                lemma_enc_list_snoc_terms(ts, ti as int);
                assert(out@ =~= pre + seq![ts.len() as u64] + enc_terms(ts.take(ti as int + 1)));
            }
            ti = ti + 1;
        }
        proof {
            assert(ts.take(ts.len() as int) =~= ts);
            lemma_enc_list_snoc_inverted(inv, fi as int);
            assert(out@ =~= header + enc_inverted(inv.take(fi as int + 1)));
        }
        fi = fi + 1;
    }
    proof {
        assert(inv.take(inv.len() as int) =~= inv);
    }
    let ghost ds = ix.docs_model();
    let ghost header2 = header + enc_inverted(inv);
    out.push(ix.docs.len() as u64);
    let mut di: usize = 0;
    while di < ix.docs.len()
        invariant
            di <= ix.docs@.len(),
            ds == ix.docs_model(),
            out@ == header2 + seq![ds.len() as u64] + enc_docs(ds.take(di as int)),
        decreases ix.docs@.len() - di,
    {
        let dvec = &ix.docs[di];
        let ghost pairs = ds[di as int];
        let ghost pre = out@;
        out.push(dvec.len() as u64);
        let mut ki: usize = 0;
        while ki < dvec.len()
            invariant
                ki <= dvec@.len(),
                pairs == doc_models(dvec@),
                out@ == pre + seq![pairs.len() as u64] + enc_pairs(pairs.take(ki as int)),
            decreases dvec@.len() - ki,
        {
            let ghost prek = out@;
            out.push(dvec[ki].field as u64);
            match &dvec[ki].value {
                Value::Text(t) => {
                    out.push(0);
                    push_chars(&mut out, t);
                },
                Value::UInt(x) => {
                    out.push(1);
                    out.push(*x);
                },
            }
            proof {
                assert(out@ =~= prek + enc_pair(pairs[ki as int]));
                lemma_enc_list_snoc_pairs(pairs, ki as int);
                assert(out@ =~= pre + seq![pairs.len() as u64] + enc_pairs(
                    pairs.take(ki as int + 1),
                ));
            }
            ki = ki + 1;
        }
        proof {
            assert(pairs.take(pairs.len() as int) =~= pairs);
            lemma_enc_list_snoc_docs(ds, di as int);
            assert(out@ =~= header2 + seq![ds.len() as u64] + enc_docs(ds.take(di as int + 1)));
        }
        di = di + 1;
    }
    proof {
        assert(ds.take(ds.len() as int) =~= ds);
        assert(out@ =~= enc_index(fs, inv, ds));
    }
    out
}

/// A word that stands for one character: a Unicode scalar value.
pub open spec fn char_word_ok(x: u64) -> bool {
    x <= u32::MAX && vstd::utf8::is_scalar(x as u32)
}

pub open spec fn char_of_word(x: u64) -> char {
    (x as u32) as char
}

/// What reading `n` character words from position `p` yields, if anything.
pub open spec fn sdec_chars_n(w: Seq<u64>, p: int, n: int) -> Option<(Seq<char>, int)>
    decreases n,
{
    if n <= 0 {
        Some((Seq::empty(), p))
    } else {
        match sdec_chars_n(w, p, n - 1) {
            None => None,
            Some((s, p1)) => {
                if 0 <= p1 < w.len() && char_word_ok(w[p1]) {
                    Some((s.push(char_of_word(w[p1])), p1 + 1))
                } else {
                    None
                }
            },
        }
    }
}

/// What reading a length-prefixed character sequence from `p` yields.
pub open spec fn sdec_chars(w: Seq<u64>, p: int) -> Option<(Seq<char>, int)> {
    if !(0 <= p < w.len()) {
        None
    } else if w[p] > w.len() - p - 1 {
        None
    } else {
        sdec_chars_n(w, p + 1, w[p] as int)
    }
}

pub open spec fn sdec_positions_n(w: Seq<u64>, p: int, n: int) -> Option<(Seq<usize>, int)>
    decreases n,
{
    if n <= 0 {
        Some((Seq::empty(), p))
    } else {
        match sdec_positions_n(w, p, n - 1) {
            None => None,
            Some((s, p1)) => {
                if 0 <= p1 < w.len() && w[p1] <= usize::MAX {
                    Some((s.push(w[p1] as usize), p1 + 1))
                } else {
                    None
                }
            },
        }
    }
}

/// What reading a length-prefixed position list from `p` yields.
pub open spec fn sdec_positions(w: Seq<u64>, p: int) -> Option<(Seq<usize>, int)> {
    if !(0 <= p < w.len()) {
        None
    } else if w[p] > w.len() - p - 1 {
        None
    } else {
        sdec_positions_n(w, p + 1, w[p] as int)
    }
}

/// What reading one field declaration from `p` yields.
pub open spec fn sdec_field(w: Seq<u64>, p: int) -> Option<(FieldModel, int)> {
    match sdec_chars(w, p) {
        None => None,
        Some((name, p1)) => {
            if !(p1 + 4 <= w.len()) {
                None
            } else {
                let ft = w[p1];
                let po = w[p1 + 1];
                let st = w[p1 + 2];
                let mo = w[p1 + 3];
                if !(ft == 0 || ft == 1) {
                    None
                } else if !(po == 0 || po == 1 || po == 2) {
                    None
                } else if !(st == 0 || st == 1) {
                    None
                } else if !(mo == 0 || mo == 1) {
                    None
                } else {
                    Some(
                        (
                            FieldModel {
                                name,
                                ftype: if ft == 0 {
                                    FieldType::Text
                                } else {
                                    FieldType::UInt
                                },
                                policy: if po == 0 {
                                    IndexPolicy::NotIndexed
                                } else if po == 1 {
                                    IndexPolicy::Positions
                                } else {
                                    IndexPolicy::Exact
                                },
                                stored: st == 1,
                                mode: if mo == 0 {
                                    ScriptMode::Cjk
                                } else {
                                    ScriptMode::Unicode
                                },
                            },
                            p1 + 4,
                        ),
                    )
                }
            }
        },
    }
}

pub open spec fn sdec_fields_n(w: Seq<u64>, p: int, n: int) -> Option<(Seq<FieldModel>, int)>
    decreases n,
{
    if n <= 0 {
        Some((Seq::empty(), p))
    } else {
        match sdec_fields_n(w, p, n - 1) {
            None => None,
            Some((fs, p1)) => match sdec_field(w, p1) {
                None => None,
                Some((f, p2)) => Some((fs.push(f), p2)),
            },
        }
    }
}

/// What reading one posting from `p` yields.
pub open spec fn sdec_posting(w: Seq<u64>, p: int) -> Option<(PostingModel, int)> {
    if !(0 <= p < w.len()) {
        None
    } else if w[p] > usize::MAX {
        None
    } else {
        match sdec_positions(w, p + 1) {
            None => None,
            Some((ps, p1)) => Some((PostingModel { doc: w[p] as usize, positions: ps }, p1)),
        }
    }
}

pub open spec fn sdec_postings_n(w: Seq<u64>, p: int, n: int) -> Option<(Seq<PostingModel>, int)>
    decreases n,
{
    if n <= 0 {
        Some((Seq::empty(), p))
    } else {
        match sdec_postings_n(w, p, n - 1) {
            None => None,
            Some((ps, p1)) => match sdec_posting(w, p1) {
                None => None,
                Some((pe, p2)) => Some((ps.push(pe), p2)),
            },
        }
    }
}

/// What reading one term with its posting list from `p` yields.
pub open spec fn sdec_term(w: Seq<u64>, p: int) -> Option<(TermModel, int)> {
    match sdec_chars(w, p) {
        None => None,
        Some((term, p1)) => {
            if !(0 <= p1 < w.len()) {
                None
            } else if w[p1] > w.len() {
                None
            } else {
                match sdec_postings_n(w, p1 + 1, w[p1] as int) {
                    None => None,
                    Some((ps, p2)) => Some((TermModel { term, postings: ps }, p2)),
                }
            }
        },
    }
}

pub open spec fn sdec_terms_n(w: Seq<u64>, p: int, n: int) -> Option<(Seq<TermModel>, int)>
    decreases n,
{
    if n <= 0 {
        Some((Seq::empty(), p))
    } else {
        match sdec_terms_n(w, p, n - 1) {
            None => None,
            Some((ts, p1)) => match sdec_term(w, p1) {
                None => None,
                Some((t, p2)) => Some((ts.push(t), p2)),
            },
        }
    }
}

pub open spec fn sdec_inverted_n(w: Seq<u64>, p: int, n: int) -> Option<
    (Seq<Seq<TermModel>>, int),
>
    decreases n,
{
    if n <= 0 {
        Some((Seq::empty(), p))
    } else {
        match sdec_inverted_n(w, p, n - 1) {
            None => None,
            Some((inv, p1)) => {
                if !(0 <= p1 < w.len()) {
                    None
                } else if w[p1] > w.len() {
                    None
                } else {
                    match sdec_terms_n(w, p1 + 1, w[p1] as int) {
                        None => None,
                        Some((ts, p2)) => Some((inv.push(ts), p2)),
                    }
                }
            },
        }
    }
}

/// What reading one stored (field, value) pair from `p` yields.
pub open spec fn sdec_pair(w: Seq<u64>, p: int) -> Option<(DocFieldModel, int)> {
    if !(0 <= p && p + 2 <= w.len()) {
        None
    } else if w[p] > usize::MAX {
        None
    } else if w[p + 1] == 0 {
        match sdec_chars(w, p + 2) {
            None => None,
            Some((t, p1)) => Some(
                (DocFieldModel { field: w[p] as usize, value: ValueModel::Text(t) }, p1),
            ),
        }
    } else if w[p + 1] == 1 {
        if !(p + 2 < w.len()) {
            None
        } else {
            Some(
                (DocFieldModel { field: w[p] as usize, value: ValueModel::UInt(w[p + 2]) }, p + 3),
            )
        }
    } else {
        None
    }
}

pub open spec fn sdec_pairs_n(w: Seq<u64>, p: int, n: int) -> Option<(Seq<DocFieldModel>, int)>
    decreases n,
{
    if n <= 0 {
        Some((Seq::empty(), p))
    } else {
        match sdec_pairs_n(w, p, n - 1) {
            None => None,
            Some((ps, p1)) => match sdec_pair(w, p1) {
                None => None,
                Some((pr, p2)) => Some((ps.push(pr), p2)),
            },
        }
    }
}

pub open spec fn sdec_docs_n(w: Seq<u64>, p: int, n: int) -> Option<
    (Seq<Seq<DocFieldModel>>, int),
>
    decreases n,
{
    if n <= 0 {
        Some((Seq::empty(), p))
    } else {
        match sdec_docs_n(w, p, n - 1) {
            None => None,
            Some((ds, p1)) => {
                if !(0 <= p1 < w.len()) {
                    None
                } else if w[p1] > w.len() {
                    None
                } else {
                    match sdec_pairs_n(w, p1 + 1, w[p1] as int) {
                        None => None,
                        Some((ps, p2)) => Some((ds.push(ps), p2)),
                    }
                }
            },
        }
    }
}

/// What a whole image holds: the index it was committed with, or nothing where
/// the words hold no valid index. `decode` returns exactly this.
pub open spec fn sdec_index(w: Seq<u64>) -> Option<
    (Seq<FieldModel>, Seq<Seq<TermModel>>, Seq<Seq<DocFieldModel>>),
> {
    if w.len() < 2 || w[0] != MAGIC {
        None
    } else if w[1] > w.len() {
        None
    } else {
        match sdec_fields_n(w, 2, w[1] as int) {
            None => None,
            Some((fs, p1)) => match sdec_inverted_n(w, p1, w[1] as int) {
                None => None,
                Some((inv, p2)) => {
                    if !(0 <= p2 < w.len()) {
                        None
                    } else if w[p2] > w.len() {
                        None
                    } else {
                        match sdec_docs_n(w, p2 + 1, w[p2] as int) {
                            None => None,
                            Some((ds, p3)) => Some((fs, inv, ds)),
                        }
                    }
                },
            },
        }
    }
}

proof fn lemma_chars_n_none(w: Seq<u64>, p: int, j: int, n: int)
    requires
        0 <= j <= n,
        sdec_chars_n(w, p, j) is None,
    ensures
        sdec_chars_n(w, p, n) is None,
    decreases n,
{
    if n > j {
        lemma_chars_n_none(w, p, j, n - 1);
    }
}

proof fn lemma_positions_n_none(w: Seq<u64>, p: int, j: int, n: int)
    requires
        0 <= j <= n,
        sdec_positions_n(w, p, j) is None,
    ensures
        sdec_positions_n(w, p, n) is None,
    decreases n,
{
    if n > j {
        lemma_positions_n_none(w, p, j, n - 1);
    }
}

proof fn lemma_fields_n_none(w: Seq<u64>, p: int, j: int, n: int)
    requires
        0 <= j <= n,
        sdec_fields_n(w, p, j) is None,
    ensures
        sdec_fields_n(w, p, n) is None,
    decreases n,
{
    if n > j {
        lemma_fields_n_none(w, p, j, n - 1);
    }
}

proof fn lemma_postings_n_none(w: Seq<u64>, p: int, j: int, n: int)
    requires
        0 <= j <= n,
        sdec_postings_n(w, p, j) is None,
    ensures
        sdec_postings_n(w, p, n) is None,
    decreases n,
{
    if n > j {
        lemma_postings_n_none(w, p, j, n - 1);
    }
}

proof fn lemma_terms_n_none(w: Seq<u64>, p: int, j: int, n: int)
    requires
        0 <= j <= n,
        sdec_terms_n(w, p, j) is None,
    ensures
        sdec_terms_n(w, p, n) is None,
    decreases n,
{
    if n > j {
        lemma_terms_n_none(w, p, j, n - 1);
    }
}

proof fn lemma_inverted_n_none(w: Seq<u64>, p: int, j: int, n: int)
    requires
        0 <= j <= n,
        sdec_inverted_n(w, p, j) is None,
    ensures
        sdec_inverted_n(w, p, n) is None,
    decreases n,
{
    if n > j {
        lemma_inverted_n_none(w, p, j, n - 1);
    }
}

proof fn lemma_pairs_n_none(w: Seq<u64>, p: int, j: int, n: int)
    requires
        0 <= j <= n,
        sdec_pairs_n(w, p, j) is None,
    ensures
        sdec_pairs_n(w, p, n) is None,
    decreases n,
{
    if n > j {
        lemma_pairs_n_none(w, p, j, n - 1);
    }
}

proof fn lemma_docs_n_none(w: Seq<u64>, p: int, j: int, n: int)
    requires
        0 <= j <= n,
        sdec_docs_n(w, p, j) is None,
    ensures
        sdec_docs_n(w, p, n) is None,
    decreases n,
{
    if n > j {
        lemma_docs_n_none(w, p, j, n - 1);
    }
}

/// Reads a length-prefixed character sequence, exactly as `sdec_chars` says.
fn dec_chars(w: &Vec<u64>, pos: usize) -> (r: Option<(Vec<char>, usize)>)
    ensures
        match r {
            Some(v) => sdec_chars(w@, pos as int) == Some((v.0@, v.1 as int)) && pos < v.1
                <= w@.len(),
            None => sdec_chars(w@, pos as int) is None,
        },
{
    if pos >= w.len() {
        return None;
    }
    let l = w[pos];
    let avail = w.len() - pos - 1;
    if l > avail as u64 {
        return None;
    }
    let n = l as usize;
    let ghost base = pos as int + 1;
    let mut out: Vec<char> = Vec::new();
    let mut i: usize = 0;
    while i < n
        invariant
            i <= n,
            pos < w@.len(),
            n <= w@.len() - pos - 1,
            base == pos as int + 1,
            sdec_chars_n(w@, base, i as int) == Some((out@, base + i)),
        decreases n - i,
    {
        let x = w[pos + 1 + i];
        if x > u32::MAX as u64 {
            proof {
                assert(sdec_chars_n(w@, base, i as int + 1) is None);
                lemma_chars_n_none(w@, base, i as int + 1, n as int);
            }
            return None;
        }
        match crate::tokenizer::char_from_u32(x as u32) {
            None => {
                proof {
                    assert(!char_word_ok(w@[base + i]));
                    assert(sdec_chars_n(w@, base, i as int + 1) is None);
                    lemma_chars_n_none(w@, base, i as int + 1, n as int);
                }
                return None;
            },
            Some(c) => {
                proof {
                    assert(char_word_ok(w@[base + i]));
                    assert(c == char_of_word(w@[base + i]));
                }
                out.push(c);
            },
        }
        i = i + 1;
    }
    Some((out, pos + 1 + n))
}

/// Reads a length-prefixed position list, exactly as `sdec_positions` says.
fn dec_positions(w: &Vec<u64>, pos: usize) -> (r: Option<(Vec<usize>, usize)>)
    ensures
        match r {
            Some(v) => sdec_positions(w@, pos as int) == Some((v.0@, v.1 as int)) && pos < v.1
                <= w@.len(),
            None => sdec_positions(w@, pos as int) is None,
        },
{
    if pos >= w.len() {
        return None;
    }
    let l = w[pos];
    let avail = w.len() - pos - 1;
    if l > avail as u64 {
        return None;
    }
    let n = l as usize;
    let ghost base = pos as int + 1;
    let mut out: Vec<usize> = Vec::new();
    let mut i: usize = 0;
    while i < n
        invariant
            i <= n,
            pos < w@.len(),
            n <= w@.len() - pos - 1,
            base == pos as int + 1,
            sdec_positions_n(w@, base, i as int) == Some((out@, base + i)),
        decreases n - i,
    {
        let x = w[pos + 1 + i];
        if x > usize::MAX as u64 {
            proof {
                assert(sdec_positions_n(w@, base, i as int + 1) is None);
                lemma_positions_n_none(w@, base, i as int + 1, n as int);
            }
            return None;
        }
        out.push(x as usize);
        i = i + 1;
    }
    Some((out, pos + 1 + n))
}

/// Reads one field declaration, exactly as `sdec_field` says.
fn dec_field(w: &Vec<u64>, pos: usize) -> (r: Option<(Field, usize)>)
    ensures
        match r {
            Some(v) => sdec_field(w@, pos as int) == Some((v.0.model(), v.1 as int)) && pos < v.1
                <= w@.len(),
            None => sdec_field(w@, pos as int) is None,
        },
{
    let name = match dec_chars(w, pos) {
        None => {
            return None;
        },
        Some(v) => v,
    };
    let p1 = name.1;
    if w.len() - p1 < 4 {
        return None;
    }
    let ftype = match w[p1] {
        0 => FieldType::Text,
        1 => FieldType::UInt,
        _ => {
            return None;
        },
    };
    let policy = match w[p1 + 1] {
        0 => IndexPolicy::NotIndexed,
        1 => IndexPolicy::Positions,
        2 => IndexPolicy::Exact,
        _ => {
            return None;
        },
    };
    let stored = match w[p1 + 2] {
        0 => false,
        1 => true,
        _ => {
            return None;
        },
    };
    let mode = match w[p1 + 3] {
        0 => ScriptMode::Cjk,
        1 => ScriptMode::Unicode,
        _ => {
            return None;
        },
    };
    Some((Field { name: name.0, ftype, policy, stored, mode }, p1 + 4))
}

/// Reads one posting, exactly as `sdec_posting` says.
fn dec_posting(w: &Vec<u64>, pos: usize) -> (r: Option<(PostingEntry, usize)>)
    ensures
        match r {
            Some(v) => sdec_posting(w@, pos as int) == Some((v.0.model(), v.1 as int)) && pos < v.1
                <= w@.len(),
            None => sdec_posting(w@, pos as int) is None,
        },
{
    if pos >= w.len() {
        return None;
    }
    let doc_w = w[pos];
    if doc_w > usize::MAX as u64 {
        return None;
    }
    let positions = match dec_positions(w, pos + 1) {
        None => {
            return None;
        },
        Some(v) => v,
    };
    Some((PostingEntry { doc: doc_w as usize, positions: positions.0 }, positions.1))
}

/// Reads one term with its posting list, exactly as `sdec_term` says.
fn dec_term(w: &Vec<u64>, pos: usize) -> (r: Option<(TermPostings, usize)>)
    ensures
        match r {
            Some(v) => sdec_term(w@, pos as int) == Some((v.0.model(), v.1 as int)) && pos < v.1
                <= w@.len(),
            None => sdec_term(w@, pos as int) is None,
        },
{
    let term = match dec_chars(w, pos) {
        None => {
            return None;
        },
        Some(v) => v,
    };
    let p1 = term.1;
    if p1 >= w.len() {
        return None;
    }
    let nposts_w = w[p1];
    if nposts_w > w.len() as u64 {
        return None;
    }
    let nposts = nposts_w as usize;
    let ghost base = p1 as int + 1;
    let mut ps: Vec<PostingEntry> = Vec::new();
    let mut cur: usize = p1 + 1;
    let mut pi: usize = 0;
    while pi < nposts
        invariant
            pi <= nposts,
            pos < cur <= w@.len(),
            sdec_postings_n(w@, base, pi as int) == Some((posting_models(ps@), cur as int)),
        decreases nposts - pi,
    {
        let pe = match dec_posting(w, cur) {
            None => {
                proof {
                    assert(sdec_postings_n(w@, base, pi as int + 1) is None);
                    lemma_postings_n_none(w@, base, pi as int + 1, nposts as int);
                }
                return None;
            },
            Some(v) => v,
        };
        let ghost prev = posting_models(ps@);
        cur = pe.1;
        ps.push(pe.0);
        proof {
            assert(posting_models(ps@) =~= prev.push(pe.0.model()));
        }
        pi = pi + 1;
    }
    Some((TermPostings { term: term.0, postings: ps }, cur))
}

/// Reads one field's term mapping: its term count, then its terms.
fn dec_field_terms(w: &Vec<u64>, pos: usize) -> (r: Option<(Vec<TermPostings>, usize)>)
    ensures
        match r {
            Some(v) => 0 <= pos < w@.len() && w@[pos as int] <= w@.len() && sdec_terms_n(
                w@,
                pos as int + 1,
                w@[pos as int] as int,
            ) == Some((term_models(v.0@), v.1 as int)) && pos < v.1 <= w@.len(),
            None => !(0 <= pos < w@.len()) || w@[pos as int] > w@.len() || sdec_terms_n(
                w@,
                pos as int + 1,
                w@[pos as int] as int,
            ) is None,
        },
{
    if pos >= w.len() {
        return None;
    }
    let nterms_w = w[pos];
    if nterms_w > w.len() as u64 {
        return None;
    }
    let nterms = nterms_w as usize;
    let ghost base = pos as int + 1;
    let mut ts: Vec<TermPostings> = Vec::new();
    let mut cur: usize = pos + 1;
    let mut ti: usize = 0;
    while ti < nterms
        invariant
            ti <= nterms,
            pos < cur <= w@.len(),
            pos < w@.len(),
            base == pos as int + 1,
            sdec_terms_n(w@, base, ti as int) == Some((term_models(ts@), cur as int)),
        decreases nterms - ti,
    {
        let t = match dec_term(w, cur) {
            None => {
                proof {
                    assert(sdec_terms_n(w@, base, ti as int + 1) is None);
                    lemma_terms_n_none(w@, base, ti as int + 1, nterms as int);
                }
                return None;
            },
            Some(v) => v,
        };
        let ghost prev = term_models(ts@);
        cur = t.1;
        ts.push(t.0);
        proof {
            assert(term_models(ts@) =~= prev.push(t.0.model()));
        }
        ti = ti + 1;
    }
    Some((ts, cur))
}

/// Reads one stored (field, value) pair, exactly as `sdec_pair` says.
fn dec_pair(w: &Vec<u64>, pos: usize) -> (r: Option<(DocField, usize)>)
    ensures
        match r {
            Some(v) => sdec_pair(w@, pos as int) == Some((v.0.model(), v.1 as int)) && pos < v.1
                <= w@.len(),
            None => sdec_pair(w@, pos as int) is None,
        },
{
    if w.len() < 2 || pos > w.len() - 2 {
        return None;
    }
    let field_w = w[pos];
    if field_w > usize::MAX as u64 {
        return None;
    }
    let tag = w[pos + 1];
    if tag == 0 {
        let t = match dec_chars(w, pos + 2) {
            None => {
                return None;
            },
            Some(v) => v,
        };
        Some((DocField { field: field_w as usize, value: Value::Text(t.0) }, t.1))
    } else if tag == 1 {
        if pos + 2 >= w.len() {
            return None;
        }
        Some((DocField { field: field_w as usize, value: Value::UInt(w[pos + 2]) }, pos + 3))
    } else {
        None
    }
}

/// Reads one stored document: its pair count, then its pairs.
fn dec_doc(w: &Vec<u64>, pos: usize) -> (r: Option<(Vec<DocField>, usize)>)
    ensures
        match r {
            Some(v) => 0 <= pos < w@.len() && w@[pos as int] <= w@.len() && sdec_pairs_n(
                w@,
                pos as int + 1,
                w@[pos as int] as int,
            ) == Some((doc_models(v.0@), v.1 as int)) && pos < v.1 <= w@.len(),
            None => !(0 <= pos < w@.len()) || w@[pos as int] > w@.len() || sdec_pairs_n(
                w@,
                pos as int + 1,
                w@[pos as int] as int,
            ) is None,
        },
{
    if pos >= w.len() {
        return None;
    }
    let npairs_w = w[pos];
    if npairs_w > w.len() as u64 {
        return None;
    }
    let npairs = npairs_w as usize;
    let ghost base = pos as int + 1;
    let mut pairs: Vec<DocField> = Vec::new();
    let mut cur: usize = pos + 1;
    let mut ki: usize = 0;
    while ki < npairs
        invariant
            ki <= npairs,
            pos < cur <= w@.len(),
            pos < w@.len(),
            base == pos as int + 1,
            sdec_pairs_n(w@, base, ki as int) == Some((doc_models(pairs@), cur as int)),
        decreases npairs - ki,
    {
        let p = match dec_pair(w, cur) {
            None => {
                proof {
                    assert(sdec_pairs_n(w@, base, ki as int + 1) is None);
                    lemma_pairs_n_none(w@, base, ki as int + 1, npairs as int);
                }
                return None;
            },
            Some(v) => v,
        };
        let ghost prev = doc_models(pairs@);
        cur = p.1;
        pairs.push(p.0);
        proof {
            assert(doc_models(pairs@) =~= prev.push(p.0.model()));
        }
        ki = ki + 1;
    }
    Some((pairs, cur))
}

/// Reads back the index an image holds: exactly what `sdec_index` says the
/// image holds, rebuilt in image order — document-ids keep the positions they
/// were committed with — or `NotFound` where the words hold no valid index.
#[verifier::rlimit(100)]
pub fn decode(w: &Vec<u64>) -> (r: Result<Index, StorageError>)
    ensures
        match r {
            Ok(ix) => {
                &&& sdec_index(w@) is Some
                &&& ix.schema.spec_fields() == sdec_index(w@)->Some_0.0
                &&& ix.inv_model() == sdec_index(w@)->Some_0.1
                &&& ix.docs_model() == sdec_index(w@)->Some_0.2
            },
            Err(e) => sdec_index(w@) is None && e == StorageError::NotFound,
        },
        w@.len() < 2 || w@[0] != MAGIC ==> r == Err::<Index, StorageError>(StorageError::NotFound),
{
    if w.len() < 2 || w[0] != MAGIC {
        return Err(StorageError::NotFound);
    }
    let nfields_w = w[1];
    if nfields_w > w.len() as u64 {
        return Err(StorageError::NotFound);
    }
    let nfields = nfields_w as usize;
    let mut fields: Vec<Field> = Vec::new();
    let mut pos: usize = 2;
    let mut i: usize = 0;
    while i < nfields
        invariant
            i <= nfields,
            pos <= w@.len(),
            w@.len() >= 2 && w@[0] == MAGIC && w@[1] == nfields as u64 && nfields <= w@.len(),
            sdec_fields_n(w@, 2, i as int) == Some((field_models(fields@), pos as int)),
        decreases nfields - i,
    {
        let f = match dec_field(w, pos) {
            None => {
                proof {
                    assert(sdec_fields_n(w@, 2, i as int + 1) is None);
                    lemma_fields_n_none(w@, 2, i as int + 1, nfields as int);
                }
                return Err(StorageError::NotFound);
            },
            Some(v) => v,
        };
        let ghost prev = field_models(fields@);
        pos = f.1;
        fields.push(f.0);
        proof {
            assert(field_models(fields@) =~= prev.push(f.0.model()));
        }
        i = i + 1;
    }
    let ghost fs = field_models(fields@);
    let ghost invstart = pos as int;
    let mut inverted: Vec<Vec<TermPostings>> = Vec::new();
    let mut fi: usize = 0;
    while fi < nfields
        invariant
            fi <= nfields,
            pos <= w@.len(),
            w@.len() >= 2 && w@[0] == MAGIC && w@[1] == nfields as u64 && nfields <= w@.len(),
            sdec_fields_n(w@, 2, nfields as int) == Some((fs, invstart)),
            sdec_inverted_n(w@, invstart, fi as int) == Some(
                (inverted_models(inverted@), pos as int),
            ),
        decreases nfields - fi,
    {
        let ts = match dec_field_terms(w, pos) {
            None => {
                proof {
                    assert(sdec_inverted_n(w@, invstart, fi as int + 1) is None);
                    lemma_inverted_n_none(w@, invstart, fi as int + 1, nfields as int);
                }
                return Err(StorageError::NotFound);
            },
            Some(v) => v,
        };
        let ghost prev = inverted_models(inverted@);
        pos = ts.1;
        inverted.push(ts.0);
        proof {
            assert(inverted_models(inverted@) =~= prev.push(term_models(ts.0@)));
        }
        fi = fi + 1;
    }
    let ghost inv = inverted_models(inverted@);
    if pos >= w.len() {
        return Err(StorageError::NotFound);
    }
    let ndocs_w = w[pos];
    if ndocs_w > w.len() as u64 {
        return Err(StorageError::NotFound);
    }
    let ndocs = ndocs_w as usize;
    let ghost dstart = pos as int + 1;
    let ghost dcount = pos as int;
    let mut docs: Vec<Vec<DocField>> = Vec::new();
    let mut cur: usize = pos + 1;
    let mut di: usize = 0;
    while di < ndocs
        invariant
            di <= ndocs,
            cur <= w@.len(),
            w@.len() >= 2 && w@[0] == MAGIC && w@[1] == nfields as u64 && nfields <= w@.len(),
            sdec_fields_n(w@, 2, nfields as int) == Some((fs, invstart)),
            sdec_inverted_n(w@, invstart, nfields as int) == Some((inv, dcount)),
            0 <= dcount < w@.len() && w@[dcount] == ndocs as u64 && ndocs <= w@.len(),
            dstart == dcount + 1,
            sdec_docs_n(w@, dstart, di as int) == Some((stored_models(docs@), cur as int)),
        decreases ndocs - di,
    {
        let d = match dec_doc(w, cur) {
            None => {
                proof {
                    assert(sdec_docs_n(w@, dstart, di as int + 1) is None);
                    lemma_docs_n_none(w@, dstart, di as int + 1, ndocs as int);
                }
                return Err(StorageError::NotFound);
            },
            Some(v) => v,
        };
        let ghost prev = stored_models(docs@);
        cur = d.1;
        docs.push(d.0);
        proof {
            assert(stored_models(docs@) =~= prev.push(doc_models(d.0@)));
        }
        di = di + 1;
    }
    let ix = Index { schema: Schema { fields }, inverted, docs };
    proof {
        assert(sdec_index(w@) == Some((fs, inv, stored_models(docs@))));
        assert(ix.schema.spec_fields() == fs);
        assert(ix.inv_model() == inv);
    }
    Ok(ix)
}

/// Length bounds under which an image's counts read back exactly: every
/// sequence that a count word stands for fits a machine word.
pub open spec fn chars_fit(s: Seq<char>) -> bool {
    s.len() <= usize::MAX
}

pub open spec fn posting_fits(p: PostingModel) -> bool {
    p.positions.len() <= usize::MAX
}

pub open spec fn term_fits(t: TermModel) -> bool {
    &&& chars_fit(t.term)
    &&& t.postings.len() <= usize::MAX
    &&& forall|i: int| 0 <= i < t.postings.len() ==> posting_fits(#[trigger] t.postings[i])
}

pub open spec fn terms_fit(ts: Seq<TermModel>) -> bool {
    &&& ts.len() <= usize::MAX
    &&& forall|i: int| 0 <= i < ts.len() ==> term_fits(#[trigger] ts[i])
}

pub open spec fn pair_fits(p: DocFieldModel) -> bool {
    match p.value {
        ValueModel::Text(t) => chars_fit(t),
        ValueModel::UInt(_) => true,
    }
}

pub open spec fn pairs_fit(ps: Seq<DocFieldModel>) -> bool {
    &&& ps.len() <= usize::MAX
    &&& forall|i: int| 0 <= i < ps.len() ==> pair_fits(#[trigger] ps[i])
}

/// The image of (fs, inv, ds) reads back exactly: one term mapping per field,
/// and every count fits a machine word. An `Index` value meets this by
/// construction (`lemma_index_image_fits`).
pub open spec fn image_fits(
    fs: Seq<FieldModel>,
    inv: Seq<Seq<TermModel>>,
    ds: Seq<Seq<DocFieldModel>>,
) -> bool {
    &&& fs.len() <= usize::MAX
    &&& forall|i: int| 0 <= i < fs.len() ==> chars_fit((#[trigger] fs[i]).name)
    &&& inv.len() == fs.len()
    &&& forall|f: int| 0 <= f < inv.len() ==> terms_fit(#[trigger] inv[f])
    &&& ds.len() <= usize::MAX
    &&& forall|d: int| 0 <= d < ds.len() ==> pairs_fit(#[trigger] ds[d])
}

proof fn lemma_enc_fields_len_lb(fs: Seq<FieldModel>)
    ensures
        enc_fields(fs).len() >= fs.len(),
    decreases fs.len(),
{
    if fs.len() > 0 {
        lemma_enc_fields_len_lb(fs.drop_first());
    }
}

proof fn lemma_enc_postings_len_lb(ps: Seq<PostingModel>)
    ensures
        enc_postings(ps).len() >= ps.len(),
    decreases ps.len(),
{
    if ps.len() > 0 {
        lemma_enc_postings_len_lb(ps.drop_first());
    }
}

proof fn lemma_enc_terms_len_lb(ts: Seq<TermModel>)
    ensures
        enc_terms(ts).len() >= ts.len(),
    decreases ts.len(),
{
    if ts.len() > 0 {
        lemma_enc_terms_len_lb(ts.drop_first());
    }
}

proof fn lemma_enc_pairs_len_lb(ps: Seq<DocFieldModel>)
    ensures
        enc_pairs(ps).len() >= ps.len(),
    decreases ps.len(),
{
    if ps.len() > 0 {
        lemma_enc_pairs_len_lb(ps.drop_first());
    }
}

proof fn lemma_enc_docs_len_lb(ds: Seq<Seq<DocFieldModel>>)
    ensures
        enc_docs(ds).len() >= ds.len(),
    decreases ds.len(),
{
    if ds.len() > 0 {
        lemma_enc_docs_len_lb(ds.drop_first());
    }
}

/// A window of an image that holds encoded words, stated pointwise.
pub open spec fn window_is(w: Seq<u64>, p: int, e: Seq<u64>) -> bool {
    &&& 0 <= p
    &&& p + e.len() <= w.len()
    &&& forall|j: int| 0 <= j < e.len() ==> w[p + j] == e[j]
}

proof fn lemma_rt_chars_n(w: Seq<u64>, p: int, s: Seq<char>)
    requires
        0 <= p,
        p + s.len() <= w.len(),
        forall|j: int| 0 <= j < s.len() ==> w[p + j] == (s[j] as u32) as u64,
    ensures
        sdec_chars_n(w, p, s.len() as int) == Some((s, p + s.len())),
    decreases s.len(),
{
    if s.len() > 0 {
        let sd = s.drop_last();
        assert(forall|j: int| 0 <= j < sd.len() ==> sd[j] == s[j]);
        lemma_rt_chars_n(w, p, sd);
        let c = s.last();
        let x = w[p + s.len() - 1];
        let y = c as u32;
        assert(x == (c as u32) as u64);
        vstd::utf8::char_is_scalar(c);
        assert((y as u64) as u32 == y) by (bit_vector);
        assert(y as u64 <= u32::MAX as u64) by (bit_vector);
        assert(char_word_ok(x));
        vstd::utf8::char_u32_cast(c, (x as u32));
        assert(char_of_word(x) == c);
        assert(sd.push(c) =~= s);
    }
}

proof fn lemma_rt_chars(w: Seq<u64>, p: int, s: Seq<char>)
    requires
        window_is(w, p, enc_chars(s)),
        chars_fit(s),
    ensures
        sdec_chars(w, p) == Some((s, p + 1 + s.len())),
{
    assert(w[p] == enc_chars(s)[0]);
    assert(w[p] == s.len() as u64);
    assert(w[p] as int == s.len());
    assert forall|j: int| 0 <= j < s.len() implies w[p + 1 + j] == (s[j] as u32) as u64 by {
        assert(w[p + (1 + j)] == enc_chars(s)[1 + j]);
        assert(enc_chars(s)[1 + j] == s.map_values(|c: char| (c as u32) as u64)[j]);
    }
    lemma_rt_chars_n(w, p + 1, s);
}

proof fn lemma_rt_positions_n(w: Seq<u64>, p: int, s: Seq<usize>)
    requires
        0 <= p,
        p + s.len() <= w.len(),
        forall|j: int| 0 <= j < s.len() ==> w[p + j] == s[j] as u64,
    ensures
        sdec_positions_n(w, p, s.len() as int) == Some((s, p + s.len())),
    decreases s.len(),
{
    if s.len() > 0 {
        let sd = s.drop_last();
        assert(forall|j: int| 0 <= j < sd.len() ==> sd[j] == s[j]);
        lemma_rt_positions_n(w, p, sd);
        let x = w[p + s.len() - 1];
        assert(x == s.last() as u64);
        assert(x <= usize::MAX);
        assert(x as usize == s.last());
        assert(sd.push(s.last()) =~= s);
    }
}

proof fn lemma_rt_positions(w: Seq<u64>, p: int, s: Seq<usize>)
    requires
        window_is(w, p, enc_positions(s)),
        s.len() <= usize::MAX,
    ensures
        sdec_positions(w, p) == Some((s, p + 1 + s.len())),
{
    assert(w[p] == enc_positions(s)[0]);
    assert(w[p] == s.len() as u64);
    assert forall|j: int| 0 <= j < s.len() implies w[p + 1 + j] == s[j] as u64 by {
        assert(w[p + (1 + j)] == enc_positions(s)[1 + j]);
        assert(enc_positions(s)[1 + j] == s.map_values(|q: usize| q as u64)[j]);
    }
    lemma_rt_positions_n(w, p + 1, s);
}

proof fn lemma_rt_field(w: Seq<u64>, p: int, f: FieldModel)
    requires
        window_is(w, p, enc_field(f)),
        chars_fit(f.name),
    ensures
        sdec_field(w, p) == Some((f, p + enc_field(f).len())),
{
    let ec = enc_chars(f.name);
    assert forall|j: int| 0 <= j < ec.len() implies w[p + j] == ec[j] by {
        assert(w[p + j] == enc_field(f)[j]);
    }
    assert(window_is(w, p, ec));
    lemma_rt_chars(w, p, f.name);
    let p1 = p + ec.len();
    assert(w[p1] == enc_field(f)[ec.len() as int]);
    assert(w[p1 + 1] == enc_field(f)[ec.len() as int + 1]);
    assert(w[p1 + 2] == enc_field(f)[ec.len() as int + 2]);
    assert(w[p1 + 3] == enc_field(f)[ec.len() as int + 3]);
    assert(w[p1] == ftype_tag(f.ftype));
    assert(w[p1 + 1] == policy_tag(f.policy));
    assert(w[p1 + 3] == mode_tag(f.mode));
    match sdec_field(w, p) {
        Some(v) => {
            assert(v.0.name == f.name);
            assert(v.0.ftype == f.ftype);
            assert(v.0.policy == f.policy);
            assert(v.0.stored == f.stored);
            assert(v.0.mode == f.mode);
        },
        None => {
            assert(false);
        },
    }
}

proof fn lemma_rt_fields_n(w: Seq<u64>, p: int, fs: Seq<FieldModel>)
    requires
        window_is(w, p, enc_fields(fs)),
        forall|i: int| 0 <= i < fs.len() ==> chars_fit((#[trigger] fs[i]).name),
    ensures
        sdec_fields_n(w, p, fs.len() as int) == Some((fs, p + enc_fields(fs).len())),
    decreases fs.len(),
{
    if fs.len() > 0 {
        let fsd = fs.drop_last();
        lemma_enc_list_snoc_fields(fs, fs.len() - 1);
        assert(fs.take(fs.len() as int) =~= fs);
        assert(fs.take(fs.len() - 1) =~= fsd);
        let ed = enc_fields(fsd);
        let ef = enc_field(fs.last());
        assert(enc_fields(fs) == ed + ef);
        assert(forall|j: int| 0 <= j < fsd.len() ==> fsd[j] == fs[j]);
        assert forall|j: int| 0 <= j < ed.len() implies w[p + j] == ed[j] by {
            assert(w[p + j] == enc_fields(fs)[j]);
        }
        assert(window_is(w, p, ed));
        lemma_rt_fields_n(w, p, fsd);
        let p1 = p + ed.len();
        assert forall|j: int| 0 <= j < ef.len() implies w[p1 + j] == ef[j] by {
            assert(w[p + (ed.len() + j)] == enc_fields(fs)[ed.len() + j]);
        }
        assert(window_is(w, p1, ef));
        lemma_rt_field(w, p1, fs.last());
        assert(fsd.push(fs.last()) =~= fs);
    }
}

proof fn lemma_rt_posting(w: Seq<u64>, p: int, pe: PostingModel)
    requires
        window_is(w, p, enc_posting(pe)),
        posting_fits(pe),
    ensures
        sdec_posting(w, p) == Some((pe, p + enc_posting(pe).len())),
{
    assert(w[p] == enc_posting(pe)[0]);
    assert(w[p] == pe.doc as u64);
    assert(w[p] as usize == pe.doc);
    let ep = enc_positions(pe.positions);
    assert forall|j: int| 0 <= j < ep.len() implies w[p + 1 + j] == ep[j] by {
        assert(w[p + (1 + j)] == enc_posting(pe)[1 + j]);
    }
    assert(window_is(w, p + 1, ep));
    lemma_rt_positions(w, p + 1, pe.positions);
}

proof fn lemma_rt_postings_n(w: Seq<u64>, p: int, ps: Seq<PostingModel>)
    requires
        window_is(w, p, enc_postings(ps)),
        forall|i: int| 0 <= i < ps.len() ==> posting_fits(#[trigger] ps[i]),
    ensures
        sdec_postings_n(w, p, ps.len() as int) == Some((ps, p + enc_postings(ps).len())),
    decreases ps.len(),
{
    if ps.len() > 0 {
        let psd = ps.drop_last();
        lemma_enc_list_snoc_postings(ps, ps.len() - 1);
        assert(ps.take(ps.len() as int) =~= ps);
        assert(ps.take(ps.len() - 1) =~= psd);
        let ed = enc_postings(psd);
        let ep = enc_posting(ps.last());
        assert(enc_postings(ps) == ed + ep);
        assert(forall|j: int| 0 <= j < psd.len() ==> psd[j] == ps[j]);
        assert forall|j: int| 0 <= j < ed.len() implies w[p + j] == ed[j] by {
            assert(w[p + j] == enc_postings(ps)[j]);
        }
        assert(window_is(w, p, ed));
        lemma_rt_postings_n(w, p, psd);
        let p1 = p + ed.len();
        assert forall|j: int| 0 <= j < ep.len() implies w[p1 + j] == ep[j] by {
            assert(w[p + (ed.len() + j)] == enc_postings(ps)[ed.len() + j]);
        }
        assert(window_is(w, p1, ep));
        lemma_rt_posting(w, p1, ps.last());
        assert(psd.push(ps.last()) =~= ps);
    }
}

proof fn lemma_rt_term(w: Seq<u64>, p: int, t: TermModel)
    requires
        window_is(w, p, enc_term(t)),
        term_fits(t),
    ensures
        sdec_term(w, p) == Some((t, p + enc_term(t).len())),
{
    let ec = enc_chars(t.term);
    assert forall|j: int| 0 <= j < ec.len() implies w[p + j] == ec[j] by {
        assert(w[p + j] == enc_term(t)[j]);
    }
    assert(window_is(w, p, ec));
    lemma_rt_chars(w, p, t.term);
    let p1 = p + ec.len();
    assert(w[p1] == enc_term(t)[ec.len() as int]);
    assert(w[p1] == t.postings.len() as u64);
    lemma_enc_postings_len_lb(t.postings);
    let ep = enc_postings(t.postings);
    assert(enc_term(t).len() == ec.len() + 1 + ep.len());
    assert(t.postings.len() <= ep.len());
    assert(w[p1] <= w.len());
    assert forall|j: int| 0 <= j < ep.len() implies w[p1 + 1 + j] == ep[j] by {
        assert(w[p + (ec.len() + 1 + j)] == enc_term(t)[ec.len() + 1 + j]);
    }
    assert(window_is(w, p1 + 1, ep));
    lemma_rt_postings_n(w, p1 + 1, t.postings);
}

proof fn lemma_rt_terms_n(w: Seq<u64>, p: int, ts: Seq<TermModel>)
    requires
        window_is(w, p, enc_terms(ts)),
        forall|i: int| 0 <= i < ts.len() ==> term_fits(#[trigger] ts[i]),
    ensures
        sdec_terms_n(w, p, ts.len() as int) == Some((ts, p + enc_terms(ts).len())),
    decreases ts.len(),
{
    if ts.len() > 0 {
        let tsd = ts.drop_last();
        lemma_enc_list_snoc_terms(ts, ts.len() - 1);
        assert(ts.take(ts.len() as int) =~= ts);
        assert(ts.take(ts.len() - 1) =~= tsd);
        let ed = enc_terms(tsd);
        let et = enc_term(ts.last());
        assert(enc_terms(ts) == ed + et);
        assert(forall|j: int| 0 <= j < tsd.len() ==> tsd[j] == ts[j]);
        assert forall|j: int| 0 <= j < ed.len() implies w[p + j] == ed[j] by {
            assert(w[p + j] == enc_terms(ts)[j]);
        }
        assert(window_is(w, p, ed));
        lemma_rt_terms_n(w, p, tsd);
        let p1 = p + ed.len();
        assert forall|j: int| 0 <= j < et.len() implies w[p1 + j] == et[j] by {
            assert(w[p + (ed.len() + j)] == enc_terms(ts)[ed.len() + j]);
        }
        assert(window_is(w, p1, et));
        lemma_rt_term(w, p1, ts.last());
        assert(tsd.push(ts.last()) =~= ts);
    }
}

proof fn lemma_rt_inverted_n(w: Seq<u64>, p: int, inv: Seq<Seq<TermModel>>)
    requires
        window_is(w, p, enc_inverted(inv)),
        forall|f: int| 0 <= f < inv.len() ==> terms_fit(#[trigger] inv[f]),
    ensures
        sdec_inverted_n(w, p, inv.len() as int) == Some((inv, p + enc_inverted(inv).len())),
    decreases inv.len(),
{
    if inv.len() > 0 {
        let invd = inv.drop_last();
        lemma_enc_list_snoc_inverted(inv, inv.len() - 1);
        assert(inv.take(inv.len() as int) =~= inv);
        assert(inv.take(inv.len() - 1) =~= invd);
        let ed = enc_inverted(invd);
        let last = inv.last();
        let et = seq![last.len() as u64] + enc_terms(last);
        assert(enc_inverted(inv) == ed + et);
        assert(forall|j: int| 0 <= j < invd.len() ==> invd[j] == inv[j]);
        assert forall|j: int| 0 <= j < ed.len() implies w[p + j] == ed[j] by {
            assert(w[p + j] == enc_inverted(inv)[j]);
        }
        assert(window_is(w, p, ed));
        lemma_rt_inverted_n(w, p, invd);
        let p1 = p + ed.len();
        assert forall|j: int| 0 <= j < et.len() implies w[p1 + j] == et[j] by {
            assert(w[p + (ed.len() + j)] == enc_inverted(inv)[ed.len() + j]);
        }
        assert(terms_fit(inv[inv.len() - 1]));
        let ets = enc_terms(last);
        assert(et.len() == 1 + ets.len());
        assert(w[p1 + 0] == et[0]);
        assert(et[0] == last.len() as u64);
        assert(w[p1] == last.len() as u64);
        lemma_enc_terms_len_lb(last);
        assert(last.len() <= ets.len());
        assert(p1 + et.len() <= w.len());
        assert(w[p1] <= w.len());
        assert forall|j: int| 0 <= j < ets.len() implies w[p1 + 1 + j] == ets[j] by {
            assert(w[p1 + (1 + j)] == et[1 + j]);
        }
        assert(window_is(w, p1 + 1, ets));
        lemma_rt_terms_n(w, p1 + 1, last);
        assert(invd.push(last) =~= inv);
    }
}

proof fn lemma_rt_pair(w: Seq<u64>, p: int, pr: DocFieldModel)
    requires
        window_is(w, p, enc_pair(pr)),
        pair_fits(pr),
    ensures
        sdec_pair(w, p) == Some((pr, p + enc_pair(pr).len())),
{
    assert(w[p] == enc_pair(pr)[0]);
    assert(w[p] == pr.field as u64);
    assert(w[p] as usize == pr.field);
    assert(w[p + 1] == enc_pair(pr)[1]);
    match pr.value {
        ValueModel::Text(t) => {
            assert(w[p + 1] == 0);
            let ec = enc_chars(t);
            assert forall|j: int| 0 <= j < ec.len() implies w[p + 2 + j] == ec[j] by {
                assert(w[p + (2 + j)] == enc_pair(pr)[2 + j]);
                assert(enc_pair(pr)[2 + j] == enc_value(pr.value)[1 + j]);
            }
            assert(window_is(w, p + 2, ec));
            lemma_rt_chars(w, p + 2, t);
        },
        ValueModel::UInt(x) => {
            assert(w[p + 1] == 1);
            assert(w[p + 2] == enc_pair(pr)[2]);
            assert(w[p + 2] == x);
        },
    }
}

proof fn lemma_rt_pairs_n(w: Seq<u64>, p: int, ps: Seq<DocFieldModel>)
    requires
        window_is(w, p, enc_pairs(ps)),
        forall|i: int| 0 <= i < ps.len() ==> pair_fits(#[trigger] ps[i]),
    ensures
        sdec_pairs_n(w, p, ps.len() as int) == Some((ps, p + enc_pairs(ps).len())),
    decreases ps.len(),
{
    if ps.len() > 0 {
        let psd = ps.drop_last();
        lemma_enc_list_snoc_pairs(ps, ps.len() - 1);
        assert(ps.take(ps.len() as int) =~= ps);
        assert(ps.take(ps.len() - 1) =~= psd);
        let ed = enc_pairs(psd);
        let ep = enc_pair(ps.last());
        assert(enc_pairs(ps) == ed + ep);
        assert(forall|j: int| 0 <= j < psd.len() ==> psd[j] == ps[j]);
        assert forall|j: int| 0 <= j < ed.len() implies w[p + j] == ed[j] by {
            assert(w[p + j] == enc_pairs(ps)[j]);
        }
        assert(window_is(w, p, ed));
        lemma_rt_pairs_n(w, p, psd);
        let p1 = p + ed.len();
        assert forall|j: int| 0 <= j < ep.len() implies w[p1 + j] == ep[j] by {
            assert(w[p + (ed.len() + j)] == enc_pairs(ps)[ed.len() + j]);
        }
        assert(window_is(w, p1, ep));
        lemma_rt_pair(w, p1, ps.last());
        assert(psd.push(ps.last()) =~= ps);
    }
}

proof fn lemma_rt_docs_n(w: Seq<u64>, p: int, ds: Seq<Seq<DocFieldModel>>)
    requires
        window_is(w, p, enc_docs(ds)),
        forall|d: int| 0 <= d < ds.len() ==> pairs_fit(#[trigger] ds[d]),
    ensures
        sdec_docs_n(w, p, ds.len() as int) == Some((ds, p + enc_docs(ds).len())),
    decreases ds.len(),
{
    if ds.len() > 0 {
        let dsd = ds.drop_last();
        lemma_enc_list_snoc_docs(ds, ds.len() - 1);
        assert(ds.take(ds.len() as int) =~= ds);
        assert(ds.take(ds.len() - 1) =~= dsd);
        let ed = enc_docs(dsd);
        let last = ds.last();
        let et = seq![last.len() as u64] + enc_pairs(last);
        assert(enc_docs(ds) == ed + et);
        assert(forall|j: int| 0 <= j < dsd.len() ==> dsd[j] == ds[j]);
        assert forall|j: int| 0 <= j < ed.len() implies w[p + j] == ed[j] by {
            assert(w[p + j] == enc_docs(ds)[j]);
        }
        assert(window_is(w, p, ed));
        lemma_rt_docs_n(w, p, dsd);
        let p1 = p + ed.len();
        assert forall|j: int| 0 <= j < et.len() implies w[p1 + j] == et[j] by {
            assert(w[p + (ed.len() + j)] == enc_docs(ds)[ed.len() + j]);
        }
        assert(pairs_fit(ds[ds.len() - 1]));
        let eps = enc_pairs(last);
        assert(et.len() == 1 + eps.len());
        assert(w[p1 + 0] == et[0]);
        assert(et[0] == last.len() as u64);
        assert(w[p1] == last.len() as u64);
        lemma_enc_pairs_len_lb(last);
        assert(last.len() <= eps.len());
        assert(p1 + et.len() <= w.len());
        assert(w[p1] <= w.len());
        assert forall|j: int| 0 <= j < eps.len() implies w[p1 + 1 + j] == eps[j] by {
            assert(w[p1 + (1 + j)] == et[1 + j]);
        }
        assert(window_is(w, p1 + 1, eps));
        lemma_rt_pairs_n(w, p1 + 1, last);
        assert(dsd.push(last) =~= ds);
    }
}

/// Re-opening is exact: the image a commit wrote reads back as the very
/// schema, term mappings and stored documents it was written with — in
/// particular document-ids are never renumbered.
pub proof fn lemma_image_round_trip(
    fs: Seq<FieldModel>,
    inv: Seq<Seq<TermModel>>,
    ds: Seq<Seq<DocFieldModel>>,
)
    requires
        image_fits(fs, inv, ds),
    ensures
        sdec_index(enc_index(fs, inv, ds)) == Some((fs, inv, ds)),
{
    let w = enc_index(fs, inv, ds);
    let ef = enc_fields(fs);
    let ei = enc_inverted(inv);
    let ed = enc_docs(ds);
    assert(w == seq![MAGIC, fs.len() as u64] + ef + ei + seq![ds.len() as u64] + ed);
    assert(w.len() == 2 + ef.len() + ei.len() + 1 + ed.len());
    assert(w[0] == MAGIC);
    assert(w[1] == fs.len() as u64);
    lemma_enc_fields_len_lb(fs);
    assert(w[1] <= w.len());
    assert forall|j: int| 0 <= j < ef.len() implies w[2 + j] == ef[j] by {
        assert(w[2 + j] == (seq![MAGIC, fs.len() as u64] + ef + ei + seq![ds.len() as u64]
            + ed)[2 + j]);
    }
    assert(window_is(w, 2, ef));
    lemma_rt_fields_n(w, 2, fs);
    let p1 = 2 + ef.len() as int;
    assert forall|j: int| 0 <= j < ei.len() implies w[p1 + j] == ei[j] by {
        assert(w[2 + (ef.len() as int + j)] == (seq![MAGIC, fs.len() as u64] + ef + ei + seq![
            ds.len() as u64,
        ] + ed)[2 + ef.len() as int + j]);
    }
    assert(window_is(w, p1, ei));
    lemma_rt_inverted_n(w, p1, inv);
    let p2 = p1 + ei.len() as int;
    assert(w[p2] == ds.len() as u64);
    lemma_enc_docs_len_lb(ds);
    assert(w[p2] <= w.len());
    assert forall|j: int| 0 <= j < ed.len() implies w[p2 + 1 + j] == ed[j] by {
        assert(w[2 + ef.len() as int + ei.len() as int + 1 + j] == (seq![MAGIC, fs.len() as u64] + ef + ei + seq![
            ds.len() as u64,
        ] + ed)[2 + ef.len() as int + ei.len() as int + 1 + j]);
    }
    assert(window_is(w, p2 + 1, ed));
    lemma_rt_docs_n(w, p2 + 1, ds);
    assert(sdec_inverted_n(w, p1, fs.len() as int) == Some((inv, p2)));
}

/// The models of a concrete index always fit an image: every count is the
/// length of a vector.
pub proof fn lemma_index_image_fits(ix: Index)
    requires
        ix.inverted@.len() == ix.schema.spec_fields().len(),
    ensures
        image_fits(ix.schema.spec_fields(), ix.inv_model(), ix.docs_model()),
{
    let fs = ix.schema.spec_fields();
    assert(fs.len() == ix.schema.fields@.len());
    assert(ix.schema.fields@.len() == ix.schema.fields.len());
    assert forall|i: int| 0 <= i < fs.len() implies chars_fit((#[trigger] fs[i]).name) by {
        let nv = ix.schema.fields@[i].name;
        assert(fs[i].name == nv@);
        assert(nv@.len() == nv.len());
    }
    assert forall|f: int| 0 <= f < ix.inv_model().len() implies terms_fit(
        #[trigger] ix.inv_model()[f],
    ) by {
        let tv = ix.inverted@[f];
        assert(ix.inv_model()[f] == term_models(tv@));
        assert(tv@.len() == tv.len());
        assert forall|i: int| 0 <= i < term_models(tv@).len() implies term_fits(
            #[trigger] term_models(tv@)[i],
        ) by {
            let t = tv@[i];
            assert(term_models(tv@)[i] == t.model());
            assert(t.term@.len() == t.term.len());
            assert(t.postings@.len() == t.postings.len());
            assert forall|k: int| 0 <= k < posting_models(t.postings@).len() implies posting_fits(
                #[trigger] posting_models(t.postings@)[k],
            ) by {
                let pe = t.postings@[k];
                assert(posting_models(t.postings@)[k] == pe.model());
                assert(pe.positions@.len() == pe.positions.len());
            }
        }
    }
    assert(ix.docs_model().len() == ix.docs@.len());
    assert(ix.docs@.len() == ix.docs.len());
    assert forall|d: int| 0 <= d < ix.docs_model().len() implies pairs_fit(
        #[trigger] ix.docs_model()[d],
    ) by {
        let dv = ix.docs@[d];
        assert(ix.docs_model()[d] == doc_models(dv@));
        assert(dv@.len() == dv.len());
        assert forall|k: int| 0 <= k < doc_models(dv@).len() implies pair_fits(
            #[trigger] doc_models(dv@)[k],
        ) by {
            let pr = dv@[k];
            assert(doc_models(dv@)[k] == pr.model());
            match pr.value {
                Value::Text(t) => {
                    assert(t@.len() == t.len());
                },
                Value::UInt(_) => {},
            }
        }
    }
}

fn fields_match(a: &Field, b: &Field) -> (r: bool)
    ensures
        r <==> a.model() == b.model(),
{
    let names = crate::chars_eq(&a.name, &b.name);
    let rest = a.ftype == b.ftype && a.policy == b.policy && a.stored == b.stored && a.mode
        == b.mode;
    names && rest
}

/// Opens an image against the schema the caller expects: the index the image
/// holds where its schema equals the given one; `SchemaMismatch` where the
/// image holds an index under a different schema; `NotFound` where the image
/// holds no valid index at all.
pub fn open_with_schema(w: &Vec<u64>, schema: &Schema) -> (r: Result<Index, StorageError>)
    ensures
        w@.len() < 2 || w@[0] != MAGIC ==> r == Err::<Index, StorageError>(StorageError::NotFound),
        match sdec_index(w@) {
            None => r == Err::<Index, StorageError>(StorageError::NotFound),
            Some(m) => {
                if m.0 == schema.spec_fields() {
                    &&& r is Ok
                    &&& r->Ok_0.schema.spec_fields() == m.0
                    &&& r->Ok_0.inv_model() == m.1
                    &&& r->Ok_0.docs_model() == m.2
                } else {
                    r == Err::<Index, StorageError>(StorageError::SchemaMismatch)
                }
            },
        },
{
    let ix = match decode(w) {
        Err(e) => {
            return Err(e);
        },
        Ok(ix) => ix,
    };
    if ix.schema.fields.len() != schema.fields.len() {
        proof {
            assert(ix.schema.spec_fields().len() != schema.spec_fields().len());
        }
        return Err(StorageError::SchemaMismatch);
    }
    let mut i: usize = 0;
    while i < schema.fields.len()
        invariant
            i <= schema.fields@.len(),
            ix.schema.fields@.len() == schema.fields@.len(),
            forall|j: int| 0 <= j < i ==> ix.schema.spec_fields()[j] == schema.spec_fields()[j],
        decreases schema.fields@.len() - i,
    {
        if !fields_match(&ix.schema.fields[i], &schema.fields[i]) {
            proof {
                assert(ix.schema.spec_fields()[i as int] != schema.spec_fields()[i as int]);
                assert(ix.schema.spec_fields() != schema.spec_fields());
            }
            return Err(StorageError::SchemaMismatch);
        }
        i = i + 1;
    }
    proof {
        assert(ix.schema.spec_fields() =~= schema.spec_fields());
    }
    Ok(ix)
}

proof fn lemma_enc_list_snoc_fields(fs: Seq<FieldModel>, i: int)
    requires
        0 <= i < fs.len(),
    ensures
        enc_fields(fs.take(i + 1)) == enc_fields(fs.take(i)) + enc_field(fs[i]),
    decreases i,
{
    if i == 0 {
        assert(fs.take(1)[0] == fs[0]);
        assert(fs.take(1).drop_first() =~= fs.take(0));
        assert(enc_fields(fs.take(0)) =~= Seq::<u64>::empty());
        assert(enc_fields(fs.take(1)) =~= enc_field(fs[0]));
        assert(enc_fields(fs.take(0)) + enc_field(fs[0]) =~= enc_field(fs[0]));
    } else {
        lemma_enc_list_snoc_fields(fs.drop_first(), i - 1);
        assert(fs.take(i + 1)[0] == fs[0]);
        assert(fs.take(i + 1).drop_first() =~= fs.drop_first().take(i));
        assert(fs.take(i).drop_first() =~= fs.drop_first().take(i - 1));
        assert(fs.drop_first()[i - 1] == fs[i]);
        assert(enc_fields(fs.take(i + 1)) =~= enc_fields(fs.take(i)) + enc_field(fs[i]));
    }
}

proof fn lemma_enc_list_snoc_postings(ps: Seq<PostingModel>, i: int)
    requires
        0 <= i < ps.len(),
    ensures
        enc_postings(ps.take(i + 1)) == enc_postings(ps.take(i)) + enc_posting(ps[i]),
    decreases i,
{
    if i == 0 {
        assert(ps.take(1)[0] == ps[0]);
        assert(ps.take(1).drop_first() =~= ps.take(0));
        assert(enc_postings(ps.take(0)) =~= Seq::<u64>::empty());
        assert(enc_postings(ps.take(1)) =~= enc_posting(ps[0]));
        assert(enc_postings(ps.take(0)) + enc_posting(ps[0]) =~= enc_posting(ps[0]));
    } else {
        lemma_enc_list_snoc_postings(ps.drop_first(), i - 1);
        assert(ps.take(i + 1)[0] == ps[0]);
        assert(ps.take(i + 1).drop_first() =~= ps.drop_first().take(i));
        assert(ps.take(i).drop_first() =~= ps.drop_first().take(i - 1));
        assert(ps.drop_first()[i - 1] == ps[i]);
        assert(enc_postings(ps.take(i + 1)) =~= enc_postings(ps.take(i)) + enc_posting(ps[i]));
    }
}

proof fn lemma_enc_list_snoc_terms(ts: Seq<TermModel>, i: int)
    requires
        0 <= i < ts.len(),
    ensures
        enc_terms(ts.take(i + 1)) == enc_terms(ts.take(i)) + enc_term(ts[i]),
    decreases i,
{
    if i == 0 {
        assert(ts.take(1)[0] == ts[0]);
        assert(ts.take(1).drop_first() =~= ts.take(0));
        assert(enc_terms(ts.take(0)) =~= Seq::<u64>::empty());
        assert(enc_terms(ts.take(1)) =~= enc_term(ts[0]));
        assert(enc_terms(ts.take(0)) + enc_term(ts[0]) =~= enc_term(ts[0]));
    } else {
        lemma_enc_list_snoc_terms(ts.drop_first(), i - 1);
        assert(ts.take(i + 1)[0] == ts[0]);
        assert(ts.take(i + 1).drop_first() =~= ts.drop_first().take(i));
        assert(ts.take(i).drop_first() =~= ts.drop_first().take(i - 1));
        assert(ts.drop_first()[i - 1] == ts[i]);
        assert(enc_terms(ts.take(i + 1)) =~= enc_terms(ts.take(i)) + enc_term(ts[i]));
    }
}

proof fn lemma_enc_list_snoc_inverted(inv: Seq<Seq<TermModel>>, i: int)
    requires
        0 <= i < inv.len(),
    ensures
        enc_inverted(inv.take(i + 1)) == enc_inverted(inv.take(i)) + seq![inv[i].len() as u64]
            + enc_terms(inv[i]),
    decreases i,
{
    if i == 0 {
        assert(inv.take(1)[0] == inv[0]);
        assert(inv.take(1).drop_first() =~= inv.take(0));
        assert(enc_inverted(inv.take(0)) =~= Seq::<u64>::empty());
        assert(enc_inverted(inv.take(1)) =~= seq![inv[0].len() as u64] + enc_terms(inv[0]));
        assert(enc_inverted(inv.take(0)) + seq![inv[0].len() as u64] + enc_terms(inv[0]) =~= seq![
            inv[0].len() as u64,
        ] + enc_terms(inv[0]));
    } else {
        lemma_enc_list_snoc_inverted(inv.drop_first(), i - 1);
        assert(inv.take(i + 1)[0] == inv[0]);
        assert(inv.take(i + 1).drop_first() =~= inv.drop_first().take(i));
        assert(inv.take(i).drop_first() =~= inv.drop_first().take(i - 1));
        assert(inv.drop_first()[i - 1] == inv[i]);
        assert(enc_inverted(inv.take(i + 1)) =~= enc_inverted(inv.take(i)) + seq![
            inv[i].len() as u64,
        ] + enc_terms(inv[i]));
    }
}

proof fn lemma_enc_list_snoc_pairs(ps: Seq<DocFieldModel>, i: int)
    requires
        0 <= i < ps.len(),
    ensures
        enc_pairs(ps.take(i + 1)) == enc_pairs(ps.take(i)) + enc_pair(ps[i]),
    decreases i,
{
    if i == 0 {
        assert(ps.take(1)[0] == ps[0]);
        assert(ps.take(1).drop_first() =~= ps.take(0));
        assert(enc_pairs(ps.take(0)) =~= Seq::<u64>::empty());
        assert(enc_pairs(ps.take(1)) =~= enc_pair(ps[0]));
        assert(enc_pairs(ps.take(0)) + enc_pair(ps[0]) =~= enc_pair(ps[0]));
    } else {
        lemma_enc_list_snoc_pairs(ps.drop_first(), i - 1);
        assert(ps.take(i + 1)[0] == ps[0]);
        assert(ps.take(i + 1).drop_first() =~= ps.drop_first().take(i));
        assert(ps.take(i).drop_first() =~= ps.drop_first().take(i - 1));
        assert(ps.drop_first()[i - 1] == ps[i]);
        assert(enc_pairs(ps.take(i + 1)) =~= enc_pairs(ps.take(i)) + enc_pair(ps[i]));
    }
}

proof fn lemma_enc_list_snoc_docs(ds: Seq<Seq<DocFieldModel>>, i: int)
    requires
        0 <= i < ds.len(),
    ensures
        enc_docs(ds.take(i + 1)) == enc_docs(ds.take(i)) + seq![ds[i].len() as u64] + enc_pairs(
            ds[i],
        ),
    decreases i,
{
    if i == 0 {
        assert(ds.take(1)[0] == ds[0]);
        assert(ds.take(1).drop_first() =~= ds.take(0));
        assert(enc_docs(ds.take(0)) =~= Seq::<u64>::empty());
        assert(enc_docs(ds.take(1)) =~= seq![ds[0].len() as u64] + enc_pairs(ds[0]));
        assert(enc_docs(ds.take(0)) + seq![ds[0].len() as u64] + enc_pairs(ds[0]) =~= seq![
            ds[0].len() as u64,
        ] + enc_pairs(ds[0]));
    } else {
        lemma_enc_list_snoc_docs(ds.drop_first(), i - 1);
        assert(ds.take(i + 1)[0] == ds[0]);
        assert(ds.take(i + 1).drop_first() =~= ds.drop_first().take(i));
        assert(ds.take(i).drop_first() =~= ds.drop_first().take(i - 1));
        assert(ds.drop_first()[i - 1] == ds[i]);
        assert(enc_docs(ds.take(i + 1)) =~= enc_docs(ds.take(i)) + seq![ds[i].len() as u64]
            + enc_pairs(ds[i]));
    }
}

} // verus!
