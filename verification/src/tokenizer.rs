//! Script-aware tokenization: turns raw text into a sequence of normalized
//! terms. Unicode mode splits on word-character boundaries — a word here is a
//! maximal run of alphanumeric characters, so mid-word punctuation splits a
//! word — and folds case through the Unicode lowercase mapping; CJK mode
//! segments with a dictionary-based word segmenter and then applies the same
//! normalization to each segment.
//!
//! A term's position is its index in the returned sequence: positions are
//! 0-based term-occurrence indices within the field value.

use vstd::prelude::*;
use crate::seq_views;

verus! {

/// Which segmentation strategy a text field uses. A field is bound to one
/// fixed mode when it is declared; the mode is never auto-detected per call.
#[derive(Clone, Copy, PartialEq, Eq, Structural, Debug)]
pub enum ScriptMode {
    /// Dictionary-based CJK word segmentation.
    Cjk,
    /// Splitting on word-character boundaries.
    Unicode,
}

/// The word-character class, as `char::is_alphanumeric` decides it.
pub uninterp spec fn alnum_class(c: char) -> bool;

/// Relies on `char::is_alphanumeric`: true exactly for alphabetic and numeric
/// code points, a fixed classification per character; on ASCII these are the
/// letters and digits.
#[verifier::external_body]
fn is_alnum(c: char) -> (r: bool)
    ensures
        r == alnum_class(c),
        (c as u32) < 128 ==> (r <==> ((97 <= (c as u32) && (c as u32) <= 122) || (65 <= (c as u32)
            && (c as u32) <= 90) || (48 <= (c as u32) && (c as u32) <= 57))),
{
    c.is_alphanumeric()
}

/// Relies on `char::from_u32`: returns the character for exactly the Unicode
/// scalar values, and nothing otherwise.
#[verifier::external_body]
pub(crate) fn char_from_u32(u: u32) -> (r: Option<char>)
    ensures
        vstd::utf8::is_scalar(u) ==> r == Some(u as char),
        !vstd::utf8::is_scalar(u) ==> r is None,
{
    char::from_u32(u)
}

/// What the Unicode lowercase mapping yields for a character sequence: a pure
/// function of the characters alone.
pub uninterp spec fn lower_of(s: Seq<char>) -> Seq<char>;

/// Relies on `str::to_lowercase`: the Unicode lowercase mapping, which depends
/// on the characters alone; an empty text stays empty.
#[verifier::external_body]
fn lowercase(t: &Vec<char>) -> (r: Vec<char>)
    ensures
        r@ == lower_of(t@),
        t@.len() == 0 ==> r@.len() == 0,
{
    let s: String = t.iter().collect();
    s.to_lowercase().chars().collect()
}

/// Whether a segment holds at least one word character; segments without one
/// (whitespace, punctuation) produce no term.
pub open spec fn has_alnum(t: Seq<char>) -> bool {
    exists|j: int| 0 <= j < t.len() && alnum_class(t[j])
}

/// The words of Unicode-mode segmentation: the maximal runs of word
/// characters, in text order, not yet case-folded.
pub open spec fn unicode_runs(s: Seq<char>) -> Seq<Seq<char>>
    decreases s.len(),
{
    if s.len() == 0 {
        seq![]
    } else {
        let rest = unicode_runs(s.drop_last());
        let c = s.last();
        if !alnum_class(c) {
            rest
        } else if s.len() >= 2 && alnum_class(s[s.len() - 2]) {
            rest.update(rest.len() - 1, rest.last().push(c))
        } else {
            rest.push(seq![c])
        }
    }
}

/// What the CJK word segmenter returns for a character sequence. The
/// segmentation is a pure function of the input: the segmenter's dictionary
/// is bundled with it and never changes.
pub uninterp spec fn cjk_segments(s: Seq<char>) -> Seq<Seq<char>>;

#[verifier::external_type_specification]
#[verifier::external_body]
pub struct ExJieba(jieba_rs::Jieba);

/// Relies on `jieba_rs::Jieba::new`: builds the segmenter from the bundled
/// default dictionary.
#[verifier::external_body]
fn new_segmenter() -> jieba_rs::Jieba {
    jieba_rs::Jieba::new()
}

/// Relies on `jieba_rs::Jieba::cut` in plain dictionary mode (no HMM): a
/// deterministic segmentation of the input into consecutive substrings, and no
/// segments for empty input. Every segmenter this crate builds carries the
/// same bundled dictionary, so the segmentation depends on the input alone.
#[verifier::external_body]
fn cut_segments(segmenter: &jieba_rs::Jieba, text: &Vec<char>) -> (r: Vec<Vec<char>>)
    ensures
        seq_views(r@) == cjk_segments(text@),
        text@.len() == 0 ==> r@.len() == 0,
{
    let s: String = text.iter().collect();
    segmenter.cut(&s, false).into_iter().map(|t| t.word.chars().collect()).collect()
}

/// The terms of CJK-mode tokenization: the segmenter's segments, those without
/// a word character dropped, the rest case-folded, in text order.
pub open spec fn normalize_segments(segs: Seq<Seq<char>>) -> Seq<Seq<char>>
    decreases segs.len(),
{
    if segs.len() == 0 {
        seq![]
    } else {
        let rest = normalize_segments(segs.drop_last());
        if has_alnum(segs.last()) {
            rest.push(lower_of(segs.last()))
        } else {
            rest
        }
    }
}

/// The terms a text yields in a given mode; the term at index `k` has
/// position `k`.
pub open spec fn mode_tokens(mode: ScriptMode, s: Seq<char>) -> Seq<Seq<char>> {
    match mode {
        ScriptMode::Unicode => unicode_runs(s).map_values(|t: Seq<char>| lower_of(t)),
        ScriptMode::Cjk => normalize_segments(cjk_segments(s)),
    }
}

fn term_has_alnum(t: &Vec<char>) -> (r: bool)
    ensures
        r == has_alnum(t@),
{
    let mut i: usize = 0;
    while i < t.len()
        invariant
            i <= t@.len(),
            forall|j: int| 0 <= j < i ==> !alnum_class(t@[j]),
        decreases t@.len() - i,
    {
        if is_alnum(t[i]) {
            return true;
        }
        i = i + 1;
    }
    false
}

fn unicode_split(text: &Vec<char>) -> (r: Vec<Vec<char>>)
    ensures
        seq_views(r@) == unicode_runs(text@),
{
    let mut toks: Vec<Vec<char>> = Vec::new();
    let mut cur: Vec<char> = Vec::new();
    let mut i: usize = 0;
    while i < text.len()
        invariant
            i <= text@.len(),
            (cur@.len() > 0) <==> (i > 0 && alnum_class(text@[i as int - 1])),
            cur@.len() > 0 ==> unicode_runs(text@.take(i as int)) == seq_views(toks@).push(cur@),
            cur@.len() == 0 ==> unicode_runs(text@.take(i as int)) == seq_views(toks@),
        decreases text@.len() - i,
    {
        let ghost pre = text@.take(i as int);
        let ghost post = text@.take(i as int + 1);
        proof {
            assert(post.drop_last() =~= pre);
            assert(post.last() == text@[i as int]);
        }
        let c = text[i];
        if is_alnum(c) {
            if cur.len() > 0 {
                let ghost rest = unicode_runs(pre);
                proof {
                    assert(post.len() >= 2 && alnum_class(post[post.len() - 2]));
                    assert(rest.last() == cur@);
                    assert(rest.update(rest.len() - 1, cur@.push(text@[i as int]))
                        =~= seq_views(toks@).push(cur@.push(text@[i as int])));
                }
                cur.push(c);
            } else {
                cur.push(c);
                proof {
                    assert(cur@ =~= seq![text@[i as int]]);
                }
            }
        } else {
            if cur.len() > 0 {
                let ghost old_toks = toks@;
                let ghost old_cur = cur@;
                toks.push(cur);
                cur = Vec::new();
                proof {
                    assert(seq_views(toks@) =~= seq_views(old_toks).push(old_cur));
                }
            }
        }
        i = i + 1;
    }
    proof {
        assert(text@.take(text@.len() as int) =~= text@);
    }
    if cur.len() > 0 {
        let ghost old_toks = toks@;
        let ghost old_cur = cur@;
        toks.push(cur);
        proof {
            assert(seq_views(toks@) =~= seq_views(old_toks).push(old_cur));
        }
    }
    toks
}

fn normalize_exec(segs: Vec<Vec<char>>) -> (r: Vec<Vec<char>>)
    ensures
        seq_views(r@) == normalize_segments(seq_views(segs@)),
{
    let mut out: Vec<Vec<char>> = Vec::new();
    let mut i: usize = 0;
    while i < segs.len()
        invariant
            i <= segs@.len(),
            seq_views(out@) == normalize_segments(seq_views(segs@).take(i as int)),
        decreases segs@.len() - i,
    {
        let ghost pre = seq_views(segs@).take(i as int);
        let ghost post = seq_views(segs@).take(i as int + 1);
        proof {
            assert(post.drop_last() =~= pre);
            assert(post.last() == segs@[i as int]@);
        }
        if term_has_alnum(&segs[i]) {
            let ghost old_out = out@;
            let folded = lowercase(&segs[i]);
            out.push(folded);
            proof {
                assert(seq_views(out@) =~= seq_views(old_out).push(lower_of(segs@[i as int]@)));
            }
        }
        i = i + 1;
    }
    proof {
        assert(seq_views(segs@).take(segs@.len() as int) =~= seq_views(segs@));
    }
    out
}

fn lower_all(runs: Vec<Vec<char>>) -> (r: Vec<Vec<char>>)
    ensures
        seq_views(r@) == seq_views(runs@).map_values(|t: Seq<char>| lower_of(t)),
{
    let ghost target = seq_views(runs@).map_values(|t: Seq<char>| lower_of(t));
    let mut out: Vec<Vec<char>> = Vec::new();
    let n = runs.len();
    let mut i: usize = 0;
    while i < n
        invariant
            i <= n,
            n == runs@.len(),
            target == seq_views(runs@).map_values(|t: Seq<char>| lower_of(t)),
            seq_views(out@) == target.take(i as int),
        decreases n - i,
    {
        let ghost old_out = out@;
        let low = lowercase(&runs[i]);
        out.push(low);
        proof {
            assert(target.take(i as int + 1).drop_last() =~= target.take(i as int));
            assert(target[i as int] == lower_of(runs@[i as int]@));
            assert(seq_views(out@) =~= seq_views(old_out).push(lower_of(runs@[i as int]@)));
            assert(seq_views(out@) =~= target.take(i as int + 1));
        }
        i = i + 1;
    }
    proof {
        assert(target.take(n as int) =~= target);
    }
    out
}

/// The tokenizer configuration object both the writer and the query engine
/// receive: one shared CJK segmenter plus the pure Unicode-mode splitter.
pub struct Tokenizer {
    segmenter: jieba_rs::Jieba,
}

impl Tokenizer {
    /// Builds a tokenizer whose CJK segmenter carries the bundled default
    /// dictionary.
    pub fn new() -> (t: Tokenizer) {
        Tokenizer { segmenter: new_segmenter() }
    }

    /// Tokenizes a text in the given mode. The result is a pure function of
    /// the text and the mode: the term at index `k` stands at position `k`.
    pub fn tokenize(&self, text: &Vec<char>, mode: ScriptMode) -> (r: Vec<Vec<char>>)
        ensures
            seq_views(r@) == mode_tokens(mode, text@),
    {
        match mode {
            ScriptMode::Unicode => {
                let runs = unicode_split(text);
                lower_all(runs)
            },
            ScriptMode::Cjk => {
                let segs = cut_segments(&self.segmenter, text);
                normalize_exec(segs)
            },
        }
    }
}

/// Tokenization is idempotent: two runs over the same text in the same mode
/// yield identical term sequences.
pub proof fn lemma_tokenize_idempotent(
    mode: ScriptMode,
    s: Seq<char>,
    r1: Seq<Seq<char>>,
    r2: Seq<Seq<char>>,
)
    requires
        r1 == mode_tokens(mode, s),
        r2 == mode_tokens(mode, s),
    ensures
        r1 == r2,
{
}

} // verus!
