use cjk_search::chars_eq;
use cjk_search::codec::{decode, encode, open_with_schema, StorageError};
use cjk_search::query::{parse, search, QueryError};
use cjk_search::schema::{Field, FieldType, IndexPolicy, Schema, SchemaBuilder, SchemaError};
use cjk_search::store::{DocField, Value};
use cjk_search::tokenizer::{ScriptMode, Tokenizer};
use cjk_search::writer::{AddError, Writer};

fn chars(s: &str) -> Vec<char> {
    s.chars().collect()
}

fn field(name: &str, ftype: FieldType, policy: IndexPolicy, stored: bool, mode: ScriptMode) -> Field {
    Field { name: chars(name), ftype, policy, stored, mode }
}

/// A bibliographic schema: a CJK-tokenized stored title and a
/// stored unsigned-integer year.
fn title_year_schema() -> Schema {
    let mut b = SchemaBuilder::new();
    b.add_field(field("title", FieldType::Text, IndexPolicy::Positions, true, ScriptMode::Cjk));
    b.add_field(field("year", FieldType::UInt, IndexPolicy::NotIndexed, true, ScriptMode::Unicode));
    b.build().unwrap()
}

fn text(s: &str) -> Value {
    Value::Text(chars(s))
}

#[test]
fn cjk_title_query_finds_document() {
    let tok = Tokenizer::new();
    let schema = title_year_schema();
    let mut w = Writer::open(schema, tok);
    let doc = vec![
        DocField { field: 0, value: text("人工智能导论") },
        DocField { field: 1, value: Value::UInt(2020) },
    ];
    assert!(w.add(doc).is_ok());
    let ix = w.commit();
    let tok2 = Tokenizer::new();
    let q = parse(&ix.schema, &tok2, &chars("title:人工智能"), &vec![0]).unwrap();
    let hits = search(&ix, &q, 50);
    assert!(hits.iter().any(|h| h.doc == 0));
    let stored = ix.stored_values(0).unwrap();
    assert_eq!(stored.len(), 2);
    match &stored[0].value {
        Value::Text(t) => assert!(chars_eq(t, &chars("人工智能导论"))),
        _ => panic!("title must be stored as text"),
    }
    match &stored[1].value {
        Value::UInt(x) => assert_eq!(*x, 2020),
        _ => panic!("year must be stored as an unsigned integer"),
    }
}

#[test]
fn mismatched_value_is_skipped_and_batch_continues() {
    let tok = Tokenizer::new();
    let schema = title_year_schema();
    let mut w = Writer::open(schema, tok);
    let bad = vec![
        DocField { field: 0, value: text("broken record") },
        DocField { field: 1, value: text("not a number") },
    ];
    assert_eq!(w.add(bad), Err(AddError::TypeMismatch));
    let good = vec![
        DocField { field: 0, value: text("清史") },
        DocField { field: 1, value: Value::UInt(1928) },
    ];
    assert!(w.add(good).is_ok());
    let ix = w.commit();
    assert_eq!(ix.num_docs(), 1);
    assert!(ix.stored_values(0).is_some());
    assert!(ix.stored_values(1).is_none());
}

#[test]
fn unknown_field_query_fails_with_no_results() {
    let tok = Tokenizer::new();
    let schema = title_year_schema();
    let w = Writer::open(schema, tok);
    let ix = w.commit();
    let tok2 = Tokenizer::new();
    let r = parse(&ix.schema, &tok2, &chars("missing:term"), &vec![0]);
    assert_eq!(r.err(), Some(QueryError::UnknownField));
}

#[test]
fn malformed_query_is_rejected() {
    let tok = Tokenizer::new();
    let schema = title_year_schema();
    let w = Writer::open(schema, tok);
    let ix = w.commit();
    let tok2 = Tokenizer::new();
    assert_eq!(
        parse(&ix.schema, &tok2, &chars("title:"), &vec![0]).err(),
        Some(QueryError::QueryParse)
    );
    assert_eq!(
        parse(&ix.schema, &tok2, &chars(":term"), &vec![0]).err(),
        Some(QueryError::QueryParse)
    );
    assert_eq!(
        parse(&ix.schema, &tok2, &chars("year:1999"), &vec![0]).err(),
        Some(QueryError::QueryParse)
    );
}

fn latin_schema() -> Schema {
    let mut b = SchemaBuilder::new();
    b.add_field(field("title", FieldType::Text, IndexPolicy::Positions, true, ScriptMode::Unicode));
    b.build().unwrap()
}

#[test]
fn limit_caps_results_highest_first() {
    let tok = Tokenizer::new();
    let mut w = Writer::open(latin_schema(), tok);
    for i in 0..200usize {
        // Every document matches "common"; later documents repeat it more
        // often and must score higher.
        let mut body = String::new();
        for _ in 0..(i / 40 + 1) {
            body.push_str("common ");
        }
        let doc = vec![DocField { field: 0, value: Value::Text(body.chars().collect()) }];
        assert!(w.add(doc).is_ok());
    }
    let ix = w.commit();
    let tok2 = Tokenizer::new();
    let q = parse(&ix.schema, &tok2, &chars("common"), &vec![0]).unwrap();
    let hits = search(&ix, &q, 50);
    assert_eq!(hits.len(), 50);
    for p in 1..hits.len() {
        assert!(
            hits[p - 1].score > hits[p].score
                || (hits[p - 1].score == hits[p].score && hits[p - 1].doc < hits[p].doc)
        );
    }
    // The most repetitive documents come first.
    assert!(hits[0].score >= hits[49].score);
    assert_eq!(hits[0].doc, 160);
}

#[test]
fn equal_scores_order_by_ascending_document_id() {
    let tok = Tokenizer::new();
    let mut w = Writer::open(latin_schema(), tok);
    for _ in 0..5 {
        let doc = vec![DocField { field: 0, value: text("same words here") }];
        assert!(w.add(doc).is_ok());
    }
    let ix = w.commit();
    let tok2 = Tokenizer::new();
    let q = parse(&ix.schema, &tok2, &chars("words"), &vec![0]).unwrap();
    let hits = search(&ix, &q, 10);
    assert_eq!(hits.len(), 5);
    for p in 0..hits.len() {
        assert_eq!(hits[p].doc, p);
    }
    for p in 1..hits.len() {
        assert_eq!(hits[p].score, hits[0].score);
    }
}

#[test]
fn opening_uncommitted_storage_fails_not_found() {
    assert_eq!(decode(&Vec::new()).err(), Some(StorageError::NotFound));
    let schema = title_year_schema();
    assert_eq!(
        open_with_schema(&Vec::new(), &schema).err(),
        Some(StorageError::NotFound)
    );
}

#[test]
fn schema_mismatch_is_detected_at_open() {
    let tok = Tokenizer::new();
    let w = Writer::open(title_year_schema(), tok);
    let ix = w.commit();
    let image = encode(&ix);
    assert_eq!(
        open_with_schema(&image, &latin_schema()).err(),
        Some(StorageError::SchemaMismatch)
    );
    assert!(open_with_schema(&image, &title_year_schema()).is_ok());
}

#[test]
fn reopening_preserves_documents_and_results() {
    let tok = Tokenizer::new();
    let mut w = Writer::open(latin_schema(), tok);
    assert!(w.add(vec![DocField { field: 0, value: text("first title") }]).is_ok());
    assert!(w.add(vec![DocField { field: 0, value: text("second title") }]).is_ok());
    let ix = w.commit();
    let image = encode(&ix);
    let ix2 = decode(&image).unwrap();
    assert_eq!(ix2.num_docs(), 2);
    for d in 0..2usize {
        let a = ix.stored_values(d).unwrap();
        let b = ix2.stored_values(d).unwrap();
        assert_eq!(a.len(), b.len());
        match (&a[0].value, &b[0].value) {
            (Value::Text(x), Value::Text(y)) => assert!(chars_eq(x, y)),
            _ => panic!("stored titles must both be text"),
        }
    }
    let tok2 = Tokenizer::new();
    let q1 = parse(&ix.schema, &tok2, &chars("second"), &vec![0]).unwrap();
    let h1 = search(&ix, &q1, 10);
    let q2 = parse(&ix2.schema, &tok2, &chars("second"), &vec![0]).unwrap();
    let h2 = search(&ix2, &q2, 10);
    assert_eq!(h1, h2);
    assert_eq!(h1.len(), 1);
    assert_eq!(h1[0].doc, 1);
}

#[test]
fn tokenizing_twice_gives_identical_terms() {
    let tok = Tokenizer::new();
    let a = tok.tokenize(&chars("Hello, CJK 搜索引擎 World"), ScriptMode::Unicode);
    let b = tok.tokenize(&chars("Hello, CJK 搜索引擎 World"), ScriptMode::Unicode);
    assert_eq!(a, b);
    let c = tok.tokenize(&chars("人工智能导论"), ScriptMode::Cjk);
    let d = tok.tokenize(&chars("人工智能导论"), ScriptMode::Cjk);
    assert_eq!(c, d);
}

#[test]
fn unicode_tokens_fold_case_and_split_on_word_boundaries() {
    let tok = Tokenizer::new();
    let toks = tok.tokenize(&chars("Hello, World-2024!"), ScriptMode::Unicode);
    let views: Vec<String> = toks.iter().map(|t| t.iter().collect()).collect();
    assert_eq!(views, vec!["hello".to_string(), "world".to_string(), "2024".to_string()]);
    assert!(tok.tokenize(&chars("   ,.! "), ScriptMode::Unicode).is_empty());
}

#[test]
fn repeated_query_returns_identical_results() {
    let tok = Tokenizer::new();
    let mut w = Writer::open(latin_schema(), tok);
    assert!(w.add(vec![DocField { field: 0, value: text("alpha beta gamma") }]).is_ok());
    assert!(w.add(vec![DocField { field: 0, value: text("beta beta delta") }]).is_ok());
    let ix = w.commit();
    let tok2 = Tokenizer::new();
    let q = parse(&ix.schema, &tok2, &chars("beta delta"), &vec![0]).unwrap();
    let first = search(&ix, &q, 10);
    let again = search(&ix, &q, 10);
    assert_eq!(first, again);
    assert_eq!(first[0].doc, 1);
    // No results is not an error: an unmatched term yields an empty sequence.
    let none = parse(&ix.schema, &tok2, &chars("unseen"), &vec![0]).unwrap();
    assert!(search(&ix, &none, 10).is_empty());
}

#[test]
fn duplicate_field_names_fail_at_build() {
    let mut b = SchemaBuilder::new();
    b.add_field(field("title", FieldType::Text, IndexPolicy::Positions, true, ScriptMode::Unicode));
    b.add_field(field("title", FieldType::Text, IndexPolicy::Exact, false, ScriptMode::Unicode));
    assert_eq!(b.build().err(), Some(SchemaError::DuplicateField));
}

#[test]
fn schema_lookup_resolves_names() {
    let schema = title_year_schema();
    assert_eq!(schema.get_field(&chars("year")), Ok(1));
    assert_eq!(schema.get_field(&chars("pages")), Err(SchemaError::UnknownField));
}

#[test]
fn exact_match_field_indexes_whole_value() {
    let tok = Tokenizer::new();
    let mut b = SchemaBuilder::new();
    b.add_field(field("extension", FieldType::Text, IndexPolicy::Exact, true, ScriptMode::Unicode));
    let schema = b.build().unwrap();
    let mut w = Writer::open(schema, tok);
    assert!(w.add(vec![DocField { field: 0, value: text("pdf") }]).is_ok());
    assert!(w.add(vec![DocField { field: 0, value: text("epub") }]).is_ok());
    let ix = w.commit();
    let tok2 = Tokenizer::new();
    let q = parse(&ix.schema, &tok2, &chars("extension:epub"), &Vec::new()).unwrap();
    let hits = search(&ix, &q, 10);
    assert_eq!(hits.len(), 1);
    assert_eq!(hits[0].doc, 1);
}

#[test]
fn repeated_field_in_document_is_rejected() {
    let tok = Tokenizer::new();
    let mut w = Writer::open(latin_schema(), tok);
    let doc = vec![
        DocField { field: 0, value: text("one") },
        DocField { field: 0, value: text("two") },
    ];
    assert_eq!(w.add(doc), Err(AddError::RepeatedField));
    let doc2 = vec![DocField { field: 7, value: text("out of range") }];
    assert_eq!(w.add(doc2), Err(AddError::NoSuchField));
}

#[test]
fn unstored_fields_stay_out_of_stored_values() {
    let tok = Tokenizer::new();
    let mut b = SchemaBuilder::new();
    b.add_field(field("title", FieldType::Text, IndexPolicy::Positions, true, ScriptMode::Unicode));
    b.add_field(field("notes", FieldType::Text, IndexPolicy::Positions, false, ScriptMode::Unicode));
    let schema = b.build().unwrap();
    let mut w = Writer::open(schema, tok);
    let doc = vec![
        DocField { field: 0, value: text("kept verbatim") },
        DocField { field: 1, value: text("searchable only") },
    ];
    assert!(w.add(doc).is_ok());
    let ix = w.commit();
    let stored = ix.stored_values(0).unwrap();
    assert_eq!(stored.len(), 1);
    assert_eq!(stored[0].field, 0);
    match &stored[0].value {
        Value::Text(t) => assert!(chars_eq(t, &chars("kept verbatim"))),
        _ => panic!("the stored field must keep its text"),
    }
    // The unstored field is still searchable.
    let tok2 = Tokenizer::new();
    let q = parse(&ix.schema, &tok2, &chars("notes:searchable"), &vec![0]).unwrap();
    let hits = search(&ix, &q, 10);
    assert_eq!(hits.len(), 1);
}

#[test]
fn score_follows_the_scaled_tf_idf_formula() {
    // One document, one matching term occurring twice: tf = 2, df = 1, N = 1,
    // so the score is 2 * (1000 * (1 + 1) / (1 + 1)) = 2000.
    let tok = Tokenizer::new();
    let mut w = Writer::open(latin_schema(), tok);
    assert!(w.add(vec![DocField { field: 0, value: text("twice and twice") }]).is_ok());
    let ix = w.commit();
    let tok2 = Tokenizer::new();
    let q = parse(&ix.schema, &tok2, &chars("twice"), &vec![0]).unwrap();
    let hits = search(&ix, &q, 10);
    assert_eq!(hits.len(), 1);
    assert_eq!(hits[0].score, 2000);
}

#[test]
fn case_folding_covers_accented_letters() {
    let tok = Tokenizer::new();
    let mut w = Writer::open(latin_schema(), tok);
    assert!(w.add(vec![DocField { field: 0, value: text("Éole et Ærøskøbing") }]).is_ok());
    let ix = w.commit();
    let tok2 = Tokenizer::new();
    let q = parse(&ix.schema, &tok2, &chars("éole"), &vec![0]).unwrap();
    let hits = search(&ix, &q, 10);
    assert_eq!(hits.len(), 1);
    assert_eq!(hits[0].doc, 0);
    let q2 = parse(&ix.schema, &tok2, &chars("ærøskøbing"), &vec![0]).unwrap();
    assert_eq!(search(&ix, &q2, 10).len(), 1);
}
