use nango_qa::table::{encode_table, parse_table};
use nango_qa::{decode_model, decode_qa, decode_word_lists, encode_model, encode_word_lists};
use nango_qa::{ModelError, TfIdf};

fn strings(cells: &[&str]) -> Vec<String> {
    cells.iter().map(|s| s.to_string()).collect()
}

#[test]
fn table_encoding_is_always_quoted() {
    let recs = vec![strings(&["a", "b"]), Vec::new()];
    assert_eq!(encode_table(&recs), "\"a\",\"b\"\n\n".to_string());
}

#[test]
fn table_round_trips_awkward_cells() {
    let recs = vec![
        strings(&["plain", "with,comma", "with\"quote"]),
        Vec::new(),
        strings(&[""]),
        strings(&["line\nbreak", "日本語"]),
    ];
    let text = encode_table(&recs);
    assert_eq!(parse_table(&text), Some(recs));
}

#[test]
fn table_parses_bare_cells() {
    assert_eq!(parse_table("x,y\n"), Some(vec![strings(&["x", "y"])]));
    assert_eq!(parse_table(""), Some(Vec::new()));
    assert_eq!(parse_table("a,,b\n"), Some(vec![strings(&["a", "", "b"])]));
}

#[test]
fn table_rejects_bad_framing() {
    // unterminated quote
    assert_eq!(parse_table("\"abc\n"), None);
    // missing final newline
    assert_eq!(parse_table("\"a\""), None);
    // quote inside a bare cell
    assert_eq!(parse_table("a\"b\n"), None);
}

#[test]
fn word_lists_round_trip() {
    let docs = vec![
        strings(&["store", "hours"]),
        Vec::new(),
        strings(&["", "a,b", "c\"d"]),
    ];
    let text = encode_word_lists(&docs);
    assert_eq!(decode_word_lists(&text), Ok(docs));
}

#[test]
fn word_lists_reject_bad_text() {
    assert_eq!(decode_word_lists("\"oops\n"), Err(ModelError::ModelDecode));
}

#[test]
fn model_round_trips_through_its_table() {
    let docs = vec![
        strings(&["store", "hours"]),
        strings(&["return", "policy"]),
        strings(&["hours", "today"]),
    ];
    let m = TfIdf::get_tf_idf(&docs);
    let text = encode_model(&m);
    let m2 = decode_model(&text).unwrap();
    assert_eq!(m.word_vec, m2.word_vec);
    assert_eq!(m.doc_freq, m2.doc_freq);
    assert_eq!(m.tf_idf_vec, m2.tf_idf_vec);
}

#[test]
fn empty_model_round_trips() {
    let m = TfIdf::get_tf_idf(&Vec::new());
    let text = encode_model(&m);
    assert_eq!(text, "\"id\"\n\"df\"\n".to_string());
    let m2 = decode_model(&text).unwrap();
    assert!(m2.word_vec.is_empty());
    assert!(m2.doc_freq.is_empty());
    assert!(m2.tf_idf_vec.is_empty());
}

#[test]
fn model_table_accepts_bare_cells() {
    let m = decode_model("id,w\ndf,1\n0,404\n").unwrap();
    assert_eq!(m.word_vec, strings(&["w"]));
    assert_eq!(m.doc_freq, vec![1]);
    assert_eq!(m.tf_idf_vec, vec![vec![404]]);
}

#[test]
fn model_table_rejects_malformed_layouts() {
    // too few rows
    assert_eq!(decode_model("id,w\n").err(), Some(ModelError::ModelDecode));
    // wrong header cell
    assert_eq!(decode_model("x,w\ndf,1\n").err(), Some(ModelError::ModelDecode));
    // wrong frequency-row cell
    assert_eq!(decode_model("id,w\nxx,1\n").err(), Some(ModelError::ModelDecode));
    // width mismatch in the frequency row
    assert_eq!(decode_model("id,w\ndf\n").err(), Some(ModelError::ModelDecode));
    // duplicate vocabulary term
    assert_eq!(decode_model("id,w,w\ndf,1,1\n").err(), Some(ModelError::ModelDecode));
    // non-numeric weight cell
    assert_eq!(decode_model("id,w\ndf,1\n0,x4\n").err(), Some(ModelError::ModelDecode));
    // a weight row carrying the wrong id
    assert_eq!(decode_model("id,w\ndf,1\n7,404\n").err(), Some(ModelError::ModelDecode));
    // a weight row of the wrong width
    assert_eq!(decode_model("id,w\ndf,1\n0,1,2\n").err(), Some(ModelError::ModelDecode));
    // not a table at all
    assert_eq!(decode_model("\"broken").err(), Some(ModelError::ModelDecode));
}

#[test]
fn qa_table_projects_questions_and_answers() {
    let recs = vec![
        strings(&["0", "meta", "9 to 5", "store hours"]),
        strings(&["1", "meta", "30 days", "return policy"]),
    ];
    let text = encode_table(&recs);
    let qa = decode_qa(&text).unwrap();
    assert_eq!(qa.que_vec, strings(&["store hours", "return policy"]));
    assert_eq!(qa.ans_vec, strings(&["9 to 5", "30 days"]));
}

#[test]
fn qa_table_rejects_short_records() {
    let text = encode_table(&vec![strings(&["only", "three", "cells"])]);
    assert_eq!(decode_qa(&text).err(), Some(ModelError::CorpusRead));
    assert_eq!(decode_qa("\"broken").err(), Some(ModelError::CorpusRead));
}

#[test]
fn error_kinds_have_messages() {
    assert_eq!(ModelError::CorpusRead.message(), "corpus source is missing or malformed");
    assert_eq!(ModelError::ModelDecode.message(), "persisted model table is malformed");
    assert_eq!(ModelError::EmptyQuery.message(), "query text is empty");
    assert_eq!(ModelError::Tokenization.message(), "tokenization failed");
}

#[test]
fn negative_weights_round_trip() {
    let docs = vec![strings(&["a"])];
    let m = TfIdf::get_tf_idf(&docs);
    assert_eq!(m.tf_idf_vec, vec![vec![-693]]);
    let text = encode_model(&m);
    assert_eq!(text, "\"id\",\"a\"\n\"df\",\"1\"\n\"0\",\"-693\"\n".to_string());
    let m2 = decode_model(&text).unwrap();
    assert_eq!(m2.tf_idf_vec, vec![vec![-693]]);
}
