use nango_qa::{filter_matches, split_tokens, str_eq, Similarity, TfIdf};

fn tokens_of(text: &str) -> Vec<String> {
    split_tokens(text)
}

fn corpus(texts: &[&str]) -> Vec<Vec<String>> {
    texts.iter().map(|t| tokens_of(t)).collect()
}

#[test]
fn split_tokens_splits_on_single_spaces() {
    assert_eq!(tokens_of("store hours"), vec!["store".to_string(), "hours".to_string()]);
    assert_eq!(tokens_of(""), vec!["".to_string()]);
    assert_eq!(
        tokens_of("a  b"),
        vec!["a".to_string(), "".to_string(), "b".to_string()],
    );
}

#[test]
fn str_eq_compares_characters() {
    assert!(str_eq("abc", "abc"));
    assert!(!str_eq("abc", "abd"));
    assert!(!str_eq("abc", "ab"));
    assert!(str_eq("日本語", "日本語"));
}

#[test]
fn training_shapes_match_the_corpus() {
    let docs = corpus(&["store hours", "return policy", "hours today"]);
    let m = TfIdf::get_tf_idf(&docs);
    assert_eq!(m.tf_idf_vec.len(), docs.len());
    for row in &m.tf_idf_vec {
        assert_eq!(row.len(), m.word_vec.len());
    }
    assert_eq!(m.doc_freq.len(), m.word_vec.len());
    assert_eq!(
        m.word_vec,
        vec![
            "store".to_string(),
            "hours".to_string(),
            "return".to_string(),
            "policy".to_string(),
            "today".to_string(),
        ],
    );
    assert_eq!(m.doc_freq, vec![1, 2, 1, 1, 1]);
    // idf("store") = ln(3 / 2) in thousandths; "hours" is in two of three
    // documents, so ln(3 / 3) = 0
    assert_eq!(m.tf_idf_vec[0], vec![404, 0, 0, 0, 0]);
    assert_eq!(m.tf_idf_vec[1], vec![0, 0, 404, 404, 0]);
    assert_eq!(m.tf_idf_vec[2], vec![0, 0, 0, 0, 404]);
}

#[test]
fn three_document_query_matches_its_own_document() {
    let docs = corpus(&["store hours", "return policy", "hours today"]);
    let m = TfIdf::get_tf_idf(&docs);
    let scores = m.predict(&tokens_of("store hours"));
    assert_eq!(scores.len(), 3);
    assert_eq!(scores[0].0, 0);
    assert_eq!(scores[1].0, 1);
    assert_eq!(scores[2].0, 2);
    // the query projects onto exactly document 0's row: cosine exactly one
    let s0 = scores[0].1;
    assert!(s0.dot > 0);
    assert_eq!(s0.dot * s0.dot, s0.query_norm_sq * s0.row_norm_sq);
    // no shared weighted term with the other documents
    assert_eq!(scores[1].1.dot, 0);
    assert_eq!(scores[2].1.dot, 0);
    let kept = filter_matches(&scores, 3, 10);
    assert_eq!(kept.len(), 1);
    assert_eq!(kept[0].0, 0);
}

#[test]
fn two_document_corpus_weighs_every_term_to_nothing() {
    // with two documents every term has df 1, and ln(2 / (1 + 1)) == 0, so
    // the whole matrix is zero and nothing can pass a positive threshold
    let docs = corpus(&["store hours", "return policy"]);
    let m = TfIdf::get_tf_idf(&docs);
    assert_eq!(m.tf_idf_vec[0], vec![0, 0, 0, 0]);
    assert_eq!(m.tf_idf_vec[1], vec![0, 0, 0, 0]);
    let scores = m.predict(&tokens_of("store hours"));
    assert_eq!(scores.len(), 2);
    assert_eq!(scores[0].1.dot, 0);
    assert_eq!(scores[1].1.dot, 0);
    let kept = filter_matches(&scores, 3, 10);
    assert!(kept.is_empty());
}

#[test]
fn out_of_vocabulary_query_scores_zero_everywhere() {
    let docs = corpus(&["store hours", "return policy", "hours today"]);
    let m = TfIdf::get_tf_idf(&docs);
    let scores = m.predict(&tokens_of("pizza delivery"));
    assert_eq!(scores.len(), 3);
    for (_, s) in &scores {
        assert_eq!(s.dot, 0);
        assert_eq!(s.query_norm_sq, 0);
        assert!(!s.passes(3, 10));
    }
    let kept = filter_matches(&scores, 3, 10);
    assert!(kept.is_empty());
}

#[test]
fn retraining_only_extends_the_vocabulary() {
    let docs2 = corpus(&["store hours", "return policy"]);
    let docs3 = corpus(&["store hours", "return policy", "hours today"]);
    let m2 = TfIdf::get_tf_idf(&docs2);
    let m3 = TfIdf::get_tf_idf(&docs3);
    assert!(m2.word_vec.len() <= m3.word_vec.len());
    for (j, w) in m2.word_vec.iter().enumerate() {
        assert_eq!(w, &m3.word_vec[j]);
    }
    // ids are positional, so the unmoved documents keep their rows
    assert_eq!(m2.tf_idf_vec.len(), 2);
    assert_eq!(m3.tf_idf_vec.len(), 3);
}

#[test]
fn threshold_comparison_is_exact() {
    // cosine exactly 0.5 against a threshold of 1/2: not strictly above
    let half = Similarity { dot: 1, query_norm_sq: 2, row_norm_sq: 2 };
    assert!(!half.passes(1, 2));
    assert!(half.passes(499, 1000));
    // a zero-norm score beats only negative thresholds
    let zero = Similarity { dot: 0, query_norm_sq: 0, row_norm_sq: 0 };
    assert!(!zero.passes(0, 10));
    assert!(zero.passes(-1, 10));
    // a perfect score beats every threshold below one
    let one = Similarity { dot: 3, query_norm_sq: 3, row_norm_sq: 3 };
    assert!(one.passes(999, 1000));
    assert!(!one.passes(1000, 1000));
    // an opposite score sits exactly at minus one
    let neg = Similarity { dot: -3, query_norm_sq: 3, row_norm_sq: 3 };
    assert!(!neg.passes(-1000, 1000));
    assert!(neg.passes(-1000, 999));
}

#[test]
fn filtering_keeps_order_and_ids() {
    let docs = corpus(&["a b", "c d", "a b", "e f"]);
    let m = TfIdf::get_tf_idf(&docs);
    // "a" and "b" each appear in two of four documents: idf = ln(4/3) > 0
    let scores = m.predict(&tokens_of("a b"));
    let kept = filter_matches(&scores, 3, 10);
    assert_eq!(kept.len(), 2);
    assert_eq!(kept[0].0, 0);
    assert_eq!(kept[1].0, 2);
}

#[test]
fn empty_corpus_trains_an_empty_model() {
    let m = TfIdf::get_tf_idf(&Vec::new());
    assert!(m.word_vec.is_empty());
    assert!(m.doc_freq.is_empty());
    assert!(m.tf_idf_vec.is_empty());
    let scores = m.predict(&tokens_of("anything"));
    assert!(scores.is_empty());
    assert!(filter_matches(&scores, 3, 10).is_empty());
}

#[test]
fn single_document_corpus_weighs_negatively_yet_matches_itself() {
    // with one document, df = 1 and idf = ln(1 / 2) < 0: the weights are
    // negative, but a query with the very same tokens still has cosine one
    let docs = corpus(&["a"]);
    let m = TfIdf::get_tf_idf(&docs);
    assert_eq!(m.tf_idf_vec[0], vec![-693]);
    let scores = m.predict(&tokens_of("a"));
    let s = scores[0].1;
    assert!(s.dot > 0);
    assert_eq!(s.dot * s.dot, s.query_norm_sq * s.row_norm_sq);
    assert!(s.passes(3, 10));
}
