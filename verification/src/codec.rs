//! Persistence of the trained model and the tokenized corpus as tabular
//! text, and the record layout of the question/answer corpus.
//!
//! The model table has a header row of `id` followed by every vocabulary
//! term; then a `df` row with each term's document frequency, which the
//! query projector needs to recover the inverse document frequencies; then
//! one row per document, its decimal id followed by its weight vector in
//! vocabulary order. The tokenized-corpus table has one variable-length
//! row of tokens per document, in corpus order, with no header. Decoding
//! rejects malformed tables exactly; encoding then decoding gives the
//! model back unchanged.

use vstd::prelude::*;
use crate::model::{TfIdf, vocab_has};
use crate::numfmt::{
    dec_rep, dec_int_rep, parse_dec_spec, parse_int_spec, u64_to_string, i64_to_string, parse_u64,
    parse_i64,
};
use crate::idf::LN_ARG_LIMIT;
use crate::table::{enc_table, p_table, encode_table, parse_table, lemma_table_round_trip};
use crate::vector::{ints_of, norm_sq, lemma_norm_sq_take_le, NORM_LIMIT};
use crate::strutil::str_eq;

verus! {

/// The kinds of failure an operation can end with. Each aborts the whole
/// operation: no partial model is persisted and no partial ranking is
/// returned.
#[derive(Clone, Copy, PartialEq, Eq, Structural, Debug)]
pub enum ModelError {
    /// The question/answer corpus is missing or malformed.
    CorpusRead,
    /// A persisted table does not decode: bad framing, a bad header, a
    /// width mismatch, or a cell that is not numeric where one is owed.
    ModelDecode,
    /// Prediction was asked for with no usable query text.
    EmptyQuery,
    /// The external tokenizer failed on the input.
    Tokenization,
}

impl ModelError {
    /// A short human-readable description.
    pub fn message(&self) -> (r: &'static str)
        ensures
            *self is CorpusRead ==> r@ == "corpus source is missing or malformed"@,
            *self is ModelDecode ==> r@ == "persisted model table is malformed"@,
            *self is EmptyQuery ==> r@ == "query text is empty"@,
            *self is Tokenization ==> r@ == "tokenization failed"@,
    {
        match self {
            ModelError::CorpusRead => "corpus source is missing or malformed",
            ModelError::ModelDecode => "persisted model table is malformed",
            ModelError::EmptyQuery => "query text is empty",
            ModelError::Tokenization => "tokenization failed",
        }
    }
}

// ---------------------------------------------------------------------------
// The tokenized corpus: one row of tokens per document
// ---------------------------------------------------------------------------

/// Writes the tokenized corpus: one record per document holding its
/// tokens in order.
pub fn encode_word_lists(docs: &Vec<Vec<String>>) -> (out: String)
    ensures
        out@ == enc_table(docs.deep_view()),
{
    encode_table(docs)
}

/// Reads a tokenized corpus back: per-document token order and document
/// order are preserved exactly.
pub fn decode_word_lists(text: &str) -> (r: Result<Vec<Vec<String>>, ModelError>)
    ensures
        match r {
            Ok(docs) => p_table(text@) == Some(docs.deep_view()),
            Err(e) => p_table(text@) is None && e == ModelError::ModelDecode,
        },
{
    match parse_table(text) {
        Some(docs) => Ok(docs),
        None => Err(ModelError::ModelDecode),
    }
}

/// Writing the tokenized corpus and reading it back gives every document's
/// tokens again, in the same order.
pub proof fn lemma_word_lists_round_trip(docs: Seq<Seq<Seq<char>>>)
    ensures
        p_table(enc_table(docs)) == Some(docs),
{
    lemma_table_round_trip(docs);
}

// ---------------------------------------------------------------------------
// The question/answer corpus layout
// ---------------------------------------------------------------------------

/// The corpus: parallel lists of questions and answers, indexed by the
/// stable 0-based document id.
pub struct QaData {
    pub que_vec: Vec<String>,
    pub ans_vec: Vec<String>,
}

/// What the corpus records project to: the question is the fourth cell of
/// each record and the answer the third; `None` when a record is too
/// short.
pub open spec fn qa_spec(recs: Seq<Seq<Seq<char>>>) -> Option<(Seq<Seq<char>>, Seq<Seq<char>>)> {
    if forall|i: int| 0 <= i < recs.len() ==> (#[trigger] recs[i]).len() >= 4 {
        Some(
            (
                Seq::new(recs.len(), |i: int| recs[i][3]),
                Seq::new(recs.len(), |i: int| recs[i][2]),
            ),
        )
    } else {
        None
    }
}

/// Reads the question/answer corpus from its table text: question and
/// answer per record, in order. Fails with `CorpusRead` exactly when the
/// table does not parse or a record has fewer than four cells.
pub fn decode_qa(text: &str) -> (r: Result<QaData, ModelError>)
    ensures
        match r {
            Ok(qa) => {
                &&& p_table(text@) is Some
                &&& qa_spec(p_table(text@).unwrap()) == Some(
                    (qa.que_vec.deep_view(), qa.ans_vec.deep_view()),
                )
            },
            Err(e) => {
                &&& e == ModelError::CorpusRead
                &&& (p_table(text@) is None || qa_spec(p_table(text@).unwrap()) is None)
            },
        },
{
    let recs = match parse_table(text) {
        Some(recs) => recs,
        None => {
            return Err(ModelError::CorpusRead);
        },
    };
    let ghost rdv = recs.deep_view();
    let n = recs.len();
    let mut que_vec: Vec<String> = Vec::new();
    let mut ans_vec: Vec<String> = Vec::new();
    let mut i: usize = 0;
    while i < n
        invariant
            n == recs@.len(),
            rdv == recs.deep_view(),
            p_table(text@) == Some(rdv),
            i <= n,
            que_vec@.len() == i,
            ans_vec@.len() == i,
            forall|k: int| 0 <= k < i ==> (#[trigger] rdv[k]).len() >= 4,
            forall|k: int| 0 <= k < i ==> (#[trigger] que_vec@[k]@) == rdv[k][3],
            forall|k: int| 0 <= k < i ==> (#[trigger] ans_vec@[k]@) == rdv[k][2],
        decreases n - i,
    {
        if recs[i].len() < 4 {
            proof {
                assert(rdv[i as int].len() < 4);
            }
            return Err(ModelError::CorpusRead);
        }
        que_vec.push(recs[i][3].clone());
        ans_vec.push(recs[i][2].clone());
        i = i + 1;
    }
    proof {
        assert(que_vec.deep_view() =~~= Seq::new(rdv.len(), |k: int| rdv[k][3]));
        assert(ans_vec.deep_view() =~~= Seq::new(rdv.len(), |k: int| rdv[k][2]));
    }
    Ok(QaData { que_vec, ans_vec })
}

// ---------------------------------------------------------------------------
// The model table layout
// ---------------------------------------------------------------------------

/// The synthetic first header cell.
pub open spec fn id_cell() -> Seq<char> {
    seq!['i', 'd']
}

/// The first cell of the document-frequency row.
pub open spec fn df_cell() -> Seq<char> {
    seq!['d', 'f']
}

/// The records a model is written as: the header `id` followed by the
/// vocabulary; the `df` row with each term's document frequency; then one
/// row per document, its decimal id followed by its weights.
pub open spec fn model_records_spec(
    words: Seq<Seq<char>>,
    dfs: Seq<u64>,
    rows: Seq<Seq<i64>>,
) -> Seq<Seq<Seq<char>>> {
    seq![
        seq![id_cell()] + words,
        seq![df_cell()] + dfs.map_values(|d: u64| dec_rep(d as nat)),
    ] + Seq::new(
        rows.len(),
        |i: int| seq![dec_rep(i as nat)] + rows[i].map_values(|w: i64| dec_int_rep(w as int)),
    )
}

/// The weight row hidden in record `i` of a parsed model table.
pub open spec fn decoded_row_spec(recs: Seq<Seq<Seq<char>>>, i: int) -> Seq<int> {
    Seq::new((recs[0].len() - 1) as nat, |j: int| parse_int_spec(recs[i][j + 1]).unwrap())
}

/// Whether parsed records lay out a well-formed model table.
pub open spec fn model_layout_ok(recs: Seq<Seq<Seq<char>>>) -> bool {
    &&& recs.len() >= 2
    &&& recs.len() - 2 < LN_ARG_LIMIT
    &&& recs[0].len() >= 1
    &&& recs[0][0] == id_cell()
    &&& recs[0].skip(1).no_duplicates()
    &&& recs[1].len() == recs[0].len()
    &&& recs[1][0] == df_cell()
    &&& forall|j: int|
        1 <= j < recs[1].len() ==> (#[trigger] parse_dec_spec(recs[1][j])) is Some
    &&& forall|j: int|
        1 <= j < recs[1].len() ==> parse_dec_spec(#[trigger] recs[1][j]).unwrap() + 1
            < LN_ARG_LIMIT
    &&& forall|i: int| 2 <= i < recs.len() ==> (#[trigger] recs[i]).len() == recs[0].len()
    &&& forall|i: int|
        2 <= i < recs.len() ==> (#[trigger] recs[i])[0] == dec_rep((i - 2) as nat)
    &&& forall|i: int, j: int|
        2 <= i < recs.len() && 1 <= j < recs[0].len() ==> (#[trigger] parse_int_spec(
            recs[i][j],
        )) is Some
    &&& forall|i: int|
        2 <= i < recs.len() ==> norm_sq(#[trigger] decoded_row_spec(recs, i)) <= NORM_LIMIT
}

/// The vocabulary a parsed model table holds.
pub open spec fn decoded_words_spec(recs: Seq<Seq<Seq<char>>>) -> Seq<Seq<char>> {
    recs[0].skip(1)
}

/// The document frequencies a parsed model table holds.
pub open spec fn decoded_dfs_spec(recs: Seq<Seq<Seq<char>>>) -> Seq<u64> {
    Seq::new((recs[0].len() - 1) as nat, |j: int| parse_dec_spec(recs[1][j + 1]).unwrap() as u64)
}

/// The weight matrix a parsed model table holds.
pub open spec fn decoded_rows_spec(recs: Seq<Seq<Seq<char>>>) -> Seq<Seq<i64>> {
    Seq::new(
        (recs.len() - 2) as nat,
        |i: int|
            Seq::new(
                (recs[0].len() - 1) as nat,
                |j: int| parse_int_spec(recs[i + 2][j + 1]).unwrap() as i64,
            ),
    )
}

/// What a model table text decodes to, if anything: the vocabulary, the
/// document frequencies, and the weight matrix.
pub open spec fn decode_model_spec(s: Seq<char>) -> Option<
    (Seq<Seq<char>>, Seq<u64>, Seq<Seq<i64>>),
> {
    match p_table(s) {
        None => None,
        Some(recs) => if model_layout_ok(recs) {
            Some((decoded_words_spec(recs), decoded_dfs_spec(recs), decoded_rows_spec(recs)))
        } else {
            None
        },
    }
}

/// A model as the triple its table stands for.
pub open spec fn model_view(m: &TfIdf) -> (Seq<Seq<char>>, Seq<u64>, Seq<Seq<i64>>) {
    (m.words(), m.doc_freq@, m.tf_idf_vec.deep_view())
}

/// Writes a model as its table text.
pub fn encode_model(m: &TfIdf) -> (out: String)
    ensures
        out@ == enc_table(model_records_spec(m.words(), m.doc_freq@, m.tf_idf_vec.deep_view())),
{
    let ghost spec_recs = model_records_spec(m.words(), m.doc_freq@, m.tf_idf_vec.deep_view());
    let mut records: Vec<Vec<String>> = Vec::new();

    let m_len = m.word_vec.len();
    let mut header: Vec<String> = Vec::new();
    proof {
        reveal_strlit("id");
    }
    header.push("id".to_owned());
    let mut j: usize = 0;
    while j < m_len
        invariant
            m_len == m.word_vec@.len(),
            j <= m_len,
            header@.len() == j + 1,
            header@[0]@ == id_cell(),
            forall|k: int| 0 <= k < j ==> (#[trigger] header@[k + 1]@) == m.words()[k],
        decreases m_len - j,
    {
        header.push(m.word_vec[j].clone());
        proof {
            assert(m.words()[j as int] == m.word_vec@[j as int]@);
        }
        j = j + 1;
    }
    proof {
        assert forall|k: int| 0 <= k < header@.len() implies header.deep_view()[k] == (seq![
            id_cell(),
        ] + m.words())[k] by {
            assert(header.deep_view()[k] == header@[k]@);
            if k >= 1 {
                assert(header@[(k - 1) + 1]@ == m.words()[k - 1]);
            }
        }
        assert(header.deep_view() =~~= seq![id_cell()] + m.words());
    }
    records.push(header);

    let mut dfrow: Vec<String> = Vec::new();
    proof {
        reveal_strlit("df");
    }
    dfrow.push("df".to_owned());
    let d_len = m.doc_freq.len();
    let mut j2: usize = 0;
    while j2 < d_len
        invariant
            d_len == m.doc_freq@.len(),
            j2 <= d_len,
            dfrow@.len() == j2 + 1,
            dfrow@[0]@ == df_cell(),
            forall|k: int|
                0 <= k < j2 ==> (#[trigger] dfrow@[k + 1]@) == dec_rep(m.doc_freq@[k] as nat),
        decreases d_len - j2,
    {
        dfrow.push(u64_to_string(m.doc_freq[j2]));
        j2 = j2 + 1;
    }
    proof {
        let spec_row = seq![df_cell()] + m.doc_freq@.map_values(|d: u64| dec_rep(d as nat));
        assert forall|k: int| 0 <= k < dfrow@.len() implies dfrow.deep_view()[k] == spec_row[k] by {
            assert(dfrow.deep_view()[k] == dfrow@[k]@);
            if k >= 1 {
                assert(dfrow@[(k - 1) + 1]@ == dec_rep(m.doc_freq@[k - 1] as nat));
            }
        }
        assert(dfrow.deep_view() =~~= spec_row);
    }
    records.push(dfrow);

    let n = m.tf_idf_vec.len();
    let mut i: usize = 0;
    while i < n
        invariant
            n == m.tf_idf_vec@.len(),
            i <= n,
            records@.len() == i + 2,
            records@[0].deep_view() == seq![id_cell()] + m.words(),
            records@[1].deep_view() == seq![df_cell()] + m.doc_freq@.map_values(
                |d: u64| dec_rep(d as nat),
            ),
            forall|k: int|
                0 <= k < i ==> (#[trigger] records@[k + 2].deep_view()) == seq![
                    dec_rep(k as nat),
                ] + m.tf_idf_vec@[k]@.map_values(|w: i64| dec_int_rep(w as int)),
        decreases n - i,
    {
        let row = &m.tf_idf_vec[i];
        let w_len = row.len();
        let mut rec: Vec<String> = Vec::new();
        rec.push(u64_to_string(i as u64));
        let mut j3: usize = 0;
        while j3 < w_len
            invariant
                w_len == row@.len(),
                row@ == m.tf_idf_vec@[i as int]@,
                i < n,
                n == m.tf_idf_vec@.len(),
                j3 <= w_len,
                rec@.len() == j3 + 1,
                rec@[0]@ == dec_rep(i as nat),
                forall|k: int|
                    0 <= k < j3 ==> (#[trigger] rec@[k + 1]@) == dec_int_rep(row@[k] as int),
            decreases w_len - j3,
        {
            rec.push(i64_to_string(row[j3]));
            j3 = j3 + 1;
        }
        proof {
            let spec_row = seq![dec_rep(i as nat)] + m.tf_idf_vec@[i as int]@.map_values(
                |w: i64| dec_int_rep(w as int),
            );
            assert forall|k: int| 0 <= k < rec@.len() implies rec.deep_view()[k] == spec_row[k] by {
                assert(rec.deep_view()[k] == rec@[k]@);
                if k >= 1 {
                    assert(rec@[(k - 1) + 1]@ == dec_int_rep(row@[k - 1] as int));
                }
            }
            assert(rec.deep_view() =~~= spec_row);
        }
        records.push(rec);
        i = i + 1;
    }
    proof {
        assert forall|k: int| 0 <= k < records@.len() implies records.deep_view()[k]
            == spec_recs[k] by {
            assert(records.deep_view()[k] == records@[k].deep_view());
            if k >= 2 {
                assert(records@[(k - 2) + 2].deep_view() == seq![dec_rep((k - 2) as nat)]
                    + m.tf_idf_vec@[k - 2]@.map_values(|w: i64| dec_int_rep(w as int)));
                assert(m.tf_idf_vec.deep_view()[k - 2] == m.tf_idf_vec@[k - 2]@);
                assert(spec_recs[k] == seq![dec_rep((k - 2) as nat)] + m.tf_idf_vec.deep_view()[k
                    - 2].map_values(|w: i64| dec_int_rep(w as int)));
            }
        }
        assert(records.deep_view() =~~= spec_recs);
    }
    encode_table(&records)
}

/// Whether a weight row's squared norm stays within [`NORM_LIMIT`].
fn row_norm_ok(row: &Vec<i64>) -> (b: bool)
    ensures
        b == (norm_sq(ints_of(row@)) <= NORM_LIMIT),
{
    let ghost v = ints_of(row@);
    let n = row.len();
    let mut partial: i128 = 0;
    let mut k: usize = 0;
    proof {
        assert(v.take(0) =~= Seq::<int>::empty());
    }
    while k < n
        invariant
            n == row@.len(),
            v == ints_of(row@),
            k <= n,
            partial == norm_sq(v.take(k as int)),
            0 <= partial <= NORM_LIMIT,
        decreases n - k,
    {
        let ghost x = v[k as int];
        proof {
            assert(v.take(k + 1).drop_last() =~= v.take(k as int));
            assert(v.take(k + 1).last() == x);
            assert(x == row@[k as int] as int);
            assert(x * x <= 0x4000_0000_0000_0000_0000_0000_0000_0000 && x * x >= 0)
                by (nonlinear_arith)
                requires -0x8000_0000_0000_0000 <= x <= 0x7FFF_FFFF_FFFF_FFFF;
        }
        let xe = row[k] as i128;
        let sq = xe * xe;
        if sq > NORM_LIMIT - partial {
            proof {
                assert(norm_sq(v.take(k + 1)) > NORM_LIMIT);
                lemma_norm_sq_take_le(v, k + 1);
            }
            return false;
        }
        partial = partial + sq;
        k = k + 1;
    }
    proof {
        assert(v.take(n as int) =~= v);
    }
    true
}

/// Reads a model back from its table text. Fails with `ModelDecode`
/// exactly when the text does not parse as a table, the header or the
/// `df` row is not as written above, a width differs, a term repeats, a
/// numeric cell does not parse or is out of range, or a row's norm is too
/// large for exact ranking.
pub fn decode_model(text: &str) -> (r: Result<TfIdf, ModelError>)
    ensures
        match r {
            Ok(m) => {
                &&& decode_model_spec(text@) == Some(model_view(&m))
                &&& m.wf()
            },
            Err(e) => {
                &&& decode_model_spec(text@) is None
                &&& e == ModelError::ModelDecode
            },
        },
{
    let recs = match parse_table(text) {
        Some(recs) => recs,
        None => {
            return Err(ModelError::ModelDecode);
        },
    };
    let ghost rdv = recs.deep_view();
    proof {
        assert(rdv.len() == recs@.len());
        assert(forall|k: int| 0 <= k < rdv.len() ==> (#[trigger] rdv[k]).len() == recs@[k]@.len());
    }
    let n_recs = recs.len();
    if n_recs < 2 {
        return Err(ModelError::ModelDecode);
    }
    if (n_recs - 2) as u64 >= LN_ARG_LIMIT {
        return Err(ModelError::ModelDecode);
    }
    proof {
        reveal_strlit("id");
        reveal_strlit("df");
        assert("id"@ =~= id_cell());
        assert("df"@ =~= df_cell());
    }
    if recs[0].len() < 1 {
        return Err(ModelError::ModelDecode);
    }
    if !str_eq(recs[0][0].as_str(), "id") {
        proof {
            assert(rdv[0][0] == recs@[0]@[0]@);
        }
        return Err(ModelError::ModelDecode);
    }
    if recs[1].len() != recs[0].len() {
        return Err(ModelError::ModelDecode);
    }
    if !str_eq(recs[1][0].as_str(), "df") {
        proof {
            assert(rdv[1][0] == recs@[1]@[0]@);
        }
        return Err(ModelError::ModelDecode);
    }
    let header_len = recs[0].len();
    let m_len = header_len - 1;

    // the vocabulary, which must be duplicate-free
    let mut words: Vec<String> = Vec::new();
    let mut j: usize = 0;
    while j < m_len
        invariant
            rdv == recs.deep_view(),
            p_table(text@) == Some(rdv),
            rdv.len() == n_recs,
            forall|k: int| 0 <= k < rdv.len() ==> (#[trigger] rdv[k]).len() == recs@[k]@.len(),
            n_recs == recs@.len(),
            n_recs >= 2,
            m_len + 1 == rdv[0].len(),
            j <= m_len,
            words@.len() == j,
            forall|k: int| 0 <= k < j ==> (#[trigger] words@[k]@) == rdv[0][k + 1],
            words.deep_view().no_duplicates(),
        decreases m_len - j,
    {
        let t = recs[0][j + 1].clone();
        if vocab_has(&words, t.as_str()) {
            proof {
                let dup = choose|k: int| 0 <= k < words.deep_view().len() && words.deep_view()[k]
                    == t@;
                assert(rdv[0].skip(1)[dup] == rdv[0][dup + 1]);
                assert(rdv[0].skip(1)[j as int] == rdv[0][j + 1]);
                assert(!rdv[0].skip(1).no_duplicates());
            }
            return Err(ModelError::ModelDecode);
        }
        let ghost old_words = words.deep_view();
        words.push(t);
        proof {
            assert(words.deep_view() =~~= old_words.push(rdv[0][j + 1]));
            assert forall|a: int, b: int|
                0 <= a < words.deep_view().len() && 0 <= b < words.deep_view().len() && a != b
                implies words.deep_view()[a] != words.deep_view()[b] by {
                if a < old_words.len() && b < old_words.len() {
                } else if a < old_words.len() {
                    if old_words[a] == rdv[0][j + 1] {
                        assert(old_words.contains(rdv[0][j + 1]));
                    }
                } else if b < old_words.len() {
                    if old_words[b] == rdv[0][j + 1] {
                        assert(old_words.contains(rdv[0][j + 1]));
                    }
                }
            }
        }
        j = j + 1;
    }
    proof {
        assert(words.deep_view() =~~= rdv[0].skip(1));
    }

    // the document frequencies
    let mut dfs: Vec<u64> = Vec::new();
    let mut j2: usize = 0;
    while j2 < m_len
        invariant
            rdv == recs.deep_view(),
            p_table(text@) == Some(rdv),
            rdv.len() == n_recs,
            forall|k: int| 0 <= k < rdv.len() ==> (#[trigger] rdv[k]).len() == recs@[k]@.len(),
            n_recs == recs@.len(),
            n_recs >= 2,
            m_len + 1 == rdv[0].len(),
            rdv[1].len() == rdv[0].len(),
            j2 <= m_len,
            dfs@.len() == j2,
            forall|k: int|
                0 <= k < j2 ==> parse_dec_spec(#[trigger] rdv[1][k + 1]) is Some,
            forall|k: int|
                0 <= k < j2 ==> #[trigger] dfs@[k] as int == parse_dec_spec(rdv[1][k + 1]).unwrap(),
            forall|k: int| 0 <= k < j2 ==> #[trigger] dfs@[k] + 1 < LN_ARG_LIMIT,
        decreases m_len - j2,
    {
        proof {
            assert(rdv[1][j2 + 1] == recs@[1]@[j2 + 1]@);
        }
        match parse_u64(recs[1][j2 + 1].as_str()) {
            None => {
                return Err(ModelError::ModelDecode);
            },
            Some(v) => {
                if v >= LN_ARG_LIMIT - 1 {
                    return Err(ModelError::ModelDecode);
                }
                dfs.push(v);
            },
        }
        j2 = j2 + 1;
    }

    // the weight matrix
    let mut rows: Vec<Vec<i64>> = Vec::new();
    let mut i: usize = 2;
    while i < n_recs
        invariant
            rdv == recs.deep_view(),
            p_table(text@) == Some(rdv),
            rdv.len() == n_recs,
            forall|k: int| 0 <= k < rdv.len() ==> (#[trigger] rdv[k]).len() == recs@[k]@.len(),
            n_recs == recs@.len(),
            n_recs >= 2,
            header_len == m_len + 1,
            m_len + 1 == rdv[0].len(),
            2 <= i <= n_recs,
            rows@.len() == i - 2,
            forall|k: int| 2 <= k < i ==> (#[trigger] rdv[k]).len() == rdv[0].len(),
            forall|k: int| 2 <= k < i ==> (#[trigger] rdv[k])[0] == dec_rep((k - 2) as nat),
            forall|k: int, j: int|
                2 <= k < i && 1 <= j < rdv[0].len() ==> (#[trigger] parse_int_spec(
                    rdv[k][j],
                )) is Some,
            forall|k: int|
                0 <= k < i - 2 ==> (#[trigger] rows@[k]@.len()) == m_len,
            forall|k: int, j: int|
                0 <= k < i - 2 && 0 <= j < m_len ==> #[trigger] rows@[k]@[j] as int
                    == parse_int_spec(rdv[k + 2][j + 1]).unwrap(),
            forall|k: int|
                2 <= k < i ==> norm_sq(#[trigger] decoded_row_spec(rdv, k)) <= NORM_LIMIT,
        decreases n_recs - i,
    {
        if recs[i].len() != header_len {
            return Err(ModelError::ModelDecode);
        }
        let want = u64_to_string((i - 2) as u64);
        if !str_eq(recs[i][0].as_str(), want.as_str()) {
            proof {
                assert(rdv[i as int][0] == recs@[i as int]@[0]@);
            }
            return Err(ModelError::ModelDecode);
        }
        let mut row: Vec<i64> = Vec::new();
        let mut j3: usize = 0;
        while j3 < m_len
            invariant
                rdv == recs.deep_view(),
                rdv.len() == n_recs,
                forall|k: int| 0 <= k < rdv.len() ==> (#[trigger] rdv[k]).len() == recs@[k]@.len(),
                p_table(text@) == Some(rdv),
                n_recs == recs@.len(),
                2 <= i < n_recs,
                m_len + 1 == rdv[0].len(),
                rdv[i as int].len() == m_len + 1,
                j3 <= m_len,
                row@.len() == j3,
                forall|jj: int|
                    0 <= jj < j3 ==> parse_int_spec(#[trigger] rdv[i as int][jj + 1]) is Some,
                forall|jj: int|
                    0 <= jj < j3 ==> #[trigger] row@[jj] as int == parse_int_spec(
                        rdv[i as int][jj + 1],
                    ).unwrap(),
            decreases m_len - j3,
        {
            proof {
                assert(rdv[i as int][j3 + 1] == recs@[i as int]@[j3 + 1]@);
            }
            match parse_i64(recs[i][j3 + 1].as_str()) {
                None => {
                    proof {
                        assert(parse_int_spec(rdv[i as int][j3 + 1]) is None);
                        assert(1 <= j3 + 1 < rdv[0].len());
                        assert(!model_layout_ok(rdv));
                    }
                    return Err(ModelError::ModelDecode);
                },
                Some(v) => {
                    row.push(v);
                },
            }
            j3 = j3 + 1;
        }
        proof {
            assert forall|jj: int| 1 <= jj < rdv[0].len() implies (#[trigger] parse_int_spec(
                rdv[i as int][jj],
            )) is Some by {
                assert(parse_int_spec(rdv[i as int][(jj - 1) + 1]) is Some);
            }
            assert(ints_of(row@) =~= decoded_row_spec(rdv, i as int));
        }
        if !row_norm_ok(&row) {
            return Err(ModelError::ModelDecode);
        }
        rows.push(row);
        i = i + 1;
    }

    let model = TfIdf { word_vec: words, doc_freq: dfs, tf_idf_vec: rows };
    proof {
        assert forall|j: int| 1 <= j < rdv[1].len() implies (#[trigger] parse_dec_spec(
            rdv[1][j],
        )) is Some by {
            assert(parse_dec_spec(rdv[1][(j - 1) + 1]) is Some);
        }
        assert forall|j: int| 1 <= j < rdv[1].len() implies parse_dec_spec(
            #[trigger] rdv[1][j],
        ).unwrap() + 1 < LN_ARG_LIMIT by {
            assert(dfs@[j - 1] as int == parse_dec_spec(rdv[1][(j - 1) + 1]).unwrap());
            assert(dfs@[j - 1] + 1 < LN_ARG_LIMIT);
        }
        assert(model_layout_ok(rdv));
        assert(model.words() == rdv[0].skip(1));
        assert(model.doc_freq@ =~= decoded_dfs_spec(rdv));
        assert(model.tf_idf_vec.deep_view() =~~= decoded_rows_spec(rdv));
        assert forall|k: int| 0 <= k < model.tf_idf_vec@.len() implies norm_sq(
            ints_of(#[trigger] model.tf_idf_vec@[k]@),
        ) <= NORM_LIMIT by {
            assert(ints_of(model.tf_idf_vec@[k]@) =~= decoded_row_spec(rdv, k + 2));
        }
    }
    Ok(model)
}

/// Round trip: writing a well-formed model as its table text and decoding
/// that text gives exactly the model back — vocabulary, document
/// frequencies and weight matrix, including the empty model.
pub proof fn lemma_model_round_trip(m: &TfIdf)
    requires
        m.wf(),
    ensures
        decode_model_spec(
            enc_table(model_records_spec(m.words(), m.doc_freq@, m.tf_idf_vec.deep_view())),
        ) == Some(model_view(m)),
{
    let words = m.words();
    let dfs = m.doc_freq@;
    let rows = m.tf_idf_vec.deep_view();
    let recs = model_records_spec(words, dfs, rows);
    lemma_table_round_trip(recs);
    crate::numfmt::lemma_pow10_15();

    assert(recs.len() == 2 + rows.len());
    assert(rows.len() == m.tf_idf_vec@.len());
    assert(recs[0] == seq![id_cell()] + words);
    assert(recs[1] == seq![df_cell()] + dfs.map_values(|d: u64| dec_rep(d as nat)));
    assert(recs[0].len() == words.len() + 1);
    assert(recs[1].len() == dfs.len() + 1);
    assert(words.len() == m.word_vec@.len());
    assert(dfs.len() == m.doc_freq@.len());
    assert(recs[0][0] == id_cell());
    assert(recs[1][0] == df_cell());
    assert(recs[0].skip(1) =~= words);

    assert forall|j: int| 1 <= j < recs[1].len() implies (#[trigger] parse_dec_spec(
        recs[1][j],
    )) == Some(dfs[j - 1] as int) by {
        assert(recs[1][j] == dec_rep(dfs[j - 1] as nat));
        assert(dfs[j - 1] + 1 < LN_ARG_LIMIT);
        crate::numfmt::lemma_dec_cell_round_trip(dfs[j - 1] as nat);
    }

    assert forall|i: int| 2 <= i < recs.len() implies (#[trigger] recs[i]) == seq![
        dec_rep((i - 2) as nat),
    ] + rows[i - 2].map_values(|w: i64| dec_int_rep(w as int)) by {
        assert(recs[i] == Seq::new(
            rows.len(),
            |k: int| seq![dec_rep(k as nat)] + rows[k].map_values(|w: i64| dec_int_rep(w as int)),
        )[i - 2]);
    }
    assert forall|i: int| 2 <= i < recs.len() implies (#[trigger] recs[i]).len()
        == recs[0].len() by {
        assert(rows[i - 2] == m.tf_idf_vec@[i - 2]@);
        assert(m.tf_idf_vec@[i - 2]@.len() == m.word_vec@.len());
    }
    assert forall|i: int| 2 <= i < recs.len() implies (#[trigger] recs[i])[0] == dec_rep(
        (i - 2) as nat,
    ) by {
        assert(recs[i] == seq![dec_rep((i - 2) as nat)] + rows[i - 2].map_values(
            |w: i64| dec_int_rep(w as int),
        ));
    }

    assert forall|i: int, j: int|
        2 <= i < recs.len() && 1 <= j < recs[0].len() implies (#[trigger] parse_int_spec(
        recs[i][j],
    )) == Some(rows[i - 2][j - 1] as int) by {
        let w = rows[i - 2][j - 1];
        assert(rows[i - 2] == m.tf_idf_vec@[i - 2]@);
        assert(recs[i][j] == dec_int_rep(w as int));
        let v = ints_of(m.tf_idf_vec@[i - 2]@);
        crate::vector::lemma_norm_sq_element(v, j - 1);
        assert(v[j - 1] == w as int);
        assert(norm_sq(v) <= NORM_LIMIT);
        assert(-67108865 < w as int && (w as int) < 67108865) by (nonlinear_arith)
            requires
                (w as int) * (w as int) <= 0x10_0000_0000_0000int;
        crate::numfmt::lemma_int_round_trip(w as int);
    }

    assert forall|i: int| 2 <= i < recs.len() implies norm_sq(
        #[trigger] decoded_row_spec(recs, i),
    ) <= NORM_LIMIT by {
        assert(decoded_row_spec(recs, i) =~= ints_of(m.tf_idf_vec@[i - 2]@));
    }

    assert(model_layout_ok(recs));
    assert(decoded_words_spec(recs) == words);
    assert(decoded_dfs_spec(recs) =~= dfs);
    assert(decoded_rows_spec(recs) =~~= rows);
}

} // verus!
