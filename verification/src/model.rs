//! The trained model: a fixed vocabulary, per-term document frequencies,
//! and the dense matrix of fixed-point term-frequency /
//! inverse-document-frequency weights, one row per corpus document.
//!
//! The vocabulary is the sequence of distinct terms in order of first
//! appearance across the tokenized corpus; its order fixes the column order
//! of the matrix. Row `i` belongs to corpus id `i`. The matrix is rebuilt in
//! full on every training run.

use vstd::prelude::*;
use crate::idf::{idf_spec, idf_milli, IDF_LIMIT, LN_ARG_LIMIT};
use crate::vector::{ints_of, norm_sq, NORM_LIMIT};
use crate::strutil::str_eq;

verus! {

/// Largest number of tokens one document (or one query) may hold; it keeps
/// every weight-vector norm within [`NORM_LIMIT`].
pub const DOC_LIMIT: usize = 2048;

// ---------------------------------------------------------------------------
// Term counts and the vocabulary
// ---------------------------------------------------------------------------

/// How often term `t` occurs in a tokenized document.
pub open spec fn count_in(doc: Seq<Seq<char>>, t: Seq<char>) -> int
    decreases doc.len(),
{
    if doc.len() == 0 {
        0
    } else {
        count_in(doc.drop_last(), t) + if doc.last() == t {
            1int
        } else {
            0int
        }
    }
}

/// In how many documents of the corpus term `t` occurs at least once.
pub open spec fn df_count(docs: Seq<Seq<Seq<char>>>, t: Seq<char>) -> int
    decreases docs.len(),
{
    if docs.len() == 0 {
        0
    } else {
        df_count(docs.drop_last(), t) + if count_in(docs.last(), t) > 0 {
            1int
        } else {
            0int
        }
    }
}

/// The distinct terms of a token stream, in order of first appearance.
pub open spec fn vocab_stream(ws: Seq<Seq<char>>) -> Seq<Seq<char>>
    decreases ws.len(),
{
    if ws.len() == 0 {
        Seq::empty()
    } else {
        let pre = vocab_stream(ws.drop_last());
        if pre.contains(ws.last()) {
            pre
        } else {
            pre.push(ws.last())
        }
    }
}

/// The vocabulary of a tokenized corpus: distinct terms in order of first
/// appearance, reading the documents in corpus order.
pub open spec fn vocab_spec(docs: Seq<Seq<Seq<char>>>) -> Seq<Seq<char>> {
    vocab_stream(docs.flatten())
}

pub proof fn lemma_count_in_range(doc: Seq<Seq<char>>, t: Seq<char>)
    ensures
        0 <= count_in(doc, t) <= doc.len(),
    decreases doc.len(),
{
    if doc.len() == 0 {
    } else {
        lemma_count_in_range(doc.drop_last(), t);
    }
}

/// The vocabulary never holds a term twice.
pub proof fn lemma_vocab_stream_distinct(ws: Seq<Seq<char>>)
    ensures
        vocab_stream(ws).no_duplicates(),
    decreases ws.len(),
{
    if ws.len() == 0 {
    } else {
        lemma_vocab_stream_distinct(ws.drop_last());
        let pre = vocab_stream(ws.drop_last());
        if pre.contains(ws.last()) {
        } else {
            assert forall|i: int, j: int|
                0 <= i < pre.push(ws.last()).len() && 0 <= j < pre.push(ws.last()).len() && i != j
                implies pre.push(ws.last())[i] != pre.push(ws.last())[j] by {
                if i < pre.len() && j < pre.len() {
                    assert(pre[i] == pre.push(ws.last())[i]);
                    assert(pre[j] == pre.push(ws.last())[j]);
                } else if i < pre.len() {
                    assert(pre.push(ws.last())[j] == ws.last());
                    assert(!pre.contains(pre[i]) ==> false);
                    assert(pre.push(ws.last())[i] == pre[i]);
                    if pre[i] == ws.last() {
                        assert(pre.contains(ws.last()));
                    }
                } else if j < pre.len() {
                    assert(pre.push(ws.last())[i] == ws.last());
                    assert(pre.push(ws.last())[j] == pre[j]);
                    if pre[j] == ws.last() {
                        assert(pre.contains(ws.last()));
                    }
                }
            }
        }
    }
}

/// Adding documents at the end of the corpus only extends the vocabulary:
/// the old vocabulary stays a prefix of the new one.
pub proof fn lemma_vocab_stream_extend(ws: Seq<Seq<char>>, ext: Seq<Seq<char>>)
    ensures
        vocab_stream(ws).is_prefix_of(vocab_stream(ws + ext)),
    decreases ext.len(),
{
    if ext.len() == 0 {
        assert(ws + ext =~= ws);
        assert(vocab_stream(ws).is_prefix_of(vocab_stream(ws)));
    } else {
        lemma_vocab_stream_extend(ws, ext.drop_last());
        assert((ws + ext).drop_last() =~= ws + ext.drop_last());
        assert((ws + ext).last() == ext.last());
        let pre = vocab_stream(ws + ext.drop_last());
        if pre.contains(ext.last()) {
        } else {
            assert(pre.is_prefix_of(pre.push(ext.last())));
        }
    }
}

// ---------------------------------------------------------------------------
// Executable counting and lookup
// ---------------------------------------------------------------------------

/// How often term `t` occurs in the tokenized document.
pub fn count_occurrences(doc: &Vec<String>, t: &str) -> (c: usize)
    ensures
        c == count_in(doc.deep_view(), t@),
        c <= doc@.len(),
{
    let ghost dv = doc.deep_view();
    let n = doc.len();
    let mut c: usize = 0;
    let mut k: usize = 0;
    proof {
        assert(dv.take(0) =~= Seq::<Seq<char>>::empty());
    }
    while k < n
        invariant
            n == doc@.len(),
            dv == doc.deep_view(),
            k <= n,
            c == count_in(dv.take(k as int), t@),
            c <= k,
        decreases n - k,
    {
        proof {
            assert(dv.take(k + 1).drop_last() =~= dv.take(k as int));
            assert(dv.take(k + 1).last() == dv[k as int]);
            assert(dv[k as int] == doc@[k as int]@);
        }
        if str_eq(doc[k].as_str(), t) {
            c = c + 1;
        }
        k = k + 1;
    }
    proof {
        assert(dv.take(n as int) =~= dv);
    }
    c
}

/// Whether the tokenized document holds term `t` at all.
pub fn doc_contains(doc: &Vec<String>, t: &str) -> (b: bool)
    ensures
        b == (count_in(doc.deep_view(), t@) > 0),
{
    let c = count_occurrences(doc, t);
    proof {
        lemma_count_in_range(doc.deep_view(), t@);
    }
    c > 0
}

/// Whether the vocabulary already holds term `t`.
pub(crate) fn vocab_has(vocab: &Vec<String>, t: &str) -> (b: bool)
    ensures
        b == vocab.deep_view().contains(t@),
{
    let ghost dv = vocab.deep_view();
    let n = vocab.len();
    let mut k: usize = 0;
    while k < n
        invariant
            n == vocab@.len(),
            dv == vocab.deep_view(),
            k <= n,
            forall|m: int| 0 <= m < k ==> dv[m] != t@,
        decreases n - k,
    {
        if str_eq(vocab[k].as_str(), t) {
            proof {
                assert(dv[k as int] == t@);
            }
            return true;
        }
        k = k + 1;
    }
    proof {
        if dv.contains(t@) {
            let m = choose|m: int| 0 <= m < dv.len() && dv[m] == t@;
            assert(false);
        }
    }
    false
}

/// The vocabulary of a tokenized corpus: every distinct term, in order of
/// first appearance.
pub fn build_vocabulary(docs: &Vec<Vec<String>>) -> (vocab: Vec<String>)
    ensures
        vocab.deep_view() == vocab_spec(docs.deep_view()),
        vocab.deep_view().no_duplicates(),
{
    let ghost ddv = docs.deep_view();
    let mut vocab: Vec<String> = Vec::new();
    let n = docs.len();
    let mut i: usize = 0;
    proof {
        assert(ddv.take(0) =~~= Seq::<Seq<Seq<char>>>::empty());
        assert(ddv.take(0).flatten() =~~= Seq::<Seq<char>>::empty());
        assert(vocab.deep_view() =~~= vocab_stream(ddv.take(0).flatten()));
    }
    while i < n
        invariant
            n == docs@.len(),
            ddv == docs.deep_view(),
            i <= n,
            vocab.deep_view() == vocab_stream(ddv.take(i as int).flatten()),
        decreases n - i,
    {
        let ghost doc_dv = ddv[i as int];
        let m = docs[i].len();
        let mut k: usize = 0;
        proof {
            assert(doc_dv.take(0) =~~= Seq::<Seq<char>>::empty());
            assert(ddv.take(i as int).flatten() + doc_dv.take(0) =~~= ddv.take(
                i as int,
            ).flatten());
        }
        while k < m
            invariant
                n == docs@.len(),
                ddv == docs.deep_view(),
                i < n,
                m == docs@[i as int]@.len(),
                doc_dv == ddv[i as int],
                k <= m,
                vocab.deep_view() == vocab_stream(ddv.take(i as int).flatten() + doc_dv.take(k as int)),
            decreases m - k,
        {
            let ghost stream = ddv.take(i as int).flatten() + doc_dv.take(k as int);
            let ghost w = doc_dv[k as int];
            proof {
                assert((ddv.take(i as int).flatten() + doc_dv.take(k + 1)).drop_last() =~~= stream);
                assert((ddv.take(i as int).flatten() + doc_dv.take(k + 1)).last() == w);
                assert(doc_dv[k as int] == docs@[i as int]@[k as int]@);
            }
            let t = &docs[i][k];
            if !vocab_has(&vocab, t.as_str()) {
                let ghost old_dv = vocab.deep_view();
                vocab.push(t.clone());
                proof {
                    assert(vocab.deep_view() =~~= old_dv.push(w));
                }
            }
            k = k + 1;
        }
        proof {
            assert(doc_dv.take(m as int) =~~= doc_dv);
            assert(ddv.take(i + 1) =~~= ddv.take(i as int).push(doc_dv));
            Seq::lemma_flatten_push(ddv.take(i as int), doc_dv);
            assert(ddv.take(i + 1).flatten() =~~= ddv.take(i as int).flatten() + doc_dv);
        }
        i = i + 1;
    }
    proof {
        assert(ddv.take(n as int) =~~= ddv);
        lemma_vocab_stream_distinct(ddv.flatten());
    }
    vocab
}

// ---------------------------------------------------------------------------
// Weight vectors and their norm bound
// ---------------------------------------------------------------------------

/// The weight a term of the vocabulary contributes: raw count times
/// fixed-point inverse document frequency. On an empty corpus no weighting
/// is defined and every weight is zero.
pub open spec fn term_weight_spec(n: nat, df: nat, c: int) -> int {
    if n == 0 {
        0
    } else {
        c * idf_spec(n, df)
    }
}

/// The weight vector of one tokenized document (or query) against a trained
/// vocabulary with its document frequencies.
pub open spec fn weights_spec(
    tokens: Seq<Seq<char>>,
    vocab: Seq<Seq<char>>,
    dfs: Seq<u64>,
    n: nat,
) -> Seq<int> {
    Seq::new(vocab.len(), |j: int| term_weight_spec(n, dfs[j] as nat, count_in(tokens, vocab[j])))
}

pub open spec fn sum_abs(v: Seq<int>) -> int
    decreases v.len(),
{
    if v.len() == 0 {
        0
    } else {
        sum_abs(v.drop_last()) + if v.last() < 0 {
            -v.last()
        } else {
            v.last()
        }
    }
}

pub open spec fn sum_of(v: Seq<int>) -> int
    decreases v.len(),
{
    if v.len() == 0 {
        0
    } else {
        sum_of(v.drop_last()) + v.last()
    }
}

/// How many entries of `v` equal `w`.
pub open spec fn count_matches(v: Seq<Seq<char>>, w: Seq<char>) -> int
    decreases v.len(),
{
    if v.len() == 0 {
        0
    } else {
        count_matches(v.drop_last(), w) + if v.last() == w {
            1int
        } else {
            0int
        }
    }
}

/// Total of the counts of every vocabulary term in one document.
pub open spec fn sum_counts(doc: Seq<Seq<char>>, vocab: Seq<Seq<char>>) -> int
    decreases vocab.len(),
{
    if vocab.len() == 0 {
        0
    } else {
        sum_counts(doc, vocab.drop_last()) + count_in(doc, vocab.last())
    }
}

proof fn lemma_sum_counts_empty(vocab: Seq<Seq<char>>)
    ensures
        sum_counts(Seq::empty(), vocab) == 0,
    decreases vocab.len(),
{
    if vocab.len() == 0 {
    } else {
        lemma_sum_counts_empty(vocab.drop_last());
    }
}

proof fn lemma_count_matches_zero(v: Seq<Seq<char>>, w: Seq<char>)
    requires
        forall|k: int| 0 <= k < v.len() ==> v[k] != w,
    ensures
        count_matches(v, w) == 0,
    decreases v.len(),
{
    if v.len() == 0 {
    } else {
        assert(forall|k: int| 0 <= k < v.drop_last().len() ==> v.drop_last()[k] == v[k]);
        lemma_count_matches_zero(v.drop_last(), w);
    }
}

proof fn lemma_count_matches_le_one(v: Seq<Seq<char>>, w: Seq<char>)
    requires
        v.no_duplicates(),
    ensures
        0 <= count_matches(v, w) <= 1,
    decreases v.len(),
{
    if v.len() == 0 {
    } else {
        assert(v.drop_last().no_duplicates());
        lemma_count_matches_le_one(v.drop_last(), w);
        if v.last() == w {
            assert forall|k: int| 0 <= k < v.drop_last().len() implies v.drop_last()[k] != w by {
                assert(v[k] != v[v.len() - 1]);
            }
            lemma_count_matches_zero(v.drop_last(), w);
        }
    }
}

proof fn lemma_sum_counts_drop_doc(doc: Seq<Seq<char>>, vocab: Seq<Seq<char>>)
    requires
        doc.len() >= 1,
    ensures
        sum_counts(doc, vocab) == sum_counts(doc.drop_last(), vocab) + count_matches(
            vocab,
            doc.last(),
        ),
    decreases vocab.len(),
{
    if vocab.len() == 0 {
    } else {
        lemma_sum_counts_drop_doc(doc, vocab.drop_last());
    }
}

proof fn lemma_sum_counts_le_len(doc: Seq<Seq<char>>, vocab: Seq<Seq<char>>)
    requires
        vocab.no_duplicates(),
    ensures
        0 <= sum_counts(doc, vocab) <= doc.len(),
    decreases doc.len(),
{
    if doc.len() == 0 {
        assert(doc =~= Seq::<Seq<char>>::empty());
        lemma_sum_counts_empty(vocab);
    } else {
        lemma_sum_counts_le_len(doc.drop_last(), vocab);
        lemma_sum_counts_drop_doc(doc, vocab);
        lemma_count_matches_le_one(vocab, doc.last());
    }
}

proof fn lemma_sum_abs_nonneg(v: Seq<int>)
    ensures
        sum_abs(v) >= 0,
    decreases v.len(),
{
    if v.len() == 0 {
    } else {
        lemma_sum_abs_nonneg(v.drop_last());
    }
}

/// Entrywise bounds add up: a vector whose entries are bounded by `k` times
/// nonnegative counts has small total magnitude.
proof fn lemma_sum_abs_pointwise(w: Seq<int>, c: Seq<int>, k: int)
    requires
        w.len() == c.len(),
        k >= 0,
        forall|j: int| 0 <= j < w.len() ==> c[j] >= 0,
        forall|j: int| 0 <= j < w.len() ==> -(k * c[j]) <= #[trigger] w[j] <= k * c[j],
    ensures
        sum_abs(w) <= k * sum_of(c),
    decreases w.len(),
{
    if w.len() == 0 {
    } else {
        assert(forall|j: int| 0 <= j < w.drop_last().len() ==> w.drop_last()[j] == w[j]);
        assert(forall|j: int| 0 <= j < c.drop_last().len() ==> c.drop_last()[j] == c[j]);
        lemma_sum_abs_pointwise(w.drop_last(), c.drop_last(), k);
        assert(w[w.len() - 1] == w.last());
        assert(c[w.len() - 1] == c.last());
        assert(k * sum_of(c) == k * sum_of(c.drop_last()) + k * c.last()) by (nonlinear_arith)
            requires sum_of(c) == sum_of(c.drop_last()) + c.last();
    }
}

/// The squared norm is at most the square of the total magnitude.
proof fn lemma_norm_le_sum_abs_sq(v: Seq<int>)
    ensures
        norm_sq(v) <= sum_abs(v) * sum_abs(v),
    decreases v.len(),
{
    if v.len() == 0 {
    } else {
        lemma_norm_le_sum_abs_sq(v.drop_last());
        lemma_sum_abs_nonneg(v.drop_last());
        let s = sum_abs(v.drop_last());
        let x = v.last();
        let ax: int = if x < 0 { -x } else { x };
        assert(x * x == ax * ax) by (nonlinear_arith)
            requires ax == x || ax == -x;
        assert((s + ax) * (s + ax) >= s * s + x * x) by (nonlinear_arith)
            requires s >= 0, ax >= 0, x * x == ax * ax;
    }
}

/// `sum_of` of the per-term counts is `sum_counts`.
proof fn lemma_counts_seq_sum(tokens: Seq<Seq<char>>, vocab: Seq<Seq<char>>)
    ensures
        sum_of(Seq::new(vocab.len(), |j: int| count_in(tokens, vocab[j]))) == sum_counts(
            tokens,
            vocab,
        ),
    decreases vocab.len(),
{
    let c = Seq::new(vocab.len(), |j: int| count_in(tokens, vocab[j]));
    if vocab.len() == 0 {
    } else {
        lemma_counts_seq_sum(tokens, vocab.drop_last());
        let cd = Seq::new(vocab.drop_last().len(), |j: int| count_in(tokens, vocab.drop_last()[j]));
        assert(c.drop_last() =~= cd);
        assert(c.last() == count_in(tokens, vocab.last()));
    }
}

/// The weight vector of a document of at most [`DOC_LIMIT`] tokens, with
/// entries bounded entrywise by [`IDF_LIMIT`] times the term count, has
/// squared norm at most [`NORM_LIMIT`].
proof fn lemma_weights_norm_bound(w: Seq<int>, tokens: Seq<Seq<char>>, vocab: Seq<Seq<char>>)
    requires
        vocab.no_duplicates(),
        tokens.len() <= DOC_LIMIT,
        w.len() == vocab.len(),
        forall|j: int|
            0 <= j < w.len() ==> -(IDF_LIMIT as int * count_in(tokens, vocab[j])) <= #[trigger] w[j]
                <= IDF_LIMIT as int * count_in(tokens, vocab[j]),
    ensures
        norm_sq(w) <= NORM_LIMIT,
{
    let c = Seq::new(vocab.len(), |j: int| count_in(tokens, vocab[j]));
    assert forall|j: int| 0 <= j < c.len() implies c[j] >= 0 by {
        lemma_count_in_range(tokens, vocab[j]);
    }
    lemma_sum_abs_pointwise(w, c, IDF_LIMIT as int);
    lemma_counts_seq_sum(tokens, vocab);
    lemma_sum_counts_le_len(tokens, vocab);
    lemma_norm_le_sum_abs_sq(w);
    lemma_sum_abs_nonneg(w);
    assert(IDF_LIMIT * sum_of(c) <= IDF_LIMIT * 2048) by (nonlinear_arith)
        requires 0 <= sum_of(c) <= 2048, IDF_LIMIT == 32767i64;
    assert(sum_abs(w) * sum_abs(w) <= 67106816 * 67106816) by (nonlinear_arith)
        requires 0 <= sum_abs(w) <= 67106816;
}

/// The weight vector of one tokenized document or query: for every
/// vocabulary term, its raw count in the tokens times its fixed-point
/// inverse document frequency.
pub fn weights_for_tokens(
    tokens: &Vec<String>,
    vocab: &Vec<String>,
    dfs: &Vec<u64>,
    n: u64,
) -> (w: Vec<i64>)
    requires
        vocab.deep_view().no_duplicates(),
        dfs@.len() == vocab@.len(),
        tokens@.len() <= DOC_LIMIT,
        n < LN_ARG_LIMIT,
        forall|j: int| 0 <= j < dfs@.len() ==> #[trigger] dfs@[j] + 1 < LN_ARG_LIMIT,
    ensures
        w@.len() == vocab@.len(),
        ints_of(w@) == weights_spec(tokens.deep_view(), vocab.deep_view(), dfs@, n as nat),
        norm_sq(ints_of(w@)) <= NORM_LIMIT,
{
    let ghost tdv = tokens.deep_view();
    let ghost vdv = vocab.deep_view();
    let m = vocab.len();
    let mut w: Vec<i64> = Vec::new();
    let mut j: usize = 0;
    while j < m
        invariant
            m == vocab@.len(),
            tdv == tokens.deep_view(),
            vdv == vocab.deep_view(),
            dfs@.len() == m,
            tokens@.len() <= DOC_LIMIT,
            n < LN_ARG_LIMIT,
            forall|jj: int| 0 <= jj < dfs@.len() ==> #[trigger] dfs@[jj] + 1 < LN_ARG_LIMIT,
            j <= m,
            w@.len() == j,
            forall|jj: int|
                0 <= jj < j ==> #[trigger] w@[jj] as int == term_weight_spec(
                    n as nat,
                    dfs@[jj] as nat,
                    count_in(tdv, vdv[jj]),
                ),
            forall|jj: int|
                0 <= jj < j ==> -(IDF_LIMIT as int * count_in(tdv, vdv[jj])) <= #[trigger] w@[jj]
                    as int <= IDF_LIMIT as int * count_in(tdv, vdv[jj]),
        decreases m - j,
    {
        let tf = count_occurrences(tokens, vocab[j].as_str());
        proof {
            assert(vdv[j as int] == vocab@[j as int]@);
            lemma_count_in_range(tdv, vdv[j as int]);
        }
        let wj: i64 = if n == 0 {
            0
        } else {
            let idf = idf_milli(n, dfs[j]);
            proof {
                assert((tf as i64) * idf <= IDF_LIMIT as int * count_in(tdv, vdv[j as int])
                    && (tf as i64) * idf >= -(IDF_LIMIT as int * count_in(tdv, vdv[j as int])))
                    by (nonlinear_arith)
                    requires
                        0 <= tf as int <= 2048,
                        tf as int == count_in(tdv, vdv[j as int]),
                        -IDF_LIMIT <= idf <= IDF_LIMIT,
                        IDF_LIMIT == 32767i64;
            }
            (tf as i64) * idf
        };
        w.push(wj);
        j = j + 1;
    }
    proof {
        assert(ints_of(w@) =~= weights_spec(tdv, vdv, dfs@, n as nat));
        lemma_weights_norm_bound(ints_of(w@), tdv, vdv);
    }
    w
}

// ---------------------------------------------------------------------------
// The trained model
// ---------------------------------------------------------------------------

/// A trained model: the vocabulary, the per-term document frequencies the
/// query projector needs, and the dense weight matrix, one row per corpus
/// document in corpus order.
pub struct TfIdf {
    /// The vocabulary: distinct terms in order of first appearance; its
    /// order is the column order of the matrix.
    pub word_vec: Vec<String>,
    /// How many documents hold each term, in vocabulary order.
    pub doc_freq: Vec<u64>,
    /// The weight matrix: row `i` is the weight vector of corpus id `i`.
    pub tf_idf_vec: Vec<Vec<i64>>,
}

impl TfIdf {
    /// The vocabulary as character sequences.
    pub open spec fn words(&self) -> Seq<Seq<char>> {
        self.word_vec.deep_view()
    }

    /// Well-formedness: matching lengths, a duplicate-free vocabulary,
    /// counts small enough for the fixed-point logarithm, and row norms
    /// small enough for exact cosine comparisons.
    pub open spec fn wf(&self) -> bool {
        &&& self.doc_freq@.len() == self.word_vec@.len()
        &&& self.words().no_duplicates()
        &&& self.tf_idf_vec@.len() < LN_ARG_LIMIT
        &&& forall|j: int|
            0 <= j < self.doc_freq@.len() ==> #[trigger] self.doc_freq@[j] + 1 < LN_ARG_LIMIT
        &&& forall|i: int|
            0 <= i < self.tf_idf_vec@.len() ==> (#[trigger] self.tf_idf_vec@[i]@.len())
                == self.word_vec@.len()
        &&& forall|i: int|
            0 <= i < self.tf_idf_vec@.len() ==> norm_sq(ints_of(#[trigger] self.tf_idf_vec@[i]@))
                <= NORM_LIMIT
    }
}

/// The document frequency of every vocabulary term.
fn doc_freqs(docs: &Vec<Vec<String>>, vocab: &Vec<String>) -> (dfs: Vec<u64>)
    requires
        docs@.len() + 1 < LN_ARG_LIMIT,
    ensures
        dfs@.len() == vocab@.len(),
        forall|j: int|
            0 <= j < vocab@.len() ==> #[trigger] dfs@[j] as int == df_count(
                docs.deep_view(),
                vocab.deep_view()[j],
            ),
        forall|j: int| 0 <= j < vocab@.len() ==> #[trigger] dfs@[j] <= docs@.len(),
{
    let ghost ddv = docs.deep_view();
    let ghost vdv = vocab.deep_view();
    let m = vocab.len();
    let n = docs.len();
    let mut dfs: Vec<u64> = Vec::new();
    let mut j: usize = 0;
    while j < m
        invariant
            m == vocab@.len(),
            n == docs@.len(),
            ddv == docs.deep_view(),
            vdv == vocab.deep_view(),
            n + 1 < LN_ARG_LIMIT,
            j <= m,
            dfs@.len() == j,
            forall|jj: int|
                0 <= jj < j ==> #[trigger] dfs@[jj] as int == df_count(ddv, vdv[jj]),
            forall|jj: int| 0 <= jj < j ==> #[trigger] dfs@[jj] <= n,
        decreases m - j,
    {
        let ghost t = vdv[j as int];
        let mut c: u64 = 0;
        let mut i: usize = 0;
        proof {
            assert(ddv.take(0) =~~= Seq::<Seq<Seq<char>>>::empty());
        }
        while i < n
            invariant
                n == docs@.len(),
                ddv == docs.deep_view(),
                vdv == vocab.deep_view(),
                m == vocab@.len(),
                j < m,
                t == vdv[j as int],
                i <= n,
                c == df_count(ddv.take(i as int), t),
                c <= i,
            decreases n - i,
        {
            proof {
                assert(ddv.take(i + 1).drop_last() =~~= ddv.take(i as int));
                assert(ddv.take(i + 1).last() == ddv[i as int]);
                assert(ddv[i as int] == docs@[i as int].deep_view());
                assert(vdv[j as int] == vocab@[j as int]@);
            }
            if doc_contains(&docs[i], vocab[j].as_str()) {
                c = c + 1;
            }
            i = i + 1;
        }
        proof {
            assert(ddv.take(n as int) =~~= ddv);
        }
        dfs.push(c);
        j = j + 1;
    }
    dfs
}

/// Trains a model on a tokenized corpus: builds the vocabulary, counts
/// document frequencies, and fills the weight matrix with exact
/// fixed-point term-frequency / inverse-document-frequency weights. The
/// matrix has one row per document and one column per vocabulary term; an
/// empty corpus gives an empty vocabulary and an empty matrix.
impl TfIdf {
    pub fn get_tf_idf(docs: &Vec<Vec<String>>) -> (r: TfIdf)
        requires
            docs@.len() + 1 < LN_ARG_LIMIT,
            forall|i: int| 0 <= i < docs@.len() ==> (#[trigger] docs@[i]@.len()) <= DOC_LIMIT,
        ensures
            r.wf(),
            r.words() == vocab_spec(docs.deep_view()),
            r.word_vec@.len() == r.doc_freq@.len(),
            forall|j: int|
                0 <= j < r.doc_freq@.len() ==> #[trigger] r.doc_freq@[j] as int == df_count(
                    docs.deep_view(),
                    vocab_spec(docs.deep_view())[j],
                ),
            r.tf_idf_vec@.len() == docs@.len(),
            forall|i: int|
                0 <= i < docs@.len() ==> (#[trigger] r.tf_idf_vec@[i]@.len()) == r.word_vec@.len(),
            forall|i: int|
                0 <= i < docs@.len() ==> ints_of(#[trigger] r.tf_idf_vec@[i]@) == weights_spec(
                    docs.deep_view()[i],
                    vocab_spec(docs.deep_view()),
                    r.doc_freq@,
                    docs@.len() as nat,
                ),
    {
        let ghost ddv = docs.deep_view();
        let vocab = build_vocabulary(docs);
        let dfs = doc_freqs(docs, &vocab);
        let n = docs.len();
        let mut rows: Vec<Vec<i64>> = Vec::new();
        let mut i: usize = 0;
        while i < n
            invariant
                n == docs@.len(),
                ddv == docs.deep_view(),
                n + 1 < LN_ARG_LIMIT,
                forall|ii: int| 0 <= ii < n ==> (#[trigger] docs@[ii]@.len()) <= DOC_LIMIT,
                vocab.deep_view() == vocab_spec(ddv),
                vocab.deep_view().no_duplicates(),
                dfs@.len() == vocab@.len(),
                forall|j: int|
                    0 <= j < vocab@.len() ==> #[trigger] dfs@[j] as int == df_count(
                        ddv,
                        vocab.deep_view()[j],
                    ),
                forall|j: int| 0 <= j < vocab@.len() ==> #[trigger] dfs@[j] <= n,
                i <= n,
                rows@.len() == i,
                forall|ii: int|
                    0 <= ii < i ==> (#[trigger] rows@[ii]@.len()) == vocab@.len(),
                forall|ii: int|
                    0 <= ii < i ==> ints_of(#[trigger] rows@[ii]@) == weights_spec(
                        ddv[ii],
                        vocab_spec(ddv),
                        dfs@,
                        n as nat,
                    ),
                forall|ii: int|
                    0 <= ii < i ==> norm_sq(ints_of(#[trigger] rows@[ii]@)) <= NORM_LIMIT,
            decreases n - i,
        {
            proof {
                assert(docs@[i as int].deep_view() == ddv[i as int]);
                assert(docs@[i as int]@.len() == ddv[i as int].len());
            }
            let row = weights_for_tokens(&docs[i], &vocab, &dfs, n as u64);
            rows.push(row);
            i = i + 1;
        }
        TfIdf { word_vec: vocab, doc_freq: dfs, tf_idf_vec: rows }
    }
}

} // verus!
