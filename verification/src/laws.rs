//! The laws of the library, stated and proved over the same specification
//! functions its contracts use: the sign of the inverse document
//! frequency, the bounds of cosine similarity, the supremacy of an exact
//! self-match, the silence of an out-of-vocabulary query, and the
//! monotonic growth of the vocabulary under retraining.

use vstd::prelude::*;
use crate::idf::{idf_spec, lemma_ln_fixed_sign};
use crate::vector::{
    dot, norm_sq, ints_of, lemma_cauchy_schwarz, lemma_norm_sq_nonneg, lemma_zero_norm_zero_dot,
    lemma_dot_self,
};
use crate::model::{TfIdf, count_in, term_weight_spec, vocab_spec, vocab_stream,
    lemma_vocab_stream_extend, lemma_count_in_range};
use crate::ranker::cosine_exceeds_spec;

verus! {

// ---------------------------------------------------------------------------
// Inverse document frequency
// ---------------------------------------------------------------------------

/// The inverse document frequency `ln(n / (1 + df))` is positive exactly
/// when the smoothed denominator `1 + df` is below the document count `n`,
/// zero exactly when `n == 1 + df`, and negative exactly when `n` is
/// smaller still — so a term missing from at least two documents always
/// carries positive weight, and one in every document carries none or less.
pub proof fn lemma_idf_sign(n: nat, df: nat)
    requires
        1 <= n,
    ensures
        (idf_spec(n, df) > 0) <==> (n > df + 1),
        (idf_spec(n, df) == 0) <==> (n == df + 1),
        (idf_spec(n, df) < 0) <==> (n < df + 1),
{
    lemma_ln_fixed_sign(n, df + 1);
}

// ---------------------------------------------------------------------------
// Cosine similarity bounds
// ---------------------------------------------------------------------------

/// Cosine similarity never exceeds one: no score is strictly above any
/// threshold of one or more.
pub proof fn lemma_cosine_at_most_one(q: Seq<int>, r: Seq<int>, num: int, den: int)
    requires
        q.len() == r.len(),
        1 <= den <= num,
    ensures
        !cosine_exceeds_spec(dot(q, r), norm_sq(q), norm_sq(r), num, den),
{
    let d = dot(q, r);
    let a = norm_sq(q);
    let b = norm_sq(r);
    lemma_cauchy_schwarz(q, r);
    lemma_norm_sq_nonneg(q);
    lemma_norm_sq_nonneg(r);
    if a == 0 || b == 0 {
    } else {
        assert(d * d * (den * den) <= (a * b) * (den * den)) by (nonlinear_arith)
            requires d * d <= a * b, den * den >= 0;
        assert((a * b) * (den * den) <= (a * b) * (num * num)) by (nonlinear_arith)
            requires a * b >= 0, 1 <= den <= num;
        assert(num * num * (a * b) == (a * b) * (num * num)) by (nonlinear_arith);
    }
}

/// Cosine similarity never falls to minus one or below: every score is
/// strictly above any threshold below minus one.
pub proof fn lemma_cosine_above_minus_one(q: Seq<int>, r: Seq<int>, num: int, den: int)
    requires
        q.len() == r.len(),
        1 <= den,
        num < -den,
    ensures
        cosine_exceeds_spec(dot(q, r), norm_sq(q), norm_sq(r), num, den),
{
    let d = dot(q, r);
    let a = norm_sq(q);
    let b = norm_sq(r);
    lemma_cauchy_schwarz(q, r);
    lemma_norm_sq_nonneg(q);
    lemma_norm_sq_nonneg(r);
    if a == 0 || b == 0 {
    } else if d < 0 {
        assert(a * b > 0) by (nonlinear_arith)
            requires a > 0, b > 0;
        assert(d * d * (den * den) <= (a * b) * (den * den)) by (nonlinear_arith)
            requires d * d <= a * b, den * den >= 0;
        assert((a * b) * (den * den) < (a * b) * (num * num)) by (nonlinear_arith)
            requires a * b > 0, 1 <= den, num < -den;
        assert(num * num * (a * b) == (a * b) * (num * num)) by (nonlinear_arith);
    }
}

/// A query (or row) with squared norm zero scores exactly zero against
/// everything: its dot products vanish and it beats only negative
/// thresholds.
pub proof fn lemma_zero_vector_cosine(q: Seq<int>, r: Seq<int>, num: int, den: int)
    requires
        q.len() == r.len(),
        norm_sq(q) == 0,
    ensures
        dot(q, r) == 0,
        cosine_exceeds_spec(dot(q, r), norm_sq(q), norm_sq(r), num, den) == (num < 0),
{
    lemma_zero_norm_zero_dot(q, r);
}

// ---------------------------------------------------------------------------
// An exact self-match is the best match
// ---------------------------------------------------------------------------

/// A query identical to a stored row yields the maximum score: every
/// threshold that any row's score is strictly above, the identical row's
/// score is strictly above as well.
pub proof fn lemma_self_match_is_max(q: Seq<int>, r: Seq<int>, num: int, den: int)
    requires
        q.len() == r.len(),
        1 <= den,
    ensures
        cosine_exceeds_spec(dot(q, r), norm_sq(q), norm_sq(r), num, den)
            ==> cosine_exceeds_spec(dot(q, q), norm_sq(q), norm_sq(q), num, den),
{
    let d = dot(q, r);
    let a = norm_sq(q);
    let b = norm_sq(r);
    lemma_dot_self(q);
    lemma_cauchy_schwarz(q, r);
    lemma_norm_sq_nonneg(q);
    lemma_norm_sq_nonneg(r);
    if cosine_exceeds_spec(d, a, b, num, den) {
        if a == 0 || b == 0 {
        } else if num >= 0 {
            assert(d * d * (den * den) <= (a * b) * (den * den)) by (nonlinear_arith)
                requires d * d <= a * b, den * den >= 0;
            assert(num * num < den * den) by (nonlinear_arith)
                requires
                    num * num * (a * b) < (a * b) * (den * den),
                    a * b > 0 || (a > 0 && b > 0);
            assert(a * a * (den * den) > num * num * (a * a)) by (nonlinear_arith)
                requires a > 0, num * num < den * den;
        }
    }
}

/// A self-match is a perfect match: its score has `dot == norm_sq(q)`, so
/// its cosine is exactly one.
pub proof fn lemma_self_match_perfect(q: Seq<int>)
    ensures
        dot(q, q) == norm_sq(q),
        dot(q, q) * dot(q, q) == norm_sq(q) * norm_sq(q),
        dot(q, q) >= 0,
{
    lemma_dot_self(q);
    lemma_norm_sq_nonneg(q);
}

/// A vector scaled entrywise by a constant.
pub open spec fn scaled(c: int, q: Seq<int>) -> Seq<int> {
    q.map_values(|x: int| c * x)
}

proof fn lemma_dot_scaled(q: Seq<int>, c: int)
    ensures
        dot(q, scaled(c, q)) == c * dot(q, q),
    decreases q.len(),
{
    if q.len() == 0 {
        assert(c * 0 == 0) by (nonlinear_arith);
    } else {
        lemma_dot_scaled(q.drop_last(), c);
        assert(scaled(c, q).drop_last() =~= scaled(c, q.drop_last()));
        assert(scaled(c, q).last() == c * q.last());
        let x = q.last();
        assert(x * (c * x) == c * (x * x)) by (nonlinear_arith);
        assert(c * dot(q.drop_last(), q.drop_last()) + c * (x * x) == c * (dot(
            q.drop_last(),
            q.drop_last(),
        ) + x * x)) by (nonlinear_arith);
    }
}

proof fn lemma_norm_scaled(q: Seq<int>, c: int)
    ensures
        norm_sq(scaled(c, q)) == c * c * norm_sq(q),
    decreases q.len(),
{
    if q.len() == 0 {
        assert(c * c * 0 == 0) by (nonlinear_arith);
    } else {
        lemma_norm_scaled(q.drop_last(), c);
        assert(scaled(c, q).drop_last() =~= scaled(c, q.drop_last()));
        assert(scaled(c, q).last() == c * q.last());
        let x = q.last();
        assert((c * x) * (c * x) == c * c * (x * x)) by (nonlinear_arith);
        assert(c * c * norm_sq(q.drop_last()) + c * c * (x * x) == c * c * (norm_sq(q.drop_last())
            + x * x)) by (nonlinear_arith);
    }
}

/// A stored row that is a positive scalar multiple of the query scores a
/// cosine of exactly one: its dot product is nonnegative and its square
/// equals the product of the squared norms.
pub proof fn lemma_scaled_match_perfect(q: Seq<int>, c: int)
    requires
        c >= 1,
    ensures
        dot(q, scaled(c, q)) == c * norm_sq(q),
        dot(q, scaled(c, q)) >= 0,
        dot(q, scaled(c, q)) * dot(q, scaled(c, q)) == norm_sq(q) * norm_sq(scaled(c, q)),
{
    lemma_dot_scaled(q, c);
    lemma_norm_scaled(q, c);
    lemma_dot_self(q);
    lemma_norm_sq_nonneg(q);
    let a = norm_sq(q);
    assert(c * a >= 0) by (nonlinear_arith)
        requires c >= 1, a >= 0;
    assert((c * a) * (c * a) == a * (c * c * a)) by (nonlinear_arith);
}

/// In a trained model, a query that projects onto exactly one stored row —
/// as a query with the same tokens as that document does, by the trainer's
/// contract — yields the maximum score: every threshold any document's
/// score is strictly above, that document's own score is strictly above.
pub proof fn lemma_trained_self_match(
    m: &TfIdf,
    tokens: Seq<Seq<char>>,
    i: int,
    j: int,
    num: int,
    den: int,
)
    requires
        m.wf(),
        0 <= i < m.tf_idf_vec@.len(),
        0 <= j < m.tf_idf_vec@.len(),
        ints_of(m.tf_idf_vec@[i]@) == m.query_vector_spec(tokens),
        1 <= den,
    ensures
        cosine_exceeds_spec(
            dot(m.query_vector_spec(tokens), ints_of(m.tf_idf_vec@[j]@)),
            norm_sq(m.query_vector_spec(tokens)),
            norm_sq(ints_of(m.tf_idf_vec@[j]@)),
            num,
            den,
        ) ==> cosine_exceeds_spec(
            dot(m.query_vector_spec(tokens), ints_of(m.tf_idf_vec@[i]@)),
            norm_sq(m.query_vector_spec(tokens)),
            norm_sq(ints_of(m.tf_idf_vec@[i]@)),
            num,
            den,
        ),
{
    let qv = m.query_vector_spec(tokens);
    let rj = ints_of(m.tf_idf_vec@[j]@);
    assert(qv.len() == m.words().len());
    assert(rj.len() == m.word_vec@.len());
    lemma_self_match_is_max(qv, rj, num, den);
}

// ---------------------------------------------------------------------------
// Out-of-vocabulary queries score zero
// ---------------------------------------------------------------------------

proof fn lemma_count_in_contains(doc: Seq<Seq<char>>, t: Seq<char>)
    ensures
        count_in(doc, t) > 0 ==> doc.contains(t),
    decreases doc.len(),
{
    if doc.len() == 0 {
    } else {
        lemma_count_in_contains(doc.drop_last(), t);
        if count_in(doc, t) > 0 {
            if doc.last() == t {
                assert(doc[doc.len() - 1] == t);
            } else {
                let k = choose|k: int| 0 <= k < doc.drop_last().len() && doc.drop_last()[k] == t;
                assert(doc[k] == t);
            }
        }
    }
}

proof fn lemma_all_zero_norm(v: Seq<int>)
    requires
        forall|j: int| 0 <= j < v.len() ==> v[j] == 0,
    ensures
        norm_sq(v) == 0,
    decreases v.len(),
{
    if v.len() == 0 {
    } else {
        assert(forall|j: int| 0 <= j < v.drop_last().len() ==> v.drop_last()[j] == v[j]);
        lemma_all_zero_norm(v.drop_last());
    }
}

/// A query none of whose tokens is in the vocabulary projects to the
/// all-zero vector, so it scores zero against every document and nothing
/// passes a nonnegative threshold.
pub proof fn lemma_oov_query_scores_zero(m: &TfIdf, tokens: Seq<Seq<char>>)
    requires
        forall|k: int| 0 <= k < tokens.len() ==> !m.words().contains(#[trigger] tokens[k]),
    ensures
        norm_sq(m.query_vector_spec(tokens)) == 0,
        forall|r: Seq<int>|
            r.len() == m.query_vector_spec(tokens).len() ==> #[trigger] dot(
                r,
                m.query_vector_spec(tokens),
            ) == 0 && dot(m.query_vector_spec(tokens), r) == 0,
{
    let qv = m.query_vector_spec(tokens);
    assert forall|j: int| 0 <= j < qv.len() implies qv[j] == 0 by {
        let w = m.words()[j];
        lemma_count_in_contains(tokens, w);
        if count_in(tokens, w) > 0 {
            let k = choose|k: int| 0 <= k < tokens.len() && tokens[k] == w;
            assert(m.words().contains(tokens[k]));
        }
        lemma_count_in_range(tokens, w);
        assert(count_in(tokens, w) == 0);
        assert(term_weight_spec(
            m.tf_idf_vec@.len() as nat,
            m.doc_freq@[j] as nat,
            0,
        ) == 0) by (nonlinear_arith);
    }
    lemma_all_zero_norm(qv);
    assert forall|r: Seq<int>| r.len() == qv.len() implies #[trigger] dot(r, qv) == 0 && dot(
        qv,
        r,
    ) == 0 by {
        lemma_zero_norm_zero_dot(qv, r);
        lemma_zero_dot_comm(r, qv);
    }
}

proof fn lemma_zero_dot_comm(r: Seq<int>, q: Seq<int>)
    requires
        q.len() == r.len(),
        norm_sq(q) == 0,
    ensures
        dot(r, q) == 0,
    decreases q.len(),
{
    if q.len() == 0 {
    } else {
        lemma_norm_sq_nonneg(q.drop_last());
        assert(q.last() * q.last() >= 0) by (nonlinear_arith);
        assert(q.last() == 0) by (nonlinear_arith)
            requires q.last() * q.last() <= 0;
        assert(r.last() * 0 == 0) by (nonlinear_arith);
        lemma_zero_dot_comm(r.drop_last(), q.drop_last());
    }
}

// ---------------------------------------------------------------------------
// Retraining only extends the vocabulary
// ---------------------------------------------------------------------------

/// Retraining with documents appended to the corpus keeps the old
/// vocabulary as a prefix of the new one: its length never decreases, and
/// the column of every old term keeps its index.
pub proof fn lemma_vocab_monotone(docs: Seq<Seq<Seq<char>>>, more: Seq<Seq<Seq<char>>>)
    ensures
        vocab_spec(docs).is_prefix_of(vocab_spec(docs + more)),
        vocab_spec(docs).len() <= vocab_spec(docs + more).len(),
        forall|j: int|
            0 <= j < vocab_spec(docs).len() ==> #[trigger] vocab_spec(docs + more)[j]
                == vocab_spec(docs)[j],
{
    vstd::seq_lib::lemma_flatten_concat(docs, more);
    assert(vocab_stream((docs + more).flatten()) == vocab_stream(
        docs.flatten() + more.flatten(),
    ));
    lemma_vocab_stream_extend(docs.flatten(), more.flatten());
}

} // verus!
