//! Ranking corpus documents against a projected query by cosine
//! similarity, exactly: a score keeps the integer dot product and the two
//! squared norms, and comparing a cosine with a rational threshold is
//! decided by exact integer arithmetic, with no rounding anywhere.

use vstd::prelude::*;
use crate::model::{TfIdf, weights_for_tokens, weights_spec, DOC_LIMIT};
use crate::vector::{dot, norm_sq, ints_of, dot_and_norms, NORM_LIMIT};

verus! {

/// The exact cosine similarity of a query and one document row: the dot
/// product and both squared norms. The cosine itself is
/// `dot / (sqrt(query_norm_sq) * sqrt(row_norm_sq))`, taken as zero when
/// either norm is zero.
#[derive(Clone, Copy, PartialEq, Eq, Structural, Debug)]
pub struct Similarity {
    pub dot: i128,
    pub query_norm_sq: i128,
    pub row_norm_sq: i128,
}

/// Whether `d / (sqrt(a) * sqrt(b))` is strictly above `num / den`, for
/// `den > 0`, with the quotient taken as zero when `a` or `b` is zero.
/// Multiplying the comparison through by the positive `den * sqrt(a * b)`
/// and squaring turns it into the integer comparisons written here, with
/// the signs of `d` and `num` deciding which direction squaring keeps.
pub open spec fn cosine_exceeds_spec(d: int, a: int, b: int, num: int, den: int) -> bool {
    if a == 0 || b == 0 {
        num < 0
    } else if num >= 0 {
        d > 0 && d * d * (den * den) > num * num * (a * b)
    } else {
        d >= 0 || d * d * (den * den) < num * num * (a * b)
    }
}

impl Similarity {
    /// The bounds every score produced by the ranker meets: norms are
    /// nonnegative and small, and Cauchy-Schwarz holds.
    pub open spec fn valid(&self) -> bool {
        &&& 0 <= self.query_norm_sq <= NORM_LIMIT
        &&& 0 <= self.row_norm_sq <= NORM_LIMIT
        &&& self.dot * self.dot <= self.query_norm_sq * self.row_norm_sq
    }

    /// Whether this score is strictly above the threshold `num / den`.
    pub fn passes(&self, num: i64, den: i64) -> (r: bool)
        requires
            1 <= den <= 1000,
            -1000 <= num <= 1000,
            self.valid(),
        ensures
            r == cosine_exceeds_spec(
                self.dot as int,
                self.query_norm_sq as int,
                self.row_norm_sq as int,
                num as int,
                den as int,
            ),
    {
        let d = self.dot;
        let a = self.query_norm_sq;
        let b = self.row_norm_sq;
        if a == 0 || b == 0 {
            return num < 0;
        }
        proof {
            assert(d <= NORM_LIMIT && d >= -NORM_LIMIT) by (nonlinear_arith)
                requires
                    d * d <= a * b,
                    0 <= a <= NORM_LIMIT,
                    0 <= b <= NORM_LIMIT,
                    NORM_LIMIT == 0x10_0000_0000_0000int;
            assert(d * den <= 0x4000_0000_0000_0000 && d * den >= -0x4000_0000_0000_0000)
                by (nonlinear_arith)
                requires
                    -0x10_0000_0000_0000 <= d <= 0x10_0000_0000_0000,
                    1 <= den <= 1000;
        }
        let dd: i128 = d * (den as i128);
        proof {
            assert(dd * dd <= 0x1000_0000_0000_0000_0000_0000_0000_0000) by (nonlinear_arith)
                requires -0x4000_0000_0000_0000 <= dd <= 0x4000_0000_0000_0000;
            assert(dd * dd >= 0) by (nonlinear_arith);
        }
        let lhs: i128 = dd * dd;
        proof {
            assert(a * b <= 0x100_0000_0000_0000_0000_0000_0000) by (nonlinear_arith)
                requires
                    0 <= a <= 0x10_0000_0000_0000,
                    0 <= b <= 0x10_0000_0000_0000;
            assert(a * b >= 0) by (nonlinear_arith)
                requires a >= 0, b >= 0;
        }
        let ab: i128 = a * b;
        proof {
            assert((num as i128) * (num as i128) <= 1000000
                && (num as i128) * (num as i128) >= 0) by (nonlinear_arith)
                requires -1000 <= num as i128 <= 1000;
        }
        let nn: i128 = (num as i128) * (num as i128);
        proof {
            assert(nn * ab <= 0x4000_0000_0000_0000_0000_0000_0000_0000) by (nonlinear_arith)
                requires
                    0 <= nn <= 1000000,
                    0 <= ab <= 0x100_0000_0000_0000_0000_0000_0000;
            assert(nn * ab >= 0) by (nonlinear_arith)
                requires nn >= 0, ab >= 0;
        }
        let rhs: i128 = nn * ab;
        proof {
            assert(dd * dd == d * d * ((den as int) * (den as int))) by (nonlinear_arith)
                requires dd == d * (den as i128);
            assert(nn * ab == (num as int) * (num as int) * ((a as int) * (b as int)))
                by (nonlinear_arith)
                requires nn == (num as i128) * (num as i128), ab == a * b;
        }
        if num >= 0 {
            d > 0 && lhs > rhs
        } else {
            d >= 0 || lhs < rhs
        }
    }
}

impl TfIdf {
    /// The query's weight vector in the trained space, by the stored
    /// vocabulary and document frequencies.
    pub open spec fn query_vector_spec(&self, tokens: Seq<Seq<char>>) -> Seq<int> {
        weights_spec(tokens, self.words(), self.doc_freq@, self.tf_idf_vec@.len() as nat)
    }

    /// Scores every corpus document against a tokenized query: projects the
    /// query into the trained vector space, then pairs each document id
    /// with its exact cosine score, in ascending id order. A query that
    /// shares no term with the vocabulary has the all-zero vector and
    /// scores zero against everything.
    pub fn predict(&self, trg: &Vec<String>) -> (res: Vec<(usize, Similarity)>)
        requires
            self.wf(),
            trg@.len() <= DOC_LIMIT,
        ensures
            res@.len() == self.tf_idf_vec@.len(),
            forall|i: int| 0 <= i < res@.len() ==> (#[trigger] res@[i].0) == i,
            forall|i: int|
                0 <= i < res@.len() ==> (#[trigger] res@[i].1).dot == dot(
                    self.query_vector_spec(trg.deep_view()),
                    ints_of(self.tf_idf_vec@[i]@),
                ),
            forall|i: int|
                0 <= i < res@.len() ==> (#[trigger] res@[i].1).query_norm_sq == norm_sq(
                    self.query_vector_spec(trg.deep_view()),
                ),
            forall|i: int|
                0 <= i < res@.len() ==> (#[trigger] res@[i].1).row_norm_sq == norm_sq(
                    ints_of(self.tf_idf_vec@[i]@),
                ),
            forall|i: int| 0 <= i < res@.len() ==> (#[trigger] res@[i].1).valid(),
    {
        let ghost qspec = self.query_vector_spec(trg.deep_view());
        let n = self.tf_idf_vec.len();
        let qvec = weights_for_tokens(trg, &self.word_vec, &self.doc_freq, n as u64);
        let mut res: Vec<(usize, Similarity)> = Vec::new();
        let mut i: usize = 0;
        while i < n
            invariant
                n == self.tf_idf_vec@.len(),
                self.wf(),
                qvec@.len() == self.word_vec@.len(),
                ints_of(qvec@) == qspec,
                norm_sq(ints_of(qvec@)) <= NORM_LIMIT,
                i <= n,
                res@.len() == i,
                forall|ii: int| 0 <= ii < i ==> (#[trigger] res@[ii].0) == ii,
                forall|ii: int|
                    0 <= ii < i ==> (#[trigger] res@[ii].1).dot == dot(
                        qspec,
                        ints_of(self.tf_idf_vec@[ii]@),
                    ),
                forall|ii: int|
                    0 <= ii < i ==> (#[trigger] res@[ii].1).query_norm_sq == norm_sq(qspec),
                forall|ii: int|
                    0 <= ii < i ==> (#[trigger] res@[ii].1).row_norm_sq == norm_sq(
                        ints_of(self.tf_idf_vec@[ii]@),
                    ),
                forall|ii: int| 0 <= ii < i ==> (#[trigger] res@[ii].1).valid(),
            decreases n - i,
        {
            let (d, qn, rn) = dot_and_norms(&qvec, &self.tf_idf_vec[i]);
            res.push((i, Similarity { dot: d, query_norm_sq: qn, row_norm_sq: rn }));
            i = i + 1;
        }
        res
    }
}

/// Keeps, in order, exactly the scored documents whose cosine is strictly
/// above the threshold `num / den`.
pub fn filter_matches(scores: &Vec<(usize, Similarity)>, num: i64, den: i64) -> (kept: Vec<
    (usize, Similarity),
>)
    requires
        1 <= den <= 1000,
        -1000 <= num <= 1000,
        forall|i: int| 0 <= i < scores@.len() ==> (#[trigger] scores@[i].1).valid(),
    ensures
        kept@ == scores@.filter(
            (|p: (usize, Similarity)|
                cosine_exceeds_spec(
                    p.1.dot as int,
                    p.1.query_norm_sq as int,
                    p.1.row_norm_sq as int,
                    num as int,
                    den as int,
                )),
        ),
{
    let ghost pred = (|p: (usize, Similarity)|
        cosine_exceeds_spec(
            p.1.dot as int,
            p.1.query_norm_sq as int,
            p.1.row_norm_sq as int,
            num as int,
            den as int,
        ));
    let n = scores.len();
    let mut kept: Vec<(usize, Similarity)> = Vec::new();
    let mut i: usize = 0;
    proof {
        assert(scores@.take(0) =~= Seq::<(usize, Similarity)>::empty());
        assert(scores@.take(0).filter(pred) =~= Seq::<(usize, Similarity)>::empty());
    }
    while i < n
        invariant
            n == scores@.len(),
            1 <= den <= 1000,
            -1000 <= num <= 1000,
            forall|ii: int| 0 <= ii < n ==> (#[trigger] scores@[ii].1).valid(),
            i <= n,
            pred == (|p: (usize, Similarity)|
                cosine_exceeds_spec(
                    p.1.dot as int,
                    p.1.query_norm_sq as int,
                    p.1.row_norm_sq as int,
                    num as int,
                    den as int,
                )),
            kept@ == scores@.take(i as int).filter(pred),
        decreases n - i,
    {
        proof {
            assert(scores@.take(i + 1) =~= scores@.take(i as int).push(scores@[i as int]));
            Seq::lemma_filter_push(scores@.take(i as int), scores@[i as int], pred);
        }
        let entry = scores[i];
        if entry.1.passes(num, den) {
            kept.push(entry);
        }
        i = i + 1;
    }
    proof {
        assert(scores@.take(n as int) =~= scores@);
    }
    kept
}

} // verus!
