//! Term-Frequency–Inverse-Document-Frequency vectorization.
//!
//! This component owns the exactly-specified integer stages of the TF-IDF
//! pipeline: driving the wrapped [`CountVectorizer`] to a vocabulary and a
//! count matrix, the per-column document frequency, and the IDF smoothing
//! arithmetic (`df' = df + smooth`, `n' = n_docs + smooth`). The remaining
//! floating-point stages — casting term frequencies, `idf = ln(n' / df') +
//! 1`, the column scaling, and the row normalization — are left to the
//! caller, which computes them from these exact integer values.

use vstd::prelude::*;
use crate::countvectorizer::{corpus_vocab, count_in, CountVectorizer};
use crate::matrix::{mat_contents, spec_doc_frequency, CountMatrix, document_frequency, lemma_doc_frequency_le};
use crate::tokenizer::spec_tokenize;

verus! {

/// Transforms a document collection by TF-IDF weighting: a count matrix via
/// a [`CountVectorizer`], term frequencies, smoothed inverse document
/// frequencies, and row normalization.
pub struct TfidfVectorizer {
    /// The vocabulary: the token with id `j` is entry `j`, in
    /// first-occurrence order. Empty until a fit.
    pub vocabulary_: Vec<String>,
    /// The inclusive range of n-gram sizes to include.
    pub ngram_range: (u32, u32),
    /// The case mode: "upper", "lower", or anything else for no conversion.
    pub case: String,
    /// Whether one is added to document frequencies and to the document
    /// count before the IDF logarithm, preventing zero divisions.
    pub smooth_idf: bool,
    /// Whether term frequencies are sublinearly scaled (`1 + ln(tf)`, with
    /// zero kept at zero).
    pub sublinear_tf: bool,
    /// The row norm applied last: "l1", "l2", or "none".
    pub norm: String,
}

impl TfidfVectorizer {
    /// A TF-IDF vectorizer with an empty vocabulary and the default
    /// weighting: smoothed IDF, no sublinear term frequency, L2 row norm.
    pub fn new(ngram_range: (u32, u32), case: &str) -> (v: TfidfVectorizer)
        ensures
            v.vocabulary_@.len() == 0,
            v.ngram_range == ngram_range,
            v.case@ == case@,
            v.smooth_idf == true,
            v.sublinear_tf == false,
            v.norm@ == "l2"@,
    {
        TfidfVectorizer {
            vocabulary_: Vec::new(),
            ngram_range,
            case: case.to_owned(),
            smooth_idf: true,
            sublinear_tf: false,
            norm: "l2".to_owned(),
        }
    }

    /// Fits a fresh [`CountVectorizer`] over the documents and takes over
    /// its vocabulary: afterwards this vectorizer's vocabulary is exactly
    /// the one the count matrix is indexed by.
    pub fn create_countvector(&mut self, docs: Vec<&str>) -> (m: CountMatrix)
        requires
            old(self).vocabulary_@.len() == 0,
        ensures
            ({
                let toks = spec_tokenize(
                    docs.deep_view(),
                    old(self).ngram_range.0 as int,
                    old(self).ngram_range.1 as int,
                    old(self).case@,
                );
                let vocab = corpus_vocab(toks);
                &&& final(self).vocabulary_.deep_view() == vocab
                &&& final(self).ngram_range == old(self).ngram_range
                &&& final(self).case == old(self).case
                &&& final(self).smooth_idf == old(self).smooth_idf
                &&& final(self).sublinear_tf == old(self).sublinear_tf
                &&& final(self).norm == old(self).norm
                &&& mat_contents(m).len() == docs@.len()
                &&& forall|i: int|
                    0 <= i < docs@.len() ==> (#[trigger] mat_contents(m)[i]).len() == vocab.len()
                &&& forall|i: int, j: int|
                    0 <= i < docs@.len() && 0 <= j < vocab.len() ==> mat_contents(m)[i][j]
                        == count_in(toks[i], vocab[j])
            }),
    {
        let mut count_vectorizer = CountVectorizer::new(self.ngram_range, self.case.as_str());
        let countvector = count_vectorizer.fit_transform(docs);
        self.vocabulary_ = count_vectorizer.vocabulary_;
        countvector
    }

    /// The smoothed document frequencies and the smoothed document count:
    /// with `smooth = 1` when smoothing is on and `0` otherwise, entry `j`
    /// is `df_j + smooth` and the second component is `n_docs + smooth` —
    /// the exact operands of `idf_j = ln((n_docs + smooth) / (df_j +
    /// smooth)) + 1`.
    pub fn smoothed_document_frequency(&self, m: &Vec<Vec<u64>>) -> (res: (Vec<u64>, u64))
        requires
            forall|i: int|
                0 <= i < m@.len() ==> (#[trigger] m.deep_view()[i]).len()
                    == m.deep_view()[0].len(),
            m@.len() < u64::MAX,
        ensures
            ({
                let smooth: int = if self.smooth_idf {
                    1
                } else {
                    0
                };
                &&& res.0@.len() == if m@.len() == 0 {
                    0int
                } else {
                    m.deep_view()[0].len() as int
                }
                &&& forall|j: int|
                    0 <= j < res.0@.len() ==> res.0@[j] == spec_doc_frequency(m.deep_view(), j)
                        + smooth
                &&& res.1 == m@.len() + smooth
            }),
    {
        let df = document_frequency(m);
        let smooth: u64 = if self.smooth_idf {
            1
        } else {
            0
        };
        let n = m.len();
        let mut smoothed: Vec<u64> = Vec::new();
        let dlen = df.len();
        for j in 0..dlen
            invariant
                dlen == df@.len(),
                n == m@.len(),
                n < u64::MAX,
                smooth <= 1,
                forall|j2: int|
                    0 <= j2 < dlen ==> df@[j2] == spec_doc_frequency(m.deep_view(), j2),
                smoothed@.len() == j,
                forall|j2: int| 0 <= j2 < j ==> smoothed@[j2] == df@[j2] + smooth,
        {
            proof {
                lemma_doc_frequency_le(m.deep_view(), j as int);
            }
            smoothed.push(df[j] + smooth);
        }
        (smoothed, n as u64 + smooth)
    }
}

} // verus!