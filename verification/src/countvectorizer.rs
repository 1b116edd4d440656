//! Conversion of a document collection into a vocabulary and a dense
//! document-by-token count matrix.
//!
//! The vocabulary assigns ids contiguously from zero, in the order tokens are
//! first encountered while scanning documents in input order and, within one
//! document, tokens in emission order. Column `j` of the count matrix always
//! counts the token with id `j`.

use std::collections::HashMap;
use vstd::prelude::*;
use vstd::pervasive::VecAdditionalExecFns;
use vstd::seq_lib::lemma_seq_concat_contains_all_elements;
use crate::matrix::{mat_contents, CountMatrix};
use crate::tokenizer::{spec_tokenize, str_eq, tokenize_all};

verus! {

/// The number of times `t` occurs in `toks`.
pub open spec fn count_in(toks: Seq<Seq<char>>, t: Seq<char>) -> nat
    decreases toks.len(),
{
    if toks.len() == 0 {
        0
    } else {
        count_in(toks.drop_last(), t) + if toks.last() == t {
            1nat
        } else {
            0nat
        }
    }
}

/// The vocabulary after one more token: unchanged when the token is already
/// present, extended by the token (with the next id) when it is new.
pub open spec fn vocab_step(vocab: Seq<Seq<char>>, t: Seq<char>) -> Seq<Seq<char>> {
    if vocab.contains(t) {
        vocab
    } else {
        vocab.push(t)
    }
}

/// The vocabulary after scanning the tokens of one document left to right.
pub open spec fn add_tokens(vocab: Seq<Seq<char>>, toks: Seq<Seq<char>>) -> Seq<Seq<char>>
    decreases toks.len(),
{
    if toks.len() == 0 {
        vocab
    } else {
        add_tokens(vocab_step(vocab, toks.first()), toks.drop_first())
    }
}

/// The vocabulary after scanning the tokenized documents in order.
pub open spec fn corpus_vocab_from(vocab: Seq<Seq<char>>, docs: Seq<Seq<Seq<char>>>) -> Seq<
    Seq<char>,
>
    decreases docs.len(),
{
    if docs.len() == 0 {
        vocab
    } else {
        corpus_vocab_from(add_tokens(vocab, docs.first()), docs.drop_first())
    }
}

/// The vocabulary built from scratch over the tokenized documents: every
/// distinct token, in first-occurrence order, its id being its position.
pub open spec fn corpus_vocab(docs: Seq<Seq<Seq<char>>>) -> Seq<Seq<char>> {
    corpus_vocab_from(Seq::empty(), docs)
}

/// A token occurs zero times exactly when the sequence does not contain it.
pub proof fn lemma_count_zero(toks: Seq<Seq<char>>, t: Seq<char>)
    ensures
        (count_in(toks, t) == 0) <==> !toks.contains(t),
    decreases toks.len(),
{
    if toks.len() > 0 {
        lemma_count_zero(toks.drop_last(), t);
        assert(toks.contains(t) ==> toks.last() == t || toks.drop_last().contains(t)) by {
            if toks.contains(t) && toks.last() != t {
                let k = choose|k: int| 0 <= k < toks.len() && toks[k] == t;
                assert(toks.drop_last()[k] == t);
            }
        }
        assert(toks.drop_last().contains(t) ==> toks.contains(t)) by {
            if toks.drop_last().contains(t) {
                let k = choose|k: int| 0 <= k < toks.len() - 1 && toks.drop_last()[k] == t;
                assert(toks[k] == t);
            }
        }
    }
}

/// Appending one token increments its own count and leaves every other
/// count unchanged.
pub proof fn lemma_count_push(toks: Seq<Seq<char>>, x: Seq<char>, t: Seq<char>)
    ensures
        count_in(toks.push(x), t) == count_in(toks, t) + if x == t {
            1nat
        } else {
            0nat
        },
{
    assert(toks.push(x).drop_last() =~= toks);
    assert(toks.push(x).last() == x);
}

/// Scanning a document's tokens extends the vocabulary: earlier entries keep
/// their place and id, no duplicate appears, and afterwards the vocabulary
/// contains every token scanned.
pub proof fn lemma_add_tokens_properties(vocab: Seq<Seq<char>>, toks: Seq<Seq<char>>)
    requires
        vocab.no_duplicates(),
    ensures
        ({
            let v2 = add_tokens(vocab, toks);
            &&& v2.no_duplicates()
            &&& vocab.len() <= v2.len()
            &&& forall|j: int| 0 <= j < vocab.len() ==> v2[j] == vocab[j]
            &&& forall|k: int| 0 <= k < toks.len() ==> v2.contains(#[trigger] toks[k])
            &&& forall|t: Seq<char>| vocab.contains(t) ==> v2.contains(t)
        }),
    decreases toks.len(),
{
    if toks.len() == 0 {
        assert(add_tokens(vocab, toks) == vocab);
    } else {
        let v1 = vocab_step(vocab, toks.first());
        assert(v1.no_duplicates()) by {
            if !vocab.contains(toks.first()) {
                assert(forall|j: int|
                    0 <= j < vocab.len() ==> vocab[j] == #[trigger] v1[j] && v1[j] != toks.first());
            }
        }
        lemma_add_tokens_properties(v1, toks.drop_first());
        let v2 = add_tokens(vocab, toks);
        assert(v2 == add_tokens(v1, toks.drop_first()));
        assert(v1.contains(toks.first())) by {
            if !vocab.contains(toks.first()) {
                assert(v1.last() == toks.first());
            }
        }
        assert(forall|k: int|
            1 <= k < toks.len() ==> v2.contains(#[trigger] toks[k])) by {
            assert(forall|k: int|
                0 <= k < toks.drop_first().len() ==> v2.contains(#[trigger] toks.drop_first()[k]));
            assert(forall|k: int| 1 <= k < toks.len() ==> toks[k] == toks.drop_first()[k - 1]);
        }
        assert(v2.contains(toks[0]));
        assert(vocab.len() <= v1.len());
        assert(forall|j: int| 0 <= j < vocab.len() ==> v1[j] == vocab[j]);
        assert forall|t: Seq<char>| vocab.contains(t) implies v2.contains(t) by {
            let k = choose|k: int| 0 <= k < vocab.len() && vocab[k] == t;
            assert(v1[k] == t);
            assert(v1.contains(t));
        }
    }
}

/// Extending a scanned prefix by one token steps the vocabulary once.
pub proof fn lemma_add_tokens_push(vocab: Seq<Seq<char>>, toks: Seq<Seq<char>>, t: Seq<char>)
    ensures
        add_tokens(vocab, toks.push(t)) == vocab_step(add_tokens(vocab, toks), t),
    decreases toks.len(),
{
    if toks.len() == 0 {
        assert(toks.push(t).drop_first() =~= Seq::<Seq<char>>::empty());
        assert(toks.push(t).first() == t);
        assert(add_tokens(vocab, toks.push(t)) == add_tokens(
            vocab_step(vocab, t),
            Seq::<Seq<char>>::empty(),
        ));
        assert(add_tokens(vocab_step(vocab, t), Seq::<Seq<char>>::empty()) == vocab_step(
            vocab,
            t,
        ));
        assert(add_tokens(vocab, toks) == vocab);
    } else {
        assert(toks.push(t).first() == toks.first());
        assert(toks.push(t).drop_first() =~= toks.drop_first().push(t));
        let v1 = vocab_step(vocab, toks.first());
        assert(add_tokens(vocab, toks.push(t)) == add_tokens(v1, toks.drop_first().push(t)));
        lemma_add_tokens_push(v1, toks.drop_first(), t);
        assert(add_tokens(vocab, toks) == add_tokens(v1, toks.drop_first()));
    }
}

/// Scanning one more document folds its tokens into the vocabulary.
pub proof fn lemma_corpus_vocab_push(
    vocab: Seq<Seq<char>>,
    docs: Seq<Seq<Seq<char>>>,
    d: Seq<Seq<char>>,
)
    ensures
        corpus_vocab_from(vocab, docs.push(d)) == add_tokens(corpus_vocab_from(vocab, docs), d),
    decreases docs.len(),
{
    if docs.len() == 0 {
        assert(docs.push(d).drop_first() =~= Seq::<Seq<Seq<char>>>::empty());
        assert(docs.push(d).first() == d);
        assert(corpus_vocab_from(vocab, docs.push(d)) == corpus_vocab_from(
            add_tokens(vocab, d),
            Seq::<Seq<Seq<char>>>::empty(),
        ));
        assert(corpus_vocab_from(add_tokens(vocab, d), Seq::<Seq<Seq<char>>>::empty())
            == add_tokens(vocab, d));
        assert(corpus_vocab_from(vocab, docs) == vocab);
    } else {
        assert(docs.push(d).first() == docs.first());
        assert(docs.push(d).drop_first() =~= docs.drop_first().push(d));
        let v1 = add_tokens(vocab, docs.first());
        assert(corpus_vocab_from(vocab, docs.push(d)) == corpus_vocab_from(
            v1,
            docs.drop_first().push(d),
        ));
        lemma_corpus_vocab_push(v1, docs.drop_first(), d);
        assert(corpus_vocab_from(vocab, docs) == corpus_vocab_from(v1, docs.drop_first()));
    }
}

/// The id of a token: the first vocabulary index holding it.
pub fn find_token(vocab: &Vec<String>, t: &str) -> (r: Option<usize>)
    ensures
        match r {
            Some(i) => i < vocab@.len() && vocab.deep_view()[i as int] == t@ && forall|k: int|
                0 <= k < i ==> vocab.deep_view()[k] != t@,
            None => !vocab.deep_view().contains(t@),
        },
{
    let ghost vd = vocab.deep_view();
    let n = vocab.len();
    for i in 0..n
        invariant
            n == vd.len(),
            vd == vocab.deep_view(),
            forall|k: int| 0 <= k < i ==> vd[k] != t@,
    {
        if str_eq(vocab[i].as_str(), t) {
            return Some(i);
        }
    }
    proof {
        assert(forall|k: int| 0 <= k < vd.len() ==> vd[k] != t@);
    }
    None
}

/// Counts one document's tokens into a row indexed by token id, extending
/// the vocabulary with each token not seen before, in emission order.
fn count_doc(vocab: &mut Vec<String>, toks: &Vec<String>) -> (row: Vec<u64>)
    requires
        old(vocab).deep_view().no_duplicates(),
    ensures
        final(vocab).deep_view() == add_tokens(old(vocab).deep_view(), toks.deep_view()),
        final(vocab).deep_view().no_duplicates(),
        old(vocab)@.len() <= final(vocab)@.len(),
        forall|j: int|
            0 <= j < old(vocab)@.len() ==> final(vocab).deep_view()[j] == old(
                vocab,
            ).deep_view()[j],
        row@.len() == final(vocab)@.len(),
        forall|j: int|
            0 <= j < row@.len() ==> row@[j] == count_in(
                toks.deep_view(),
                final(vocab).deep_view()[j],
            ),
        forall|k: int|
            0 <= k < toks@.len() ==> final(vocab).deep_view().contains(
                #[trigger] toks.deep_view()[k],
            ),
{
    let ghost v0 = vocab.deep_view();
    let ghost td = toks.deep_view();
    let n = toks.len();
    let vlen = vocab.len();
    let mut row: Vec<u64> = Vec::new();
    for z in 0..vlen
        invariant
            row@.len() == z,
            forall|j: int| 0 <= j < z ==> row@[j] == 0,
    {
        row.push(0);
    }
    proof {
        assert(td.take(0) =~= Seq::<Seq<char>>::empty());
        assert(add_tokens(v0, td.take(0)) == v0);
        assert(forall|j: int|
            0 <= j < row@.len() ==> row@[j] == count_in(td.take(0), vocab.deep_view()[j]));
    }
    let mut k: usize = 0;
    while k < n
        invariant
            n == td.len(),
            n == toks@.len(),
            td == toks.deep_view(),
            k <= n,
            v0.no_duplicates(),
            vocab.deep_view().no_duplicates(),
            vocab.deep_view() == add_tokens(v0, td.take(k as int)),
            v0.len() <= vocab@.len(),
            forall|j: int| 0 <= j < v0.len() ==> vocab.deep_view()[j] == v0[j],
            row@.len() == vocab@.len(),
            forall|j: int|
                0 <= j < row@.len() ==> row@[j] == count_in(
                    td.take(k as int),
                    vocab.deep_view()[j],
                ),
            forall|j: int| 0 <= j < row@.len() ==> row@[j] <= k,
            forall|t: int| 0 <= t < k ==> vocab.deep_view().contains(#[trigger] td[t]),
        decreases n - k,
    {
        let ghost vd = vocab.deep_view();
        let t = &toks[k];
        proof {
            assert(t@ == td[k as int]);
            assert(td.take(k + 1) =~= td.take(k as int).push(td[k as int]));
            lemma_add_tokens_push(v0, td.take(k as int), td[k as int]);
        }
        match find_token(vocab, t.as_str()) {
            Some(id) => {
                proof {
                    assert(vd.contains(td[k as int]));
                    assert(vocab_step(vd, td[k as int]) == vd);
                    assert forall|j: int| 0 <= j < row@.len() implies count_in(
                        td.take(k + 1),
                        vd[j],
                    ) == count_in(td.take(k as int), vd[j]) + if vd[j] == td[k as int] {
                        1int
                    } else {
                        0int
                    } by {
                        lemma_count_push(td.take(k as int), td[k as int], vd[j]);
                    }
                }
                let c = row[id];
                row.set(id, c + 1);
                proof {
                    assert(forall|j: int|
                        0 <= j < row@.len() && j != id ==> vd[j] != vd[id as int]);
                }
            },
            None => {
                proof {
                    assert(!vd.contains(td[k as int]));
                    assert(vocab_step(vd, td[k as int]) == vd.push(td[k as int]));
                    assert(!td.take(k as int).contains(td[k as int])) by {
                        if td.take(k as int).contains(td[k as int]) {
                            let t0 = choose|t0: int|
                                0 <= t0 < k && td.take(k as int)[t0] == td[k as int];
                            assert(vd.contains(td[t0]));
                        }
                    }
                    lemma_count_zero(td.take(k as int), td[k as int]);
                    assert forall|j: int| 0 <= j < row@.len() implies count_in(
                        td.take(k + 1),
                        vd[j],
                    ) == count_in(td.take(k as int), vd[j]) + if vd[j] == td[k as int] {
                        1int
                    } else {
                        0int
                    } by {
                        lemma_count_push(td.take(k as int), td[k as int], vd[j]);
                    }
                    lemma_count_push(td.take(k as int), td[k as int], td[k as int]);
                    assert(forall|j: int| 0 <= j < vd.len() ==> vd[j] != td[k as int]);
                }
                let ghost vpre = vocab.deep_view();
                vocab.push(t.clone());
                row.push(1);
                proof {
                    assert(vocab.deep_view() =~= vpre.push(td[k as int]));
                    assert(vocab.deep_view().no_duplicates());
                    assert forall|t2: int| 0 <= t2 <= k implies vocab.deep_view().contains(
                        #[trigger] td[t2],
                    ) by {
                        if t2 < k {
                            let idx = choose|idx: int|
                                0 <= idx < vpre.len() && vpre[idx] == td[t2];
                            assert(vocab.deep_view()[idx] == td[t2]);
                        } else {
                            assert(vocab.deep_view()[vpre.len() as int] == td[k as int]);
                        }
                    }
                }
            },
        }
        k = k + 1;
    }
    proof {
        assert(td.take(n as int) =~= td);
    }
    row
}

/// Converts a collection of documents into a vocabulary and a dense term
/// count matrix.
///
/// Ids are assigned contiguously from zero in first-occurrence order across
/// the whole corpus; a fit starts from an empty vocabulary and fills it as a
/// side effect of [`CountVectorizer::fit_transform`].
pub struct CountVectorizer {
    /// The vocabulary: the token with id `j` is entry `j`, in
    /// first-occurrence order. Empty until a fit.
    pub vocabulary_: Vec<String>,
    /// The inclusive range of n-gram sizes to include.
    pub ngram_range: (u32, u32),
    /// The case mode: "upper", "lower", or anything else for no conversion.
    pub case: String,
}

impl CountVectorizer {
    /// A count vectorizer with an empty vocabulary.
    pub fn new(ngram_range: (u32, u32), case: &str) -> (cv: CountVectorizer)
        ensures
            cv.vocabulary_@.len() == 0,
            cv.ngram_range == ngram_range,
            cv.case@ == case@,
    {
        CountVectorizer { vocabulary_: Vec::new(), ngram_range, case: case.to_owned() }
    }

    /// Tokenizes the documents, builds the vocabulary in first-occurrence
    /// order, and materializes the count matrix: row `i`, column `j` is the
    /// number of times the token with id `j` occurs in document `i`.
    pub fn fit_transform(&mut self, docs: Vec<&str>) -> (m: CountMatrix)
        requires
            old(self).vocabulary_@.len() == 0,
        ensures
            ({
                let toks = spec_tokenize(
                    docs.deep_view(),
                    old(self).ngram_range.0 as int,
                    old(self).ngram_range.1 as int,
                    old(self).case@,
                );
                let vocab = corpus_vocab(toks);
                &&& final(self).vocabulary_.deep_view() == vocab
                &&& final(self).ngram_range == old(self).ngram_range
                &&& final(self).case == old(self).case
                &&& mat_contents(m).len() == docs@.len()
                &&& forall|i: int|
                    0 <= i < docs@.len() ==> (#[trigger] mat_contents(m)[i]).len() == vocab.len()
                &&& forall|i: int, j: int|
                    0 <= i < docs@.len() && 0 <= j < vocab.len() ==> mat_contents(m)[i][j]
                        == count_in(toks[i], vocab[j])
            }),
    {
        let tokenized = tokenize_all(
            &docs,
            self.ngram_range.0,
            self.ngram_range.1,
            self.case.as_str(),
        );
        let ghost tk = tokenized.deep_view();
        proof {
            assert(self.vocabulary_.deep_view() =~= Seq::<Seq<char>>::empty());
            assert(tk.take(0) =~= Seq::<Seq<Seq<char>>>::empty());
            assert(corpus_vocab_from(Seq::empty(), tk.take(0)) == Seq::<Seq<char>>::empty());
        }
        let n_docs = tokenized.len();
        let mut rows: Vec<Vec<u64>> = Vec::new();
        let mut d: usize = 0;
        while d < n_docs
            invariant
                n_docs == tk.len(),
                n_docs == tokenized@.len(),
                tk == tokenized.deep_view(),
                d <= n_docs,
                self.ngram_range == old(self).ngram_range,
                self.case == old(self).case,
                self.vocabulary_.deep_view().no_duplicates(),
                self.vocabulary_.deep_view() == corpus_vocab_from(Seq::empty(), tk.take(d as int)),
                rows@.len() == d,
                forall|r: int| 0 <= r < d ==> (#[trigger] rows@[r])@.len() <= self.vocabulary_@.len(),
                forall|r: int, j: int|
                    0 <= r < d && 0 <= j < rows@[r]@.len() ==> #[trigger] rows@[r]@[j]
                        == count_in(tk[r], self.vocabulary_.deep_view()[j]),
                forall|r: int, t: int|
                    0 <= r < d && 0 <= t < tk[r].len() ==> self.vocabulary_.deep_view().take(
                        rows@[r]@.len() as int,
                    ).contains(#[trigger] tk[r][t]),
            decreases n_docs - d,
        {
            let ghost vd_before = self.vocabulary_.deep_view();
            let row = count_doc(&mut self.vocabulary_, &tokenized[d]);
            proof {
                assert(tokenized@[d as int].deep_view() == tk[d as int]);
                assert(tk.take(d + 1) =~= tk.take(d as int).push(tk[d as int]));
                lemma_corpus_vocab_push(Seq::empty(), tk.take(d as int), tk[d as int]);
                assert(self.vocabulary_.deep_view().take(row@.len() as int)
                    =~= self.vocabulary_.deep_view());
            }
            rows.push(row);
            d = d + 1;
        }
        proof {
            assert(tk.take(n_docs as int) =~= tk);
        }
        let w = self.vocabulary_.len();
        let ghost vd = self.vocabulary_.deep_view();
        let mut flat: Vec<u64> = Vec::new();
        let mut r: usize = 0;
        while r < n_docs
            invariant
                n_docs == tk.len(),
                rows@.len() == n_docs,
                w == vd.len(),
                vd == self.vocabulary_.deep_view(),
                vd.no_duplicates(),
                r <= n_docs,
                forall|i: int| 0 <= i < n_docs ==> (#[trigger] rows@[i])@.len() <= w,
                forall|i: int, j: int|
                    0 <= i < n_docs && 0 <= j < rows@[i]@.len() ==> #[trigger] rows@[i]@[j]
                        == count_in(tk[i], vd[j]),
                forall|i: int, t: int|
                    0 <= i < n_docs && 0 <= t < tk[i].len() ==> vd.take(
                        rows@[i]@.len() as int,
                    ).contains(#[trigger] tk[i][t]),
                flat@.len() == r * w,
                forall|i: int, j: int|
                    0 <= i < r && 0 <= j < w ==> flat@[i * w + j] == count_in(tk[i], vd[j]),
            decreases n_docs - r,
        {
            let rl = rows[r].len();
            let mut j: usize = 0;
            while j < w
                invariant
                    n_docs == tk.len(),
                    rows@.len() == n_docs,
                    w == vd.len(),
                    vd == self.vocabulary_.deep_view(),
                    vd.no_duplicates(),
                    r < n_docs,
                    j <= w,
                    rl == rows@[r as int]@.len(),
                    rl <= w,
                    forall|i: int| 0 <= i < n_docs ==> (#[trigger] rows@[i])@.len() <= w,
                    forall|i: int, j2: int|
                        0 <= i < n_docs && 0 <= j2 < rows@[i]@.len() ==> #[trigger] rows@[i]@[j2]
                            == count_in(tk[i], vd[j2]),
                    forall|i: int, t: int|
                        0 <= i < n_docs && 0 <= t < tk[i].len() ==> vd.take(
                            rows@[i]@.len() as int,
                        ).contains(#[trigger] tk[i][t]),
                    flat@.len() == r * w + j,
                    forall|i: int, j2: int|
                        0 <= i < r && 0 <= j2 < w ==> flat@[i * w + j2] == count_in(tk[i], vd[j2]),
                    forall|j2: int|
                        0 <= j2 < j ==> flat@[r * w + j2] == count_in(tk[r as int], vd[j2]),
                decreases w - j,
            {
                let ghost fpre = flat@;
                if j < rl {
                    flat.push(rows[r][j]);
                } else {
                    proof {
                        assert(!tk[r as int].contains(vd[j as int])) by {
                            if tk[r as int].contains(vd[j as int]) {
                                let t0 = choose|t0: int|
                                    0 <= t0 < tk[r as int].len() && tk[r as int][t0] == vd[j as int];
                                assert(vd.take(rl as int).contains(tk[r as int][t0]));
                                let j2 = choose|j2: int|
                                    0 <= j2 < rl && vd.take(rl as int)[j2] == tk[r as int][t0];
                                assert(vd[j2] == vd[j as int]);
                            }
                        }
                        lemma_count_zero(tk[r as int], vd[j as int]);
                    }
                    flat.push(0);
                }
                proof {
                    assert forall|i: int, j2: int| 0 <= i < r && 0 <= j2 < w implies flat@[i * w
                        + j2] == count_in(tk[i], vd[j2]) by {
                        assert(i * w + j2 < r * w) by (nonlinear_arith)
                            requires
                                0 <= i < r,
                                0 <= j2 < w,
                        ;
                        assert(flat@[i * w + j2] == fpre[i * w + j2]);
                    }
                }
                j = j + 1;
            }
            proof {
                assert((r + 1) * w == r * w + w) by (nonlinear_arith);
                assert forall|i: int, j2: int| 0 <= i < r + 1 && 0 <= j2 < w implies flat@[i * w
                    + j2] == count_in(tk[i], vd[j2]) by {
                    if i < r {
                        assert(i * w + j2 < r * w + w) by (nonlinear_arith)
                            requires
                                0 <= i < r,
                                0 <= j2 < w,
                        ;
                        assert(flat@[i * w + j2] == count_in(tk[i], vd[j2]));
                    } else {
                        assert(i * w + j2 == r * w + j2);
                    }
                }
            }
            r = r + 1;
        }
        proof {
            assert(flat@.len() == n_docs * w);
        }
        let m = CountMatrix::from_flat(n_docs, w, flat);
        proof {
            assert(docs.deep_view().len() == docs@.len());
            assert(tk == spec_tokenize(
                docs.deep_view(),
                old(self).ngram_range.0 as int,
                old(self).ngram_range.1 as int,
                old(self).case@,
            ));
        }
        m
    }

    /// The inverse mapping of the vocabulary: id to token. For a vocabulary
    /// built by a fit this is a bijection (see
    /// [`lemma_vocabulary_bijection`]): the keys are exactly the ids `0 ..
    /// size`, and key `j` maps to the token with id `j`.
    pub fn reverse_vocabulary_hashmap(&self) -> (rv: HashMap<u64, String>)
        ensures
            forall|id: u64| rv@.contains_key(id) <==> id < self.vocabulary_@.len(),
            forall|id: u64|
                id < self.vocabulary_@.len() ==> (#[trigger] rv@[id])@
                    == self.vocabulary_.deep_view()[id as int],
    {
        broadcast use vstd::std_specs::hash::group_hash_axioms;

        let mut rv: HashMap<u64, String> = HashMap::new();
        let n = self.vocabulary_.len();
        for i in 0..n
            invariant
                n == self.vocabulary_@.len(),
                forall|id: u64| rv@.contains_key(id) <==> id < i,
                forall|id: u64|
                    id < i ==> (#[trigger] rv@[id])@ == self.vocabulary_.deep_view()[id as int],
        {
            rv.insert(i as u64, self.vocabulary_[i].clone());
        }
        rv
    }
}

/// The set of elements of a concatenation is the union of the sets.
proof fn lemma_concat_to_set(a: Seq<Seq<char>>, b: Seq<Seq<char>>)
    ensures
        (a + b).to_set() == a.to_set().union(b.to_set()),
{
    assert forall|x: Seq<char>| (a + b).to_set().contains(x) implies a.to_set().union(
        b.to_set(),
    ).contains(x) by {
        lemma_seq_concat_contains_all_elements(a, b, x);
    }
    assert forall|x: Seq<char>| a.to_set().union(b.to_set()).contains(x) implies (a
        + b).to_set().contains(x) by {
        lemma_seq_concat_contains_all_elements(a, b, x);
    }
    assert((a + b).to_set() =~= a.to_set().union(b.to_set()));
}

/// Scanning tokens adds exactly their elements to the set of vocabulary
/// entries.
proof fn lemma_add_tokens_to_set(vocab: Seq<Seq<char>>, toks: Seq<Seq<char>>)
    ensures
        add_tokens(vocab, toks).to_set() == vocab.to_set().union(toks.to_set()),
    decreases toks.len(),
{
    if toks.len() == 0 {
        assert(add_tokens(vocab, toks) == vocab);
        assert(toks.to_set() =~= Set::<Seq<char>>::empty());
        assert(vocab.to_set().union(toks.to_set()) =~= vocab.to_set());
    } else {
        let v1 = vocab_step(vocab, toks.first());
        lemma_add_tokens_to_set(v1, toks.drop_first());
        assert(add_tokens(vocab, toks) == add_tokens(v1, toks.drop_first()));
        assert(v1.to_set() == vocab.to_set().insert(toks.first())) by {
            if vocab.contains(toks.first()) {
                assert(vocab.to_set().contains(toks.first()));
                assert(v1.to_set() =~= vocab.to_set().insert(toks.first()));
            } else {
                vocab.lemma_push_to_set_commute(toks.first());
            }
        }
        assert(toks.to_set() == toks.drop_first().to_set().insert(toks.first())) by {
            assert(toks =~= seq![toks.first()] + toks.drop_first());
            lemma_concat_to_set(seq![toks.first()], toks.drop_first());
            assert(seq![toks.first()].to_set() =~= Set::empty().insert(toks.first()));
            assert(seq![toks.first()].to_set().union(toks.drop_first().to_set())
                =~= toks.drop_first().to_set().insert(toks.first()));
        }
        assert(vocab.to_set().insert(toks.first()).union(toks.drop_first().to_set())
            =~= vocab.to_set().union(toks.to_set()));
    }
}

/// The vocabulary built over a corpus holds exactly the distinct tokens of
/// the corpus: it has no duplicates, its entries are the tokens that occur,
/// and so its size is the number of distinct tokens generated across all
/// documents.
pub proof fn lemma_vocabulary_size(docs: Seq<Seq<Seq<char>>>)
    ensures
        corpus_vocab(docs).no_duplicates(),
        corpus_vocab(docs).to_set() == docs.flatten().to_set(),
        corpus_vocab(docs).len() == docs.flatten().to_set().len(),
{
    lemma_corpus_vocab_from_set(Seq::empty(), docs);
    assert(Seq::<Seq<char>>::empty().to_set() =~= Set::empty());
    assert(Set::<Seq<char>>::empty().union(docs.flatten().to_set()) =~= docs.flatten().to_set());
    corpus_vocab(docs).unique_seq_to_set();
}

/// Generalization of [`lemma_vocabulary_size`] over a starting vocabulary.
proof fn lemma_corpus_vocab_from_set(vocab: Seq<Seq<char>>, docs: Seq<Seq<Seq<char>>>)
    requires
        vocab.no_duplicates(),
    ensures
        corpus_vocab_from(vocab, docs).no_duplicates(),
        corpus_vocab_from(vocab, docs).to_set() == vocab.to_set().union(docs.flatten().to_set()),
    decreases docs.len(),
{
    if docs.len() == 0 {
        assert(corpus_vocab_from(vocab, docs) == vocab);
        assert(docs.flatten() =~= Seq::<Seq<char>>::empty());
        assert(docs.flatten().to_set() =~= Set::<Seq<char>>::empty());
        assert(vocab.to_set().union(docs.flatten().to_set()) =~= vocab.to_set());
    } else {
        let v1 = add_tokens(vocab, docs.first());
        lemma_add_tokens_properties(vocab, docs.first());
        lemma_add_tokens_to_set(vocab, docs.first());
        lemma_corpus_vocab_from_set(v1, docs.drop_first());
        assert(corpus_vocab_from(vocab, docs) == corpus_vocab_from(v1, docs.drop_first()));
        assert(docs.flatten() == docs.first() + docs.drop_first().flatten());
        lemma_concat_to_set(docs.first(), docs.drop_first().flatten());
        assert(vocab.to_set().union(docs.first().to_set()).union(
            docs.drop_first().flatten().to_set(),
        ) =~= vocab.to_set().union(docs.flatten().to_set()));
    }
}

/// The per-token counts of a document against a vocabulary, by id.
pub open spec fn counts_row(toks: Seq<Seq<char>>, vocab: Seq<Seq<char>>) -> Seq<nat> {
    Seq::new(vocab.len(), |j: int| count_in(toks, vocab[j]))
}

/// The sum of a sequence of counts.
pub open spec fn nat_sum(s: Seq<nat>) -> nat
    decreases s.len(),
{
    if s.len() == 0 {
        0
    } else {
        nat_sum(s.drop_last()) + s.last()
    }
}

/// The sum of a row of the count matrix.
pub open spec fn u64_sum(s: Seq<u64>) -> int
    decreases s.len(),
{
    if s.len() == 0 {
        0
    } else {
        u64_sum(s.drop_last()) + s.last()
    }
}

/// A sequence of zeros sums to zero.
proof fn lemma_nat_sum_zeros(s: Seq<nat>)
    requires
        forall|j: int| 0 <= j < s.len() ==> s[j] == 0,
    ensures
        nat_sum(s) == 0,
    decreases s.len(),
{
    if s.len() > 0 {
        lemma_nat_sum_zeros(s.drop_last());
    }
}

/// Incrementing one entry increments the sum.
proof fn lemma_nat_sum_update_inc(s: Seq<nat>, j: int)
    requires
        0 <= j < s.len(),
    ensures
        nat_sum(s.update(j, (s[j] + 1) as nat)) == nat_sum(s) + 1,
    decreases s.len(),
{
    let s2 = s.update(j, (s[j] + 1) as nat);
    if j == s.len() - 1 {
        assert(s2.drop_last() =~= s.drop_last());
        assert(s2.last() == s[j] + 1);
    } else {
        assert(s2.drop_last() =~= s.drop_last().update(j, (s.drop_last()[j] + 1) as nat));
        assert(s2.last() == s.last());
        lemma_nat_sum_update_inc(s.drop_last(), j);
    }
}

/// Sums agree on pointwise-equal sequences.
proof fn lemma_u64_sum_eq_nat_sum(a: Seq<u64>, b: Seq<nat>)
    requires
        a.len() == b.len(),
        forall|j: int| 0 <= j < a.len() ==> a[j] == b[j],
    ensures
        u64_sum(a) == nat_sum(b),
    decreases a.len(),
{
    if a.len() > 0 {
        assert(forall|j: int| 0 <= j < a.len() - 1 ==> a.drop_last()[j] == b.drop_last()[j]);
        lemma_u64_sum_eq_nat_sum(a.drop_last(), b.drop_last());
    }
}

/// The per-token counts of a document sum to the number of tokens the
/// document generated, repeats included, provided the vocabulary has no
/// duplicates and covers every token of the document.
pub proof fn lemma_counts_row_sum(toks: Seq<Seq<char>>, vocab: Seq<Seq<char>>)
    requires
        vocab.no_duplicates(),
        forall|k: int| 0 <= k < toks.len() ==> vocab.contains(#[trigger] toks[k]),
    ensures
        nat_sum(counts_row(toks, vocab)) == toks.len(),
    decreases toks.len(),
{
    if toks.len() == 0 {
        assert forall|j: int| 0 <= j < vocab.len() implies counts_row(toks, vocab)[j] == 0 by {
            lemma_count_zero(toks, vocab[j]);
        }
        lemma_nat_sum_zeros(counts_row(toks, vocab));
    } else {
        let tl = toks.drop_last();
        let t = toks.last();
        assert(forall|k: int| 0 <= k < tl.len() ==> toks[k] == #[trigger] tl[k]);
        lemma_counts_row_sum(tl, vocab);
        assert(vocab.contains(t));
        let j0 = choose|j0: int| 0 <= j0 < vocab.len() && vocab[j0] == t;
        assert(counts_row(toks, vocab) =~= counts_row(tl, vocab).update(
            j0,
            (counts_row(tl, vocab)[j0] + 1) as nat,
        )) by {
            assert(forall|j: int|
                0 <= j < vocab.len() && j != j0 ==> vocab[j] != t);
        }
        lemma_nat_sum_update_inc(counts_row(tl, vocab), j0);
    }
}

/// A row of the count matrix sums to the number of tokens its document
/// generated: cell `j` counts the token with id `j`, every token has an id,
/// and no id is repeated.
pub proof fn lemma_row_sum(row: Seq<u64>, toks: Seq<Seq<char>>, vocab: Seq<Seq<char>>)
    requires
        vocab.no_duplicates(),
        forall|k: int| 0 <= k < toks.len() ==> vocab.contains(#[trigger] toks[k]),
        row.len() == vocab.len(),
        forall|j: int| 0 <= j < row.len() ==> row[j] == count_in(toks, vocab[j]),
    ensures
        u64_sum(row) == toks.len(),
{
    lemma_counts_row_sum(toks, vocab);
    lemma_u64_sum_eq_nat_sum(row, counts_row(toks, vocab));
}

/// Whether `j` is the first position of `t` in `vocab`: the position lookup
/// by token finds.
pub open spec fn is_first_index(vocab: Seq<Seq<char>>, t: Seq<char>, j: int) -> bool {
    &&& 0 <= j < vocab.len()
    &&& vocab[j] == t
    &&& forall|k: int| 0 <= k < j ==> vocab[k] != t
}

/// The vocabulary and the reverse vocabulary are inverse bijections on a
/// duplicate-free vocabulary: the token with id `j` looks up to id `j`
/// again — `reverse_vocabulary[vocabulary[token]] == token` — no two ids
/// share a token, and every id below the size is used exactly once.
pub proof fn lemma_vocabulary_bijection(vocab: Seq<Seq<char>>)
    requires
        vocab.no_duplicates(),
    ensures
        forall|j: int| 0 <= j < vocab.len() ==> is_first_index(vocab, vocab[j], j),
        forall|j1: int, j2: int| 0 <= j1 < j2 < vocab.len() ==> vocab[j1] != vocab[j2],
{
}

} // verus!
