//! A superseded tokenizer that splits documents into bare words, without
//! n-gram expansion or case conversion.

use vstd::prelude::*;
use crate::tokenizer::{extract_word_slices, spec_words};

verus! {

/// Splits documents into their words: maximal runs of word characters at
/// least two characters long. The n-gram range is recorded but this variant
/// never expands n-grams.
pub struct Tokenizer {
    #[allow(dead_code)]
    ngram_range: (u32, u32),
}

impl Tokenizer {
    /// The recorded n-gram range.
    pub closed spec fn spec_ngram_range(&self) -> (u32, u32) {
        self.ngram_range
    }

    /// A word tokenizer recording the given n-gram range.
    pub fn new(ngram_range: (u32, u32)) -> (t: Tokenizer)
        ensures
            t.spec_ngram_range() == ngram_range,
    {
        Tokenizer { ngram_range }
    }

    /// The words of each document, in document order, each word borrowed
    /// from its document.
    pub fn _tokenize_multiple_docs<'a>(&self, docs: Vec<&'a str>) -> (toks: Vec<Vec<&'a str>>)
        ensures
            toks.deep_view() == docs.deep_view().map_values(|d: Seq<char>| spec_words(d)),
    {
        let ghost ds = docs.deep_view();
        let mut toks: Vec<Vec<&'a str>> = Vec::new();
        let n_docs = docs.len();
        for i in 0..n_docs
            invariant
                n_docs == ds.len(),
                ds == docs.deep_view(),
                toks.deep_view() =~~= ds.take(i as int).map_values(|d: Seq<char>| spec_words(d)),
        {
            let ghost pre = toks.deep_view();
            let words = extract_word_slices(docs[i]);
            toks.push(words);
            proof {
                assert(ds[i as int] == docs@[i as int]@);
                assert(toks.deep_view() =~= pre.push(spec_words(ds[i as int])));
                assert(ds.take(i + 1) =~= ds.take(i as int).push(ds[i as int]));
                assert(toks.deep_view() =~~= ds.take(i + 1).map_values(
                    |d: Seq<char>| spec_words(d),
                ));
            }
        }
        proof {
            assert(ds.take(n_docs as int) =~= ds);
            assert(toks.deep_view() =~~= ds.map_values(|d: Seq<char>| spec_words(d)));
        }
        toks
    }

    /// Tokenizes all documents in a collection into words.
    pub fn tokenize<'a>(&self, docs: Vec<&'a str>) -> (toks: Vec<Vec<&'a str>>)
        ensures
            toks.deep_view() == docs.deep_view().map_values(|d: Seq<char>| spec_words(d)),
    {
        self._tokenize_multiple_docs(docs)
    }
}

} // verus!
