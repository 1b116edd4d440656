//! A tokenizer variant that always lowercases: only the n-gram range is
//! configurable, and every emitted n-gram is lowercased.

use vstd::prelude::*;
use crate::tokenizer::{spec_tokenize, tokenize_all};

verus! {

/// Splits documents into lowercased word n-grams for a fixed n-gram range.
pub struct Tokenizer {
    ngram_range: (u32, u32),
    case: String,
}

impl Tokenizer {
    /// The inclusive range of n-gram sizes this tokenizer emits.
    pub closed spec fn spec_ngram_range(&self) -> (u32, u32) {
        self.ngram_range
    }

    /// The case mode, which this variant fixes to "lower".
    pub closed spec fn spec_case(&self) -> Seq<char> {
        self.case@
    }

    /// A lowercasing tokenizer for the given n-gram range.
    pub fn new(ngram_range: (u32, u32)) -> (t: Tokenizer)
        ensures
            t.spec_ngram_range() == ngram_range,
            t.spec_case() == "lower"@,
    {
        Tokenizer { ngram_range, case: "lower".to_owned() }
    }

    /// Tokenizes every document, preserving document order and, within one
    /// document, emission order; every n-gram comes out lowercased.
    pub fn tokenize<'a>(&self, docs: Vec<&'a str>) -> (toks: Vec<Vec<String>>)
        ensures
            toks.deep_view() == spec_tokenize(
                docs.deep_view(),
                self.spec_ngram_range().0 as int,
                self.spec_ngram_range().1 as int,
                self.spec_case(),
            ),
    {
        tokenize_all(&docs, self.ngram_range.0, self.ngram_range.1, self.case.as_str())
    }
}

} // verus!
