//! Tokenization of documents into word n-grams.
//!
//! A word is a maximal run of word characters (Unicode letters, digits, or
//! underscore) of length at least two; an n-gram joins `n` consecutive words
//! with single spaces. Each emitted n-gram is case-normalized according to
//! the configured case mode.

use vstd::prelude::*;

verus! {

/// Whether a character counts as a Unicode letter or digit.
pub uninterp spec fn alnum(c: char) -> bool;

/// Relies on `char::is_alphanumeric`: whether the character is a Unicode
/// letter or digit, a function of the character alone.
#[verifier::external_body]
fn char_is_alphanumeric(c: char) -> (r: bool)
    ensures
        r == alnum(c),
{
    c.is_alphanumeric()
}

/// The Unicode lowercase form of a sequence of characters.
pub uninterp spec fn lower_of(s: Seq<char>) -> Seq<char>;

/// Relies on `str::to_lowercase`: the Unicode lowercase form of the string,
/// a function of its characters alone.
#[verifier::external_body]
fn to_lowercase_str(s: &str) -> (r: String)
    ensures
        r@ == lower_of(s@),
{
    s.to_lowercase()
}

/// The Unicode uppercase form of a sequence of characters.
pub uninterp spec fn upper_of(s: Seq<char>) -> Seq<char>;

/// Relies on `str::to_uppercase`: the Unicode uppercase form of the string,
/// a function of its characters alone.
#[verifier::external_body]
fn to_uppercase_str(s: &str) -> (r: String)
    ensures
        r@ == upper_of(s@),
{
    s.to_uppercase()
}

/// A character that may appear inside a word: a letter, a digit, or an
/// underscore.
pub open spec fn is_word_char(c: char) -> bool {
    alnum(c) || c == '_'
}

/// Executable test for [`is_word_char`].
fn is_word_char_exec(c: char) -> (r: bool)
    ensures
        r == is_word_char(c),
{
    char_is_alphanumeric(c) || c == '_'
}

/// The length of the initial run of word characters of `s`.
pub open spec fn run_len(s: Seq<char>) -> nat
    decreases s.len(),
{
    if s.len() == 0 || !is_word_char(s[0]) {
        0
    } else {
        1 + run_len(s.drop_first())
    }
}

/// The initial run of word characters is never longer than the sequence.
proof fn lemma_run_len_le(s: Seq<char>)
    ensures
        run_len(s) <= s.len(),
    decreases s.len(),
{
    if s.len() > 0 && is_word_char(s[0]) {
        lemma_run_len_le(s.drop_first());
    }
}

/// The words of a document: its maximal runs of word characters that are at
/// least two characters long, in order of appearance.
pub open spec fn spec_words(s: Seq<char>) -> Seq<Seq<char>>
    decreases s.len(),
    via spec_words_decreases
{
    if s.len() == 0 {
        Seq::empty()
    } else if !is_word_char(s[0]) {
        spec_words(s.drop_first())
    } else {
        let r = run_len(s) as int;
        if r >= 2 {
            seq![s.take(r)] + spec_words(s.skip(r))
        } else {
            spec_words(s.skip(r))
        }
    }
}

#[via_fn]
proof fn spec_words_decreases(s: Seq<char>) {
    if s.len() > 0 && is_word_char(s[0]) {
        lemma_run_len_le(s);
    }
}

/// Equality of two string slices, decided character by character.
pub(crate) fn str_eq(a: &str, b: &str) -> (r: bool)
    ensures
        r == (a@ == b@),
{
    let la = a.unicode_len();
    let lb = b.unicode_len();
    if la != lb {
        return false;
    }
    let mut i: usize = 0;
    while i < la
        invariant
            la == a@.len(),
            la == b@.len(),
            i <= la,
            forall|k: int| 0 <= k < i ==> a@[k] == b@[k],
        decreases la - i,
    {
        if a.get_char(i) != b.get_char(i) {
            return false;
        }
        i = i + 1;
    }
    proof {
        assert(a@ =~= b@);
    }
    true
}

/// A run of word characters followed by the end of the sequence or a
/// non-word character has exactly the run's length as [`run_len`].
proof fn lemma_run_len(s: Seq<char>, r: int)
    requires
        0 <= r <= s.len(),
        forall|k: int| 0 <= k < r ==> is_word_char(#[trigger] s[k]),
        r == s.len() || !is_word_char(s[r]),
    ensures
        run_len(s) == r,
    decreases r,
{
    if r == 0 {
    } else {
        assert(is_word_char(s[0]));
        lemma_run_len(s.drop_first(), r - 1);
    }
}

/// The words of each document, each word borrowed from the document.
pub fn extract_word_slices<'a>(doc: &'a str) -> (words: Vec<&'a str>)
    ensures
        words.deep_view() == spec_words(doc@),
        2 * words@.len() <= usize::MAX,
{
    let len = doc.unicode_len();
    let mut flags: Vec<bool> = Vec::new();
    for k in 0..len
        invariant
            len == doc@.len(),
            flags@.len() == k,
            forall|t: int| 0 <= t < k ==> flags@[t] == is_word_char(doc@[t]),
    {
        let c = doc.get_char(k);
        flags.push(is_word_char_exec(c));
    }
    let mut words: Vec<&'a str> = Vec::new();
    let mut i: usize = 0;
    proof {
        assert(doc@.skip(0) =~= doc@);
        assert(words.deep_view() =~= Seq::<Seq<char>>::empty());
        assert(words.deep_view() + spec_words(doc@) =~= spec_words(doc@));
    }
    while i < len
        invariant
            len == doc@.len(),
            flags@.len() == len,
            forall|t: int| 0 <= t < len ==> flags@[t] == is_word_char(doc@[t]),
            i <= len,
            spec_words(doc@) == words.deep_view() + spec_words(doc@.skip(i as int)),
        decreases len - i,
    {
        if !flags[i] {
            proof {
                assert(doc@.skip(i as int).drop_first() =~= doc@.skip(i + 1));
            }
            i = i + 1;
        } else {
            let mut j: usize = i + 1;
            while j < len && flags[j]
                invariant
                    len == doc@.len(),
                    flags@.len() == len,
                    forall|t: int| 0 <= t < len ==> flags@[t] == is_word_char(doc@[t]),
                    i < j <= len,
                    forall|t: int| i <= t < j ==> is_word_char(#[trigger] doc@[t]),
                decreases len - j,
            {
                j = j + 1;
            }
            let ghost ss = doc@.skip(i as int);
            proof {
                assert(forall|k: int|
                    0 <= k < j - i ==> ss[k] == doc@[i + k] && is_word_char(#[trigger] ss[k]));
                assert(j - i == ss.len() || !is_word_char(ss[j - i]));
                lemma_run_len(ss, j - i);
                assert(ss.take(j - i) =~= doc@.subrange(i as int, j as int));
                assert(ss.skip(j - i) =~= doc@.skip(j as int));
            }
            if j - i >= 2 {
                let w = doc.substring_char(i, j);
                let ghost prev = words.deep_view();
                words.push(w);
                proof {
                    assert(words.deep_view() =~= prev.push(w@));
                    assert(spec_words(ss) == seq![doc@.subrange(i as int, j as int)]
                        + spec_words(doc@.skip(j as int)));
                    assert(prev + spec_words(ss) =~= words.deep_view() + spec_words(
                        doc@.skip(j as int),
                    ));
                }
            } else {
                proof {
                    assert(spec_words(ss) == spec_words(doc@.skip(j as int)));
                }
            }
            i = j;
        }
    }
    proof {
        assert(doc@.skip(len as int) =~= Seq::<char>::empty());
        assert(spec_words(doc@) =~= words.deep_view());
        lemma_words_bounded(doc@);
    }
    words
}

/// Every word uses at least two characters of the document, so a document of
/// `n` characters yields at most `n / 2` words.
pub proof fn lemma_words_bounded(s: Seq<char>)
    ensures
        2 * spec_words(s).len() <= s.len(),
    decreases s.len(),
{
    if s.len() == 0 {
    } else if !is_word_char(s[0]) {
        lemma_words_bounded(s.drop_first());
    } else {
        let r = run_len(s) as int;
        lemma_run_len_le(s);
        lemma_words_bounded(s.skip(r));
    }
}

/// The given words joined into one token by single spaces.
pub open spec fn spec_join(ws: Seq<Seq<char>>) -> Seq<char>
    decreases ws.len(),
{
    if ws.len() == 0 {
        Seq::empty()
    } else if ws.len() == 1 {
        ws[0]
    } else {
        spec_join(ws.drop_last()) + seq![' '] + ws.last()
    }
}

/// All n-grams of one size `n`: for each start `i`, words `[i, i + n)`
/// joined by spaces, in increasing `i` order. Meaningful for `0 <= n <=
/// ws.len()`; for `n == 0` every window is empty and joins to the empty
/// token.
pub open spec fn spec_ngram_row(ws: Seq<Seq<char>>, n: int) -> Seq<Seq<char>> {
    Seq::new((ws.len() - n + 1) as nat, |i: int| spec_join(ws.subrange(i, i + n)))
}

/// The n-gram rows for every size from `n` to `hi` inclusive, concatenated
/// in increasing size order.
pub open spec fn spec_ngrams_from(ws: Seq<Seq<char>>, n: int, hi: int) -> Seq<Seq<char>>
    decreases hi + 1 - n,
{
    if n > hi {
        Seq::empty()
    } else {
        spec_ngram_row(ws, n) + spec_ngrams_from(ws, n + 1, hi)
    }
}

/// All n-grams of the word sequence for sizes from `min_n` up to the smaller
/// of `max_n` and the number of words, in increasing size order. Empty when
/// `min_n` exceeds both `max_n` and the number of words.
pub open spec fn spec_ngrams(ws: Seq<Seq<char>>, min_n: int, max_n: int) -> Seq<Seq<char>> {
    spec_ngrams_from(ws, min_n, if max_n <= ws.len() { max_n } else { ws.len() as int })
}

/// Joins words `[i, i + n)` with single spaces.
fn join_words(words: &Vec<&str>, i: usize, n: usize) -> (g: String)
    requires
        i + n <= words@.len(),
    ensures
        g@ == spec_join(words.deep_view().subrange(i as int, i + n)),
{
    let ghost ws = words.deep_view();
    let total = words.len();
    let mut g = String::new();
    proof {
        reveal_strlit(" ");
        assert(ws.subrange(i as int, i as int) =~= Seq::<Seq<char>>::empty());
        assert(i + n <= total);
    }
    let mut k: usize = i;
    while k < i + n
        invariant
            i + n <= total,
            total == words@.len(),
            ws == words.deep_view(),
            i <= k <= i + n,
            g@ == spec_join(ws.subrange(i as int, k as int)),
            " "@ == seq![' '],
        decreases i + n - k,
    {
        if k > i {
            g.append(" ");
        }
        g.append(words[k]);
        proof {
            let sub = ws.subrange(i as int, k + 1);
            assert(sub.last() == ws[k as int]);
            assert(sub.drop_last() =~= ws.subrange(i as int, k as int));
            if k == i {
                assert(sub.len() == 1);
                assert(g@ == sub[0]);
            }
        }
        k = k + 1;
    }
    g
}

/// The n-grams of the given words for sizes `min_n ..= max_n`, joined by
/// single spaces, smaller sizes first and left-to-right within one size.
pub(crate) fn word_ngrams(words: &Vec<&str>, min_n: u32, max_n: u32) -> (grams: Vec<String>)
    requires
        words@.len() < usize::MAX,
    ensures
        grams.deep_view() == spec_ngrams(words.deep_view(), min_n as int, max_n as int),
{
    let ghost ws = words.deep_view();
    let num_tokens = words.len();
    let hi: usize = if (max_n as usize) < num_tokens {
        max_n as usize
    } else {
        num_tokens
    };
    let ghost hi_int = if max_n <= ws.len() { max_n as int } else { ws.len() as int };
    proof {
        assert(hi == hi_int);
    }
    let mut grams: Vec<String> = Vec::new();
    let mut n: usize = min_n as usize;
    proof {
        if n > hi {
            assert(spec_ngrams_from(ws, n as int, hi_int) =~= Seq::<Seq<char>>::empty());
        }
        assert(grams.deep_view() =~~= Seq::<Seq<char>>::empty());
    }
    while n <= hi
        invariant
            ws == words.deep_view(),
            num_tokens == ws.len(),
            num_tokens < usize::MAX,
            hi <= num_tokens,
            hi == hi_int,
            min_n as int <= n as int,
            spec_ngrams_from(ws, min_n as int, hi_int) == grams.deep_view() + spec_ngrams_from(
                ws,
                n as int,
                hi_int,
            ),
        decreases hi + 1 - n,
    {
        let row_len: usize = num_tokens - n + 1;
        let ghost before = grams.deep_view();
        let ghost row = spec_ngram_row(ws, n as int);
        let mut idx: usize = 0;
        while idx < row_len
            invariant
                ws == words.deep_view(),
                num_tokens == ws.len(),
                n <= num_tokens,
                row_len == num_tokens - n + 1,
                idx <= row_len,
                row == spec_ngram_row(ws, n as int),
                grams.deep_view() =~~= before + row.take(idx as int),
            decreases row_len - idx,
        {
            let g = join_words(words, idx, n);
            proof {
                assert(row[idx as int] == spec_join(ws.subrange(idx as int, idx + n)));
                assert(g@ == row[idx as int]);
                assert(row.take(idx + 1) =~= row.take(idx as int).push(row[idx as int]));
            }
            let ghost pre = grams.deep_view();
            grams.push(g);
            proof {
                assert(grams.deep_view() =~= pre.push(g@));
                assert(pre.push(g@) =~= before + row.take(idx + 1));
            }
            idx = idx + 1;
        }
        proof {
            assert(spec_ngram_row(ws, n as int).take(row_len as int) =~= spec_ngram_row(
                ws,
                n as int,
            ));
            assert(grams.deep_view() =~~= before + spec_ngram_row(ws, n as int));
            assert(spec_ngrams_from(ws, n as int, hi_int) == spec_ngram_row(ws, n as int)
                + spec_ngrams_from(ws, n + 1, hi_int));
            assert(before + (spec_ngram_row(ws, n as int) + spec_ngrams_from(ws, n + 1, hi_int))
                =~= grams.deep_view() + spec_ngrams_from(ws, n + 1, hi_int));
        }
        n = n + 1;
    }
    proof {
        assert(spec_ngrams_from(ws, n as int, hi_int) =~= Seq::<Seq<char>>::empty());
        assert(grams.deep_view() =~~= spec_ngrams_from(ws, min_n as int, hi_int));
    }
    grams
}

/// The token after case normalization: uppercased when the mode is "upper",
/// lowercased when it is "lower", and unchanged for every other mode.
pub open spec fn apply_case(t: Seq<char>, case: Seq<char>) -> Seq<char> {
    if case == "upper"@ {
        upper_of(t)
    } else if case == "lower"@ {
        lower_of(t)
    } else {
        t
    }
}

/// The n-grams of one document under the given configuration: words of the
/// document, expanded to n-grams for sizes `min_n ..= max_n`, each
/// case-normalized.
pub open spec fn spec_tokenize_doc(doc: Seq<char>, min_n: int, max_n: int, case: Seq<char>) -> Seq<
    Seq<char>,
> {
    spec_ngrams(spec_words(doc), min_n, max_n).map_values(|t: Seq<char>| apply_case(t, case))
}

/// The n-grams of every document, in document order.
pub open spec fn spec_tokenize(docs: Seq<Seq<char>>, min_n: int, max_n: int, case: Seq<char>) -> Seq<
    Seq<Seq<char>>,
> {
    docs.map_values(|d: Seq<char>| spec_tokenize_doc(d, min_n, max_n, case))
}

/// Tokenizes one document: word extraction, n-gram expansion, case
/// normalization.
pub(crate) fn tokenize_doc(doc: &str, min_n: u32, max_n: u32, case: &str) -> (toks: Vec<String>)
    ensures
        toks.deep_view() == spec_tokenize_doc(doc@, min_n as int, max_n as int, case@),
{
    let words = extract_word_slices(doc);
    let grams = word_ngrams(&words, min_n, max_n);
    let ghost gs = grams.deep_view();
    let upper = str_eq(case, "upper");
    let lower = str_eq(case, "lower");
    let mut toks: Vec<String> = Vec::new();
    let glen = grams.len();
    for k in 0..glen
        invariant
            glen == gs.len(),
            gs == grams.deep_view(),
            upper == (case@ == "upper"@),
            lower == (case@ == "lower"@),
            toks.deep_view() =~~= gs.take(k as int).map_values(
                |t: Seq<char>| apply_case(t, case@),
            ),
    {
        let ghost pre = toks.deep_view();
        let g = &grams[k];
        if upper {
            toks.push(to_uppercase_str(g.as_str()));
        } else if lower {
            toks.push(to_lowercase_str(g.as_str()));
        } else {
            toks.push(g.clone());
        }
        proof {
            assert(gs[k as int] == g@);
            assert(toks.deep_view() =~= pre.push(apply_case(gs[k as int], case@)));
            assert(gs.take(k + 1) =~= gs.take(k as int).push(gs[k as int]));
            assert(toks.deep_view() =~~= gs.take(k + 1).map_values(
                |t: Seq<char>| apply_case(t, case@),
            ));
        }
    }
    proof {
        assert(gs.take(glen as int) =~= gs);
        assert(toks.deep_view() =~~= spec_tokenize_doc(doc@, min_n as int, max_n as int, case@));
    }
    toks
}

/// Why an n-gram range is rejected: the lower bound exceeds the upper bound,
/// or the lower bound is zero, which would emit degenerate zero-length
/// windows.
#[derive(Clone, Copy, Debug, PartialEq, Eq, Structural)]
pub enum NgramRangeError {
    InvalidNgramRange,
    DegenerateNgramFloor,
}

/// Checks an n-gram range at configuration time. A range is accepted exactly
/// when `1 <= min_n <= max_n`; `min_n > max_n` is rejected as invalid, and
/// `min_n == 0` as a degenerate floor.
pub fn validate_ngram_range(ngram_range: (u32, u32)) -> (r: Result<(), NgramRangeError>)
    ensures
        r is Ok <==> 1 <= ngram_range.0 <= ngram_range.1,
        r == Result::<(), NgramRangeError>::Err(NgramRangeError::InvalidNgramRange) <==> ngram_range.0
            > ngram_range.1,
        r == Result::<(), NgramRangeError>::Err(NgramRangeError::DegenerateNgramFloor)
            <==> ngram_range.0 == 0,
{
    let (min_n, max_n) = ngram_range;
    if min_n > max_n {
        Err(NgramRangeError::InvalidNgramRange)
    } else if min_n == 0 {
        Err(NgramRangeError::DegenerateNgramFloor)
    } else {
        Ok(())
    }
}

/// Splits documents into case-normalized word n-grams.
///
/// The n-gram sizes and the case mode are fixed at construction. A lower
/// bound above the upper bound makes every document tokenize to an empty
/// list, and a lower bound of zero emits zero-length windows; both are kept
/// as documented anomalies and can be rejected up front with
/// [`validate_ngram_range`].
pub struct Tokenizer {
    /// The inclusive range of n-gram sizes to emit.
    pub ngram_range: (u32, u32),
    /// The case mode: "upper", "lower", or anything else for no conversion.
    pub case: String,
}

impl Tokenizer {
    /// A tokenizer for the given n-gram range and case mode.
    pub fn new(ngram_range: (u32, u32), case: &str) -> (t: Tokenizer)
        ensures
            t.ngram_range == ngram_range,
            t.case@ == case@,
    {
        Tokenizer { ngram_range, case: case.to_owned() }
    }

    /// Tokenizes every document, preserving document order and, within one
    /// document, emission order. Calling this twice on the same documents
    /// gives the same result: the outcome is a function of the documents and
    /// the configuration alone.
    pub fn tokenize<'a>(&self, docs: Vec<&'a str>) -> (toks: Vec<Vec<String>>)
        ensures
            toks.deep_view() == spec_tokenize(
                docs.deep_view(),
                self.ngram_range.0 as int,
                self.ngram_range.1 as int,
                self.case@,
            ),
    {
        tokenize_all(&docs, self.ngram_range.0, self.ngram_range.1, self.case.as_str())
    }
}

/// Tokenizes every document in order under the given configuration.
pub(crate) fn tokenize_all(docs: &Vec<&str>, min_n: u32, max_n: u32, case: &str) -> (toks: Vec<
    Vec<String>,
>)
    ensures
        toks.deep_view() == spec_tokenize(docs.deep_view(), min_n as int, max_n as int, case@),
{
    let ghost ds = docs.deep_view();
    let mut toks: Vec<Vec<String>> = Vec::new();
    let n_docs = docs.len();
    for i in 0..n_docs
        invariant
            n_docs == ds.len(),
            ds == docs.deep_view(),
            toks.deep_view() =~~= ds.take(i as int).map_values(
                |d: Seq<char>| spec_tokenize_doc(d, min_n as int, max_n as int, case@),
            ),
    {
        let ghost pre = toks.deep_view();
        let t = tokenize_doc(docs[i], min_n, max_n, case);
        toks.push(t);
        proof {
            assert(ds[i as int] == docs@[i as int]@);
            assert(toks.deep_view() =~= pre.push(
                spec_tokenize_doc(ds[i as int], min_n as int, max_n as int, case@),
            ));
            assert(ds.take(i + 1) =~= ds.take(i as int).push(ds[i as int]));
            assert(toks.deep_view() =~~= ds.take(i + 1).map_values(
                |d: Seq<char>| spec_tokenize_doc(d, min_n as int, max_n as int, case@),
            ));
        }
    }
    proof {
        assert(ds.take(n_docs as int) =~= ds);
        assert(toks.deep_view() =~~= spec_tokenize(ds, min_n as int, max_n as int, case@));
    }
    toks
}

} // verus!
