//! Text vectorization: n-gram tokenization, vocabulary construction,
//! term-count matrices and the integer stages of TF-IDF weighting.

pub mod countvectorizer;
pub mod deprecated;
pub mod matrix;
pub mod tfidfvectorizer;
pub mod tokenizer;
pub mod tokenizer2;
