use vectorizer::matrix::document_frequency;
use vectorizer::tfidfvectorizer::TfidfVectorizer;

#[test]
fn new_uses_documented_defaults() {
    let vectorizer = TfidfVectorizer::new((1, 2), "lower");
    assert_eq!(0, vectorizer.vocabulary_.len());
    assert_eq!((1, 2), vectorizer.ngram_range);
    assert_eq!("lower", vectorizer.case);
    assert!(vectorizer.smooth_idf);
    assert!(!vectorizer.sublinear_tf);
    assert_eq!("l2", vectorizer.norm);
}

#[test]
fn create_countvector_populates_vocabulary() {
    let docs = vec!["apple banana apple", "banana orange"];
    let mut vectorizer = TfidfVectorizer::new((1, 1), "lower");
    let countvector = vectorizer.create_countvector(docs);
    assert_eq!(
        vectorizer.vocabulary_,
        vec![
            "apple".to_string(),
            "banana".to_string(),
            "orange".to_string(),
        ]
    );
    assert_eq!(countvector.rows(), vec![vec![2, 1, 0], vec![0, 1, 1]]);
}

#[test]
fn scenario_document_frequency_and_smoothing() {
    let counts: Vec<Vec<u64>> = vec![
        vec![1, 0, 0],
        vec![0, 1, 0],
        vec![0, 0, 1],
        vec![1, 0, 0],
    ];
    let df = document_frequency(&counts);
    assert_eq!(df, vec![2, 1, 1]);

    let vectorizer = TfidfVectorizer::new((1, 1), "lower");
    assert!(vectorizer.smooth_idf);
    let (smoothed_df, smoothed_docs) = vectorizer.smoothed_document_frequency(&counts);
    assert_eq!(smoothed_df, vec![3, 2, 2]);
    assert_eq!(smoothed_docs, 5);
}

#[test]
fn document_frequency_counts_nonzero_rows() {
    let counts: Vec<Vec<u64>> = vec![
        vec![1, 2, 3],
        vec![4, 5, 6],
        vec![7, 8, 9],
        vec![10, 11, 12],
    ];
    assert_eq!(document_frequency(&counts), vec![4, 4, 4]);

    let empty: Vec<Vec<u64>> = Vec::new();
    assert_eq!(document_frequency(&empty), Vec::<u64>::new());
}

#[test]
fn smoothing_off_keeps_raw_frequencies() {
    let counts: Vec<Vec<u64>> = vec![vec![1, 0], vec![3, 0]];
    let mut vectorizer = TfidfVectorizer::new((1, 1), "lower");
    vectorizer.smooth_idf = false;
    let (smoothed_df, smoothed_docs) = vectorizer.smoothed_document_frequency(&counts);
    assert_eq!(smoothed_df, vec![2, 0]);
    assert_eq!(smoothed_docs, 2);
}
