use vectorizer::tokenizer::{validate_ngram_range, NgramRangeError, Tokenizer};

#[test]
fn test_tokenize() {
    let corpus = vec![
        "This is the first document.",
        "This is the second second document.",
        "And the third one.",
        "Is this the first document?",
    ];

    let tk1 = vectorizer::tokenizer2::Tokenizer::new((1, 1));
    let tk2 = vectorizer::tokenizer2::Tokenizer::new((2, 2));
    let tk3 = vectorizer::tokenizer2::Tokenizer::new((3, 3));

    let tokens1 = tk1.tokenize(corpus.clone());
    let tokens2 = tk2.tokenize(corpus.clone());
    let tokens3 = tk3.tokenize(corpus);

    println!("Unigram: {:?}\n", tokens1);
    println!("Bigram: {:?}\n", tokens2);
    println!("Trigram: {:?}\n", tokens3);
}

#[test]
fn unigrams_drop_punctuation_and_single_letters() {
    let tk = Tokenizer::new((1, 1), "none");
    let toks = tk.tokenize(vec!["ab, cd! x", "a_b c"]);
    assert_eq!(toks[0], vec!["ab".to_string(), "cd".to_string()]);
    assert_eq!(toks[1], vec!["a_b".to_string()]);
}

#[test]
fn ngrams_join_with_spaces_in_size_order() {
    let tk = Tokenizer::new((1, 2), "none");
    let toks = tk.tokenize(vec!["one two three"]);
    assert_eq!(
        toks[0],
        vec![
            "one".to_string(),
            "two".to_string(),
            "three".to_string(),
            "one two".to_string(),
            "two three".to_string(),
        ]
    );

    let tk3 = Tokenizer::new((3, 3), "none");
    let toks3 = tk3.tokenize(vec!["one two three"]);
    assert_eq!(toks3[0], vec!["one two three".to_string()]);
}

#[test]
fn case_modes_change_tokens() {
    let upper = Tokenizer::new((1, 1), "upper");
    let lower = Tokenizer::new((1, 1), "lower");
    let keep = Tokenizer::new((1, 1), "none");
    let docs = vec!["Apple BANANA"];
    assert_eq!(
        upper.tokenize(docs.clone())[0],
        vec!["APPLE".to_string(), "BANANA".to_string()]
    );
    assert_eq!(
        lower.tokenize(docs.clone())[0],
        vec!["apple".to_string(), "banana".to_string()]
    );
    assert_eq!(
        keep.tokenize(docs)[0],
        vec!["Apple".to_string(), "BANANA".to_string()]
    );
}

#[test]
fn tokenizing_twice_is_deterministic() {
    let docs = vec!["This is the first document.", "And the third one."];
    let tk_a = Tokenizer::new((1, 2), "lower");
    let tk_b = Tokenizer::new((1, 2), "lower");
    let first = tk_a.tokenize(docs.clone());
    let second = tk_a.tokenize(docs.clone());
    let other = tk_b.tokenize(docs);
    assert_eq!(first, second);
    assert_eq!(first, other);
}

#[test]
fn inverted_range_yields_empty_token_lists() {
    let tk = Tokenizer::new((3, 2), "lower");
    let toks = tk.tokenize(vec!["one two three", ""]);
    assert_eq!(toks, vec![Vec::<String>::new(), Vec::<String>::new()]);
}

#[test]
fn zero_floor_emits_zero_length_windows() {
    let tk = Tokenizer::new((0, 1), "none");
    let toks = tk.tokenize(vec!["ab cd"]);
    assert_eq!(
        toks[0],
        vec![
            "".to_string(),
            "".to_string(),
            "".to_string(),
            "ab".to_string(),
            "cd".to_string(),
        ]
    );
}

#[test]
fn ngram_range_validation_errors() {
    assert_eq!(
        validate_ngram_range((3, 2)),
        Err(NgramRangeError::InvalidNgramRange)
    );
    assert_eq!(
        validate_ngram_range((0, 2)),
        Err(NgramRangeError::DegenerateNgramFloor)
    );
    assert_eq!(validate_ngram_range((1, 3)), Ok(()));
    assert_eq!(validate_ngram_range((2, 2)), Ok(()));
}

#[test]
fn deprecated_tokenizer_extracts_words_only() {
    let tk = vectorizer::deprecated::tokenizer::Tokenizer::new((1, 2));
    let toks = tk.tokenize(vec!["This is the second second document."]);
    assert_eq!(
        toks[0],
        vec!["This", "is", "the", "second", "second", "document"]
    );
    let toks2 = tk._tokenize_multiple_docs(vec!["ab cd", ""]);
    assert_eq!(toks2, vec![vec!["ab", "cd"], Vec::<&str>::new()]);
}
