use std::collections::HashSet;

use vectorizer::countvectorizer::CountVectorizer;

fn token_id(vocabulary: &[String], token: &str) -> usize {
    vocabulary
        .iter()
        .position(|t| t == token)
        .expect("token not in vocabulary")
}

#[test]
fn example1() {
    let fruits_str = "apple, banana, apple, banana, orange, three, \
                      apple. apple, banana, orange, orange, one, three";
    let numbers_str = "one, two, three, two, three, apple, three. three, four, four, one";
    let mut docs1: Vec<&str> = Vec::new();
    docs1.push(fruits_str);
    docs1.push(numbers_str);

    // Check vocabulary size
    let mut vectorizer = CountVectorizer::new((1, 1), "lower");
    assert_eq!(0, vectorizer.vocabulary_.len()); // Before fit

    let x = vectorizer.fit_transform(docs1.clone());
    assert_eq!(7, vectorizer.vocabulary_.len()); // After fit

    let apple_col_index = token_id(&vectorizer.vocabulary_, "apple");
    assert_eq!(0, apple_col_index);
    assert_eq!(4, x.get(0, apple_col_index));
    assert_eq!(1, x.get(1, apple_col_index));

    // Print the input docs
    println!("=== Example1 ===");
    println!("Doc0 :{:?}", fruits_str);
    println!("Doc1 :{:?}", numbers_str);

    // print Word_id: Word correspondence
    let vocabulary_inverted = vectorizer.reverse_vocabulary_hashmap();
    for i in 0..vectorizer.vocabulary_.len() {
        println!(
            "(Word_id: Word) : ({:?}:{:?})",
            i,
            vocabulary_inverted[&(i as u64)]
        );
    }

    println!("CountVector :\n{:?}", x.rows());
    println!("\n");
}

#[test]
fn example2() {
    // all vec strings were convereted to lowercase for this example
    let docs2 = vec![
        "ああ いい うう",
        "ああ いい ええ",
        "this is the first document.",
        "this document is the second document.",
        "and this is the third one.",
        "is this the first document?",
    ];

    // Check vocabulary size
    let mut vectorizer = CountVectorizer::new((1, 1), "lower");
    assert_eq!(0, vectorizer.vocabulary_.len()); // Before fit

    let x2 = vectorizer.fit_transform(docs2.clone());
    assert_eq!(13, vectorizer.vocabulary_.len()); // After fit

    println!("=== Example2 (From scikit-learn example Plus-alpha)===");

    // print Word_id: Word correspondence
    let vocabulary_inverted = vectorizer.reverse_vocabulary_hashmap();
    for i in 0..vectorizer.vocabulary_.len() {
        println!(
            "(Word_id: Word) : ({:?}:{:?})",
            i,
            vocabulary_inverted[&(i as u64)]
        );
    }

    println!("CountVector :\n{:?}", x2.rows());
    println!("\n");
}

#[test]
fn scenario_single_doc_counts() {
    let mut vectorizer = CountVectorizer::new((1, 1), "lower");
    let x = vectorizer.fit_transform(vec!["apple banana apple"]);
    assert_eq!(
        vectorizer.vocabulary_,
        vec!["apple".to_string(), "banana".to_string()]
    );
    assert_eq!(x.rows(), vec![vec![2, 1]]);
}

#[test]
fn scenario_two_docs_first_occurrence_ids() {
    let docs = vec![
        "apple banana apple banana orange three apple apple banana orange orange one three",
        "one two three two three apple three three four four one",
    ];
    let mut vectorizer = CountVectorizer::new((1, 1), "lower");
    let x = vectorizer.fit_transform(docs);
    assert_eq!(7, vectorizer.vocabulary_.len());
    let apple = token_id(&vectorizer.vocabulary_, "apple");
    assert_eq!(0, apple);
    assert_eq!(4, x.get(0, apple));
    assert_eq!(1, x.get(1, apple));
}

#[test]
fn vocabulary_size_is_number_of_distinct_tokens() {
    let docs = vec![
        "red green red blue",
        "green green yellow",
        "blue red pink",
    ];
    let mut vectorizer = CountVectorizer::new((1, 1), "lower");
    let _ = vectorizer.fit_transform(docs.clone());

    let mut distinct: HashSet<String> = HashSet::new();
    for doc in &docs {
        for word in doc.split_whitespace() {
            distinct.insert(word.to_string());
        }
    }
    assert_eq!(distinct.len(), vectorizer.vocabulary_.len());
}

#[test]
fn row_sums_equal_tokens_generated() {
    let docs = vec![
        "red green red blue",
        "green green yellow",
        "",
        "blue red pink",
    ];
    // Unigrams: each document generates one token per word of length >= 2.
    let expected: Vec<u64> = vec![4, 3, 0, 3];
    let mut vectorizer = CountVectorizer::new((1, 1), "lower");
    let x = vectorizer.fit_transform(docs);
    let rows = x.rows();
    assert_eq!(rows.len(), 4);
    for (row, want) in rows.iter().zip(expected) {
        assert_eq!(row.iter().sum::<u64>(), want);
    }
}

#[test]
fn reverse_vocabulary_is_inverse_bijection() {
    let docs = vec!["apple banana apple", "banana cherry"];
    let mut vectorizer = CountVectorizer::new((1, 1), "lower");
    let _ = vectorizer.fit_transform(docs);
    let reverse = vectorizer.reverse_vocabulary_hashmap();

    assert_eq!(reverse.len(), vectorizer.vocabulary_.len());
    let mut seen: HashSet<String> = HashSet::new();
    for (id, token) in vectorizer.vocabulary_.iter().enumerate() {
        // vocabulary maps the token to id, and the reverse map returns it.
        assert_eq!(token_id(&vectorizer.vocabulary_, token), id);
        assert_eq!(&reverse[&(id as u64)], token);
        // no two ids share a token
        assert!(seen.insert(token.clone()));
    }
}

#[test]
fn empty_corpus_gives_empty_matrix() {
    let mut vectorizer = CountVectorizer::new((1, 1), "lower");
    let x = vectorizer.fit_transform(Vec::new());
    assert_eq!(0, vectorizer.vocabulary_.len());
    assert_eq!(0, x.nrows());
    assert_eq!(x.rows(), Vec::<Vec<u64>>::new());
}

#[test]
fn bigram_vocabulary_counts() {
    let mut vectorizer = CountVectorizer::new((2, 2), "lower");
    let x = vectorizer.fit_transform(vec!["one two one two"]);
    assert_eq!(
        vectorizer.vocabulary_,
        vec![
            "one two".to_string(),
            "two one".to_string(),
        ]
    );
    assert_eq!(x.rows(), vec![vec![2, 1]]);
}
