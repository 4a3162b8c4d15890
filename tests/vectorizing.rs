use search_core::count_vectorizer::CountVectorizer;
use search_core::tfidf::{document_frequencies, token_totals};
use search_core::vocabulary::Vocabulary;

fn corpus(texts: &[&str]) -> Vec<String> {
    texts.iter().map(|s| s.to_string()).collect()
}

#[test]
fn test_jieba() {
    let jieba = jieba_rs::Jieba::new();
    let s = "我来到北京清华大学";
    let words = jieba.cut(s, false);
    assert_eq!(words, vec!["我", "来到", "北京", "清华大学"]);
}

#[test]
fn test_stemmer() {
    let stemmer = rust_stemmers::Stemmer::create(rust_stemmers::Algorithm::English);
    let s = "fruitlessly";
    let stemmed = stemmer.stem(s).into_owned();
    assert_eq!(stemmed, "fruitless");
}

#[test]
fn test_tokenizer() {
    let cv = CountVectorizer::new();
    let s = vec!["我a b你".to_owned()];
    assert_eq!(cv.tokenize(&s), vec![vec!["我", "a", "b", "你"]]);
}

#[test]
fn test_count_vectorizer() {
    let mut cv = CountVectorizer::new();
    let x = corpus(&["a b c", "a b", "a"]);
    cv.fit(&x);
    let data = cv.get_data();
    assert_eq!(data.indptr, vec![0, 3, 5, 6]);
    assert_eq!(data.indices, vec![0, 1, 2, 0, 1, 0]);
    assert_eq!(data.data, vec![1, 1, 1, 1, 1, 1]);
}

#[test]
fn tokenizer_lowercases_and_stems_ascii() {
    let cv = CountVectorizer::new();
    let toks = cv.tokenize_one("Running DOGS");
    assert_eq!(toks, vec!["run", "dog"]);
}

#[test]
fn tokenizer_drops_white_space_only_segments() {
    let cv = CountVectorizer::new();
    assert!(cv.tokenize_one(" \t\n  ").is_empty());
    assert!(cv.tokenize_one("").is_empty());
}

#[test]
fn tokenizer_keeps_logographic_segments() {
    let cv = CountVectorizer::new();
    let toks = cv.tokenize_one("清华大学");
    assert!(toks.contains(&"清华大学".to_string()));
    assert!(toks.iter().all(|t| !t.trim().is_empty()));
}

#[test]
fn vocabulary_ids_are_first_seen_positions() {
    let mut cv = CountVectorizer::new();
    cv.fit(&corpus(&["c b", "a c", "d"]));
    let v = cv.vocab();
    assert_eq!(v.len(), 4);
    for (i, w) in ["c", "b", "a", "d"].iter().enumerate() {
        assert_eq!(v.id(w), Some(i));
        assert_eq!(v.word(i), *w);
    }
    assert_eq!(v.id("zzz"), None);
}

#[test]
fn vocabulary_insert_ignores_repeats() {
    let mut v = Vocabulary::new();
    assert!(v.is_empty());
    v.insert("x");
    v.insert("y");
    v.insert("x");
    assert_eq!(v.len(), 2);
    assert_eq!(v.id("x"), Some(0));
    assert_eq!(v.id("y"), Some(1));
    assert_eq!(v.word(1), "y");
    assert!(!v.is_empty());
    let d = Vocabulary::default();
    assert_eq!(d.len(), 0);
}

#[test]
fn count_matrix_sorts_and_counts_repeats() {
    let mut cv = CountVectorizer::new();
    cv.fit(&corpus(&["x y", "y y x y"]));
    let data = cv.get_data();
    assert_eq!(data.indptr, vec![0, 2, 4]);
    assert_eq!(data.indices, vec![0, 1, 0, 1]);
    assert_eq!(data.data, vec![1, 1, 1, 3]);
}

#[test]
fn transform_drops_unknown_tokens() {
    let mut cv = CountVectorizer::new();
    cv.fit(&corpus(&["a b c", "a b", "a"]));
    let m = cv.transform(&corpus(&["c zzz c a"]));
    assert_eq!(m.rows, 1);
    assert_eq!(m.cols, 3);
    assert_eq!(m.indptr, vec![0, 2]);
    assert_eq!(m.indices, vec![0, 2]);
    assert_eq!(m.data, vec![1, 2]);
}

#[test]
fn transform_twice_gives_the_same_matrix() {
    let mut cv = CountVectorizer::new();
    cv.fit(&corpus(&["one two three", "two three", "three"]));
    let q = corpus(&["three two three four", "one"]);
    let m1 = cv.transform(&q);
    let m2 = cv.transform(&q);
    assert_eq!(m1.indptr, m2.indptr);
    assert_eq!(m1.indices, m2.indices);
    assert_eq!(m1.data, m2.data);
}

#[test]
fn term_in_every_document_has_zero_idf() {
    let mut cv = CountVectorizer::new();
    cv.fit(&corpus(&["a b c", "a b", "a"]));
    let df = document_frequencies(cv.get_data());
    assert_eq!(df, vec![3, 2, 1]);
    let nd = cv.get_data().rows as f64;
    let idf_a = (nd / df[0] as f64).log10();
    assert_eq!(idf_a, 0.0);
    let totals = token_totals(cv.get_data()).unwrap();
    assert_eq!(totals, vec![3, 2, 1]);
    for t in &totals {
        assert_eq!((1.0 / *t as f64) * idf_a, 0.0);
    }
}

#[test]
fn document_frequencies_never_exceed_document_count() {
    let mut cv = CountVectorizer::new();
    cv.fit(&corpus(&["x x y", "y z", "x"]));
    let data = cv.get_data();
    let df = document_frequencies(data);
    assert_eq!(df, vec![2, 2, 1]);
    assert!(df.iter().all(|&d| d >= 1 && d <= data.rows));
}
