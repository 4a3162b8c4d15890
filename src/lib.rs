//! A small full-text search core: token counting over a fitted vocabulary,
//! compressed sparse rows, boolean posting lists intersected by merging,
//! and the ranking, filtering and paging of query results.

pub mod count_vectorizer;
pub mod dataset;
pub mod engine;
pub mod inverted_index;
pub mod search;
pub mod sparse;
pub mod tfidf;
pub mod vocabulary;
