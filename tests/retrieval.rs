use search_core::dataset::{search_text, Attachment, Dataset, Doc};
use search_core::engine::{BuildError, Core};
use search_core::inverted_index::InvertedIndex;
use search_core::search::{
    compare_ranked, matches_filter, rank, select_page, SearchParams, SearchParamsFilter,
};
use search_core::sparse::{cs_mat_from_cs_vecs, SparseVec};
use std::cmp::Ordering;

fn doc(title: &str, text: &str, infotype: &str, user: &str, names: &[&str]) -> Doc {
    Doc {
        url: String::new(),
        infotype: infotype.to_string(),
        user: user.to_string(),
        title: title.to_string(),
        text: text.to_string(),
        html: String::new(),
        time: String::new(),
        attachments: names
            .iter()
            .map(|n| Attachment { name: n.to_string(), url: String::new() })
            .collect(),
    }
}

#[test]
fn test_inverted_index() {
    let x = cs_mat_from_cs_vecs(&vec![
        SparseVec::new(3, vec![0, 1], vec![1, 1]),
        SparseVec::new(3, vec![1, 2], vec![1, 1]),
        SparseVec::new(3, vec![0, 2], vec![1, 1]),
        SparseVec::new(3, vec![0, 1, 2], vec![1, 1, 1]),
    ]);
    let index = InvertedIndex::build(&x);

    let x = SparseVec::new(3, vec![0, 1], vec![1, 1]);
    let result = index.search(&x);
    assert_eq!(result.nnz(), 2);
    assert_eq!(result.indices, vec![0, 3]);
    assert_eq!(result.data, vec![true, true]);
}

#[test]
fn search_with_an_empty_posting_list_finds_nothing() {
    let x = cs_mat_from_cs_vecs(&vec![
        SparseVec::new(3, vec![0, 1], vec![1, 2]),
        SparseVec::new(3, vec![0], vec![4]),
    ]);
    let index = InvertedIndex::build(&x);
    assert_eq!(index.terms(), 3);
    assert_eq!(index.docs(), 2);
    let q = SparseVec::new(3, vec![0, 2], vec![1, 1]);
    let found = index.search(&q);
    assert!(found.indices.is_empty());
    let ranked = rank(&found, &vec![]);
    let dataset = Dataset { docs: vec![doc("", "", "", "", &[]), doc("", "", "", "", &[])] };
    let page = select_page(&ranked, &dataset, &None, 0, 10);
    assert_eq!(page.total_hits, 0);
    assert!(page.hits.is_empty());
}

#[test]
fn search_skips_explicit_zero_counts() {
    let x = cs_mat_from_cs_vecs(&vec![
        SparseVec::new(2, vec![0, 1], vec![0, 3]),
        SparseVec::new(2, vec![0], vec![2]),
    ]);
    let index = InvertedIndex::build(&x);
    let only_zero = SparseVec::new(2, vec![0], vec![0]);
    assert!(index.search(&only_zero).indices.is_empty());
    let q = SparseVec::new(2, vec![0, 1], vec![0, 1]);
    assert_eq!(index.search(&q).indices, vec![0]);
    let q0 = SparseVec::new(2, vec![0], vec![5]);
    assert_eq!(index.search(&q0).indices, vec![1]);
}

#[test]
fn empty_query_vector_matches_no_document() {
    let x = cs_mat_from_cs_vecs(&vec![SparseVec::new(2, vec![0, 1], vec![1, 1])]);
    let index = InvertedIndex::build(&x);
    let q = SparseVec::new(2, vec![], vec![]);
    let found = index.search(&q);
    assert_eq!(found.dim, 1);
    assert!(found.indices.is_empty());
}

#[test]
fn search_text_joins_fields_by_lines() {
    let d = doc("T", "body", "", "", &["a.pdf", "b.doc"]);
    assert_eq!(search_text(&d), "T\nbody\na.pdf\nb.doc");
    let e = doc("T", "body", "", "", &[]);
    assert_eq!(search_text(&e), "T\nbody\n");
}

#[test]
fn core_rejects_an_empty_corpus() {
    let r = Core::new(&Dataset { docs: vec![] });
    assert!(matches!(r, Err(BuildError::EmptyCorpus)));
}

#[test]
fn core_finds_documents_holding_every_query_term() {
    let dataset = Dataset {
        docs: vec![
            doc("apple", "banana", "news", "u1", &[]),
            doc("banana", "cherry", "news", "u2", &[]),
            doc("apple banana", "cherry", "notice", "u1", &["apple.pdf"]),
        ],
    };
    let core = Core::new(&dataset).ok().unwrap();
    let (q, found) = core.candidates(&"banana apple".to_string());
    assert_eq!(q.nnz(), 2);
    assert_eq!(found.indices, vec![0, 2]);
    let (_, none) = core.candidates(&"durian".to_string());
    assert!(none.indices.is_empty());
}

#[test]
fn ranking_orders_by_score_then_id() {
    let cands = SparseVec::new(10, vec![1, 3, 5, 7], vec![true; 4]);
    let ranked = rank(&cands, &vec![5, 9, 5, 1]);
    assert_eq!(ranked, vec![(3, 9), (1, 5), (5, 5), (7, 1)]);
    assert_eq!(compare_ranked(&(1, 5), &(5, 5)), Ordering::Less);
    assert_eq!(compare_ranked(&(1, 9), &(0, 5)), Ordering::Less);
    assert_eq!(compare_ranked(&(2, 1), &(2, 1)), Ordering::Equal);
    assert_eq!(compare_ranked(&(2, 1), &(0, 3)), Ordering::Greater);
}

#[test]
fn paging_past_the_end_keeps_the_total() {
    let dataset = Dataset {
        docs: vec![doc("", "", "a", "x", &[]), doc("", "", "a", "y", &[]), doc("", "", "b", "x", &[])],
    };
    let ranked = vec![(2, 9), (0, 7), (1, 3)];
    let page = select_page(&ranked, &dataset, &None, 5, 10);
    assert_eq!(page.total_hits, 3);
    assert!(page.hits.is_empty());
    let page = select_page(&ranked, &dataset, &None, 1, 1);
    assert_eq!(page.total_hits, 3);
    assert_eq!(page.hits, vec![(0, 7)]);
    let page = select_page(&ranked, &dataset, &None, 0, usize::MAX);
    assert_eq!(page.hits, ranked);
}

#[test]
fn filter_keeps_order_and_counts_before_paging() {
    let dataset = Dataset {
        docs: vec![doc("", "", "a", "x", &[]), doc("", "", "a", "y", &[]), doc("", "", "b", "x", &[])],
    };
    let ranked = vec![(2, 9), (0, 7), (1, 3)];
    let f = SearchParamsFilter { infotype: None, user: Some("x".to_string()) };
    assert!(matches_filter(&f, &dataset.docs[0]));
    assert!(!matches_filter(&f, &dataset.docs[1]));
    let page = select_page(&ranked, &dataset, &Some(f), 0, 10);
    assert_eq!(page.total_hits, 2);
    assert_eq!(page.hits, vec![(2, 9), (0, 7)]);
    let both = SearchParamsFilter { infotype: Some("a".to_string()), user: Some("x".to_string()) };
    let page = select_page(&ranked, &dataset, &Some(both), 0, 10);
    assert_eq!(page.total_hits, 1);
    assert_eq!(page.hits, vec![(0, 7)]);
}

#[test]
fn search_params_defaults() {
    let p = SearchParams { keyword: "k".to_string(), offset: None, limit: None, filter: None };
    assert_eq!(p.offset_or_default(), 0);
    assert_eq!(p.limit_or_default(), 10);
    let p = SearchParams { keyword: "k".to_string(), offset: Some(4), limit: Some(2), filter: None };
    assert_eq!(p.offset_or_default(), 4);
    assert_eq!(p.limit_or_default(), 2);
}
