use vstd::prelude::*;
use crate::inverted_index::{has_term, positive_part, positive_positions};
use crate::count_vectorizer::{
    CountVectorizer, add_all, counts_tokens, known_ids, tokenized, vocabulary_of,
};
use crate::sparse::{CsrMatrix, is_histogram};
use crate::vocabulary::{id_of, lemma_ids_are_positions};

verus! {

/// The number of the first `n` documents of `x` that hold term `t`.
pub open spec fn doc_frequency(x: CsrMatrix<usize>, t: usize, n: int) -> nat
    decreases n,
{
    if n <= 0 {
        0
    } else {
        doc_frequency(x, t, n - 1) + if has_term(x, n - 1, t) {
            1nat
        } else {
            0nat
        }
    }
}

/// The sum of a list of counts.
pub open spec fn total(s: Seq<usize>) -> int
    decreases s.len(),
{
    if s.len() == 0 {
        0
    } else {
        total(s.drop_last()) + s.last()
    }
}

proof fn lemma_doc_frequency_bounded(x: CsrMatrix<usize>, t: usize, n: int)
    requires
        n >= 0,
    ensures
        doc_frequency(x, t, n) <= n,
    decreases n,
{
    if n > 0 {
        lemma_doc_frequency_bounded(x, t, n - 1);
    }
}

/// For each term, the number of documents holding it: never more than the
/// number of documents, so that `log(documents / frequency)` is never negative.
pub fn document_frequencies(x: &CsrMatrix<usize>) -> (r: Vec<usize>)
    requires
        x.wf(),
    ensures
        r@.len() == x.cols,
        forall|t: int| 0 <= t < x.cols ==> r@[t] == doc_frequency(*x, t as usize, x.rows as int),
        forall|t: int| 0 <= t < x.cols ==> r@[t] <= x.rows,
{
    let mut count: Vec<usize> = Vec::new();
    let mut t: usize = 0;
    while t < x.cols
        invariant
            t <= x.cols,
            count@.len() == t,
            forall|u: int| 0 <= u < t ==> count@[u] == 0,
        decreases x.cols - t,
    {
        count.push(0);
        t += 1;
    }
    let mut d: usize = 0;
    while d < x.rows
        invariant
            x.wf(),
            d <= x.rows,
            count@.len() == x.cols,
            forall|u: int| 0 <= u < x.cols ==> count@[u] == doc_frequency(*x, u as usize, d as int),
        decreases x.rows - d,
    {
        let row = x.outer_view(d);
        let p = positive_part(&row);
        let ghost base = count@;
        let mut k: usize = 0;
        while k < p.indices.len()
            invariant
                x.wf(),
                d < x.rows,
                p.wf(),
                p.dim == x.cols,
                p.indices@ == positive_positions(x.row_indices(d as int), x.row_data(d as int)),
                k <= p.indices@.len(),
                count@.len() == x.cols,
                forall|u: int|
                    0 <= u < x.cols ==> base[u] == doc_frequency(*x, u as usize, d as int),
                forall|u: int|
                    0 <= u < x.cols ==> #[trigger] count@[u] == base[u] + if p.indices@.subrange(
                        0,
                        k as int,
                    ).contains(u as usize) {
                        1int
                    } else {
                        0int
                    },
            decreases p.indices@.len() - k,
        {
            let t = p.indices[k];
            let ghost before = p.indices@.subrange(0, k as int);
            let ghost after = p.indices@.subrange(0, k + 1);
            assert(!before.contains(t)) by {
                if before.contains(t) {
                    let i = choose|i: int| 0 <= i < before.len() && before[i] == t;
                    assert(p.indices@[i] < p.indices@[k as int]);
                }
            }
            proof {
                lemma_doc_frequency_bounded(*x, t, d as int);
            }
            let c = count[t];
            count.set(t, c + 1);
            assert forall|u: int| 0 <= u < x.cols implies #[trigger] count@[u] == base[u] + if after.contains(
                u as usize,
            ) {
                1int
            } else {
                0int
            } by {
                assert(after.contains(u as usize) <==> (before.contains(u as usize) || u == t)) by {
                    if after.contains(u as usize) && u != t {
                        let i = choose|i: int| 0 <= i < after.len() && after[i] == u as usize;
                        assert(before[i] == u);
                    }
                    if before.contains(u as usize) {
                        let i = choose|i: int| 0 <= i < before.len() && before[i] == u as usize;
                        assert(after[i] == u);
                    }
                    if u == t {
                        assert(after[k as int] == t);
                    }
                }
            }
            k += 1;
        }
        assert(p.indices@.subrange(0, k as int) =~= p.indices@);
        d += 1;
    }
    proof {
        assert forall|t: int| 0 <= t < x.cols implies count@[t] <= x.rows by {
            lemma_doc_frequency_bounded(*x, t as usize, x.rows as int);
        }
    }
    count
}

/// For each document, the sum of its counts; `None` when a sum exceeds `usize`.
pub fn token_totals(x: &CsrMatrix<usize>) -> (r: Option<Vec<usize>>)
    requires
        x.wf(),
    ensures
        r is Some <==> forall|d: int| 0 <= d < x.rows ==> total(#[trigger] x.row_data(d)) <= usize::MAX,
        r is Some ==> r->0@.len() == x.rows && forall|d: int|
            0 <= d < x.rows ==> r->0@[d] == total(#[trigger] x.row_data(d)),
{
    let mut totals: Vec<usize> = Vec::new();
    let mut d: usize = 0;
    while d < x.rows
        invariant
            x.wf(),
            d <= x.rows,
            totals@.len() == d,
            forall|e: int| 0 <= e < d ==> totals@[e] == total(#[trigger] x.row_data(e)),
        decreases x.rows - d,
    {
        let row = x.outer_view(d);
        let mut sum: usize = 0;
        let mut k: usize = 0;
        while k < row.data.len()
            invariant
                row.wf(),
                d < x.rows,
                row.data@ == x.row_data(d as int),
                k <= row.data@.len(),
                sum == total(row.data@.subrange(0, k as int)),
            decreases row.data@.len() - k,
        {
            assert(row.data@.subrange(0, k + 1).drop_last() =~= row.data@.subrange(0, k as int));
            match sum.checked_add(row.data[k]) {
                Some(s) => {
                    sum = s;
                },
                None => {
                    proof {
                        lemma_total_prefix(row.data@, k + 1);
                        assert(row.data@.subrange(0, k + 1).last() == row.data@[k as int]);
                        assert(total(row.data@.subrange(0, k + 1)) > usize::MAX);
                        assert(total(x.row_data(d as int)) > usize::MAX);
                    }
                    return None;
                },
            }
            k += 1;
        }
        assert(row.data@.subrange(0, k as int) =~= row.data@);
        totals.push(sum);
        d += 1;
    }
    Some(totals)
}

proof fn lemma_total_prefix(s: Seq<usize>, k: int)
    requires
        0 <= k <= s.len(),
    ensures
        total(s.subrange(0, k)) <= total(s),
    decreases s.len() - k,
{
    if k < s.len() {
        lemma_total_prefix(s, k + 1);
        assert(s.subrange(0, k + 1).drop_last() =~= s.subrange(0, k));
    } else {
        assert(s.subrange(0, k) =~= s);
    }
}

proof fn lemma_add_all_contains(ws: Seq<Seq<char>>, toks: Seq<Seq<char>>, w: Seq<char>)
    ensures
        add_all(ws, toks).contains(w) ==> ws.contains(w) || toks.contains(w),
    decreases toks.len(),
{
    if toks.len() > 0 {
        let p = add_all(ws, toks.drop_last());
        lemma_add_all_contains(ws, toks.drop_last(), w);
        if add_all(ws, toks).contains(w) && !p.contains(w) {
            let i = choose|i: int| 0 <= i < add_all(ws, toks).len() && add_all(ws, toks)[i] == w;
            assert(i == p.len());
            assert(toks[toks.len() - 1] == w);
        }
        if toks.drop_last().contains(w) {
            let i = choose|i: int| 0 <= i < toks.len() - 1 && toks.drop_last()[i] == w;
            assert(toks[i] == w);
        }
    }
}

proof fn lemma_vocabulary_of_contains(docs: Seq<Seq<Seq<char>>>, w: Seq<char>)
    requires
        vocabulary_of(docs).contains(w),
    ensures
        exists|d: int| 0 <= d < docs.len() && (#[trigger] docs[d]).contains(w),
    decreases docs.len(),
{
    if docs.len() > 0 {
        lemma_add_all_contains(vocabulary_of(docs.drop_last()), docs.last(), w);
        if vocabulary_of(docs.drop_last()).contains(w) {
            lemma_vocabulary_of_contains(docs.drop_last(), w);
            let d = choose|d: int| 0 <= d < docs.len() - 1 && (#[trigger] docs.drop_last()[d]).contains(w);
            assert(docs[d] == docs.drop_last()[d]);
        } else {
            assert(docs[docs.len() - 1] == docs.last());
        }
    }
}

proof fn lemma_known_ids_contains(words: Seq<Seq<char>>, toks: Seq<Seq<char>>, w: Seq<char>, i: usize)
    requires
        toks.contains(w),
        id_of(words, w) == Some(i),
    ensures
        known_ids(words, toks).contains(i),
    decreases toks.len(),
{
    let p = known_ids(words, toks.drop_last());
    if toks.last() == w {
        assert(known_ids(words, toks) == p.push(i));
        assert(p.push(i)[p.len() as int] == i);
    } else {
        let j = choose|j: int| 0 <= j < toks.len() && toks[j] == w;
        assert(toks.drop_last()[j] == w);
        lemma_known_ids_contains(words, toks.drop_last(), w, i);
        let k = choose|k: int| 0 <= k < p.len() && p[k] == i;
        match id_of(words, toks.last()) {
            Some(x) => {
                assert(p.push(x)[k] == i);
            },
            None => {},
        }
    }
}

proof fn lemma_positive_at(ix: Seq<usize>, vals: Seq<usize>, k: int)
    requires
        ix.len() == vals.len(),
        0 <= k < ix.len(),
        vals[k] > 0,
    ensures
        positive_positions(ix, vals).contains(ix[k]),
    decreases ix.len(),
{
    let p = positive_positions(ix.drop_last(), vals.drop_last());
    if k == ix.len() - 1 {
        assert(p.push(ix.last())[p.len() as int] == ix[k]);
    } else {
        lemma_positive_at(ix.drop_last(), vals.drop_last(), k);
        let j = choose|j: int| 0 <= j < p.len() && p[j] == ix[k];
        if vals.last() > 0 {
            assert(p.push(ix.last())[j] == ix[k]);
        }
    }
}

proof fn lemma_doc_frequency_positive(x: CsrMatrix<usize>, t: usize, n: int, d: int)
    requires
        0 <= d < n,
        has_term(x, d, t),
    ensures
        doc_frequency(x, t, n) >= 1,
    decreases n,
{
    if d < n - 1 {
        lemma_doc_frequency_positive(x, t, n - 1, d);
    }
}

/// After `fit`, every vocabulary term occurs in at least one document and
/// in at most all of them, so `log(documents / df)` is finite and never
/// negative, and so is every TF-IDF weight.
pub proof fn lemma_fitted_document_frequencies(cv: CountVectorizer, texts: Seq<String>)
    requires
        cv.wf(),
        cv.spec_vocab()@ == vocabulary_of(tokenized(texts)),
        counts_tokens(cv.spec_data(), cv.spec_vocab()@, tokenized(texts)),
    ensures
        forall|t: int|
            0 <= t < cv.spec_vocab()@.len() ==> 1 <= #[trigger] doc_frequency(
                cv.spec_data(),
                t as usize,
                cv.spec_data().rows as int,
            ) <= cv.spec_data().rows,
{
    broadcast use vstd::seq_lib::group_to_multiset_ensures;

    let words = cv.spec_vocab()@;
    let x = cv.spec_data();
    let docs = tokenized(texts);
    lemma_ids_are_positions(cv.spec_vocab());
    assert forall|t: int| 0 <= t < words.len() implies 1 <= #[trigger] doc_frequency(
        x,
        t as usize,
        x.rows as int,
    ) <= x.rows by {
        lemma_doc_frequency_bounded(x, t as usize, x.rows as int);
        let w = words[t];
        assert(words.contains(w));
        lemma_vocabulary_of_contains(docs, w);
        let d = choose|d: int| 0 <= d < docs.len() && (#[trigger] docs[d]).contains(w);
        assert(id_of(words, w) == Some(t as usize));
        lemma_known_ids_contains(words, docs[d], w, t as usize);
        let ids = known_ids(words, docs[d]);
        assert(is_histogram(x.row_indices(d), x.row_data(d), ids));
        assert(x.row_indices(d).contains(t as usize));
        let k = choose|k: int| 0 <= k < x.row_indices(d).len() && x.row_indices(d)[k] == t as usize;
        assert(ids.to_multiset().count(t as usize) > 0);
        assert(x.row_data(d)[k] > 0);
        lemma_positive_at(x.row_indices(d), x.row_data(d), k);
        lemma_doc_frequency_positive(x, t as usize, x.rows as int, d);
    }
}

} // verus!
