use vstd::prelude::*;
use crate::count_vectorizer::{CountVectorizer, counts_tokens, tokenized, vocabulary_of};
use crate::dataset::{Dataset, indexed_text, search_texts};
use crate::inverted_index::{InvertedIndex, has_term, positive_positions};
use crate::sparse::{CsrMatrix, SparseVec, all_true};

verus! {

/// Why an index could not be built.
#[derive(Clone, Copy, Debug, PartialEq, Eq, Structural)]
pub enum BuildError {
    /// The corpus holds no document.
    EmptyCorpus,
    /// The count matrix holds more entries than a row pointer may address.
    IndexTooLarge,
}

/// The tokens of each indexed text of a corpus.
pub open spec fn corpus_tokens(dataset: Dataset) -> Seq<Seq<Seq<char>>> {
    Seq::new(dataset.docs@.len(), |i: int| indexed_text(dataset.docs@[i])).map_values(
        |t: Seq<char>| crate::count_vectorizer::tokens_of(t),
    )
}

/// The vocabulary fitted on a corpus.
pub open spec fn corpus_vocabulary(dataset: Dataset) -> Seq<Seq<char>> {
    vocabulary_of(corpus_tokens(dataset))
}

/// The read-only search state built once from a corpus.
pub struct Core {
    pub count_vectorizer: CountVectorizer,
    pub index: InvertedIndex,
}

impl Core {
    /// Posting lists over the fitted vocabulary and the fitted documents.
    pub open spec fn wf(&self) -> bool {
        &&& self.count_vectorizer.wf()
        &&& self.index.wf()
        &&& self.index.postings().rows == self.count_vectorizer.spec_vocab()@.len()
        &&& self.index.postings().cols == self.count_vectorizer.spec_data().rows
    }

    /// Fits the vectorizer on the corpus' indexed texts and builds the posting lists.
    pub fn new(dataset: &Dataset) -> (r: Result<Core, BuildError>)
        ensures
            dataset.docs@.len() == 0 <==> r == Err::<Core, BuildError>(BuildError::EmptyCorpus),
            r is Err ==> dataset.docs@.len() == 0 || r == Err::<Core, BuildError>(BuildError::IndexTooLarge),
            r == Err::<Core, BuildError>(BuildError::IndexTooLarge) ==> exists|m: CsrMatrix<usize>|
                counts_tokens(m, corpus_vocabulary(*dataset), corpus_tokens(*dataset))
                    && m.indices@.len() > usize::MAX / 2,
            r matches Ok(c) ==> c.count_vectorizer.spec_data().indices@.len() <= usize::MAX / 2,
            r matches Ok(c) ==> {
                let cv = c.count_vectorizer;
                let docs = cv.spec_data();
                &&& c.wf()
                &&& cv.spec_vocab()@ == corpus_vocabulary(*dataset)
                &&& counts_tokens(docs, cv.spec_vocab()@, corpus_tokens(*dataset))
                &&& forall|t: int, d: int|
                    0 <= t < docs.cols && 0 <= d < docs.rows ==> (#[trigger] c.index.posting(t).contains(d as usize)
                        <==> has_term(docs, d, t as usize))
            },
    {
        let texts = search_texts(dataset);
        if texts.len() == 0 {
            return Err(BuildError::EmptyCorpus);
        }
        let mut count_vectorizer = CountVectorizer::new();
        count_vectorizer.fit(&texts);
        assert(tokenized(texts@) =~= corpus_tokens(*dataset));
        let data = count_vectorizer.get_data();
        if data.nnz() > usize::MAX / 2 {
            assert(counts_tokens(*data, corpus_vocabulary(*dataset), corpus_tokens(*dataset)));
            return Err(BuildError::IndexTooLarge);
        }
        let index = InvertedIndex::build(data);
        Ok(Core { count_vectorizer, index })
    }

    /// The count vector of a query over the fitted vocabulary, and the
    /// documents that hold every one of its known tokens.
    pub fn candidates(&self, keyword: &String) -> (r: (SparseVec<usize>, SparseVec<bool>))
        requires
            self.wf(),
        ensures
            r.0.wf(),
            r.1.wf(),
            r.0.dim == self.count_vectorizer.spec_vocab()@.len(),
            r.1.dim == self.count_vectorizer.spec_data().rows,
            all_true(r.1.data@),
            crate::sparse::is_histogram(
                r.0.indices@,
                r.0.data@,
                crate::count_vectorizer::known_ids(
                    self.count_vectorizer.spec_vocab()@,
                    crate::count_vectorizer::tokens_of(keyword@),
                ),
            ),
            positive_positions(r.0.indices@, r.0.data@).len() == 0 ==> r.1.indices@.len() == 0,
            positive_positions(r.0.indices@, r.0.data@).len() > 0 ==> forall|d: usize|
                #[trigger] r.1.indices@.contains(d) <==> (d < self.count_vectorizer.spec_data().rows
                    && forall|t: usize|
                    #[trigger] positive_positions(r.0.indices@, r.0.data@).contains(t)
                        ==> self.index.posting(t as int).contains(d)),
    {
        let mut inputs: Vec<String> = Vec::new();
        inputs.push(keyword.clone());
        let m = self.count_vectorizer.transform(&inputs);
        let q = m.outer_view(0);
        assert(m.row_indices(0) == q.indices@);
        let found = self.index.search(&q);
        (q, found)
    }
}

} // verus!
