use vstd::prelude::*;
use crate::sparse::{
    CsrMatrix, SparseVec, bounded_by, cs_mat_from_cs_vecs, cs_vec_count, is_histogram,
    nondecreasing,
};
use crate::vocabulary::{Vocabulary, id_of};

verus! {

#[verifier::external_type_specification]
#[verifier::external_body]
pub struct ExJieba(jieba_rs::Jieba);

pub assume_specification[ jieba_rs::Jieba::new ]() -> jieba_rs::Jieba;

/// The segments that search-mode segmentation with the default dictionary
/// and HMM enabled yields for a text.
pub uninterp spec fn search_segments(text: Seq<char>) -> Seq<Seq<char>>;

/// The English (Porter 2) stem of a word.
pub uninterp spec fn english_stem(word: Seq<char>) -> Seq<char>;

/// Relies on jieba_rs::Jieba::cut_for_search with HMM enabled: on a segmenter
/// built by `Jieba::new` and never changed (the only kind this crate holds),
/// the segments depend on the text alone.
#[verifier::external_body]
fn cut_for_search(jieba: &jieba_rs::Jieba, text: &str) -> (r: Vec<String>)
    ensures
        r@.map_values(|s: String| s@) == search_segments(text@),
{
    jieba.cut_for_search(text, true).into_iter().map(|s| s.to_string()).collect()
}

/// Relies on rust_stemmers' English stemmer: the stem depends on the word alone.
#[verifier::external_body]
fn stem_english(word: &str) -> (r: String)
    ensures
        r@ == english_stem(word@),
{
    rust_stemmers::Stemmer::create(rust_stemmers::Algorithm::English).stem(word).into_owned()
}

/// An ASCII letter in lower case; any other character unchanged.
pub open spec fn ascii_lower_char(c: char) -> char {
    if 'A' <= c && c <= 'Z' {
        ((c as u32) + 32) as char
    } else {
        c
    }
}

pub open spec fn ascii_lower(s: Seq<char>) -> Seq<char> {
    s.map_values(|c: char| ascii_lower_char(c))
}

/// Relies on str::to_lowercase, which on ASCII text maps `A`..`Z` to
/// `a`..`z` and keeps every other character.
#[verifier::external_body]
fn lowercase(s: &str) -> (r: String)
    requires
        s.is_ascii(),
    ensures
        r@ == ascii_lower(s@),
{
    s.to_lowercase()
}

/// Relies on str::chars: the characters of the text, in order.
#[verifier::external_body]
fn chars_of(s: &str) -> (r: Vec<char>)
    ensures
        r@ == s@,
{
    s.chars().collect()
}

/// Unicode White_Space, as `char::is_whitespace` decides it.
pub open spec fn is_white_space(c: char) -> bool {
    let u = c as u32;
    (9 <= u && u <= 13) || u == 32 || u == 0x85 || u == 0xA0 || u == 0x1680 || (0x2000 <= u && u
        <= 0x200A) || u == 0x2028 || u == 0x2029 || u == 0x202F || u == 0x205F || u == 0x3000
}

fn is_white_space_char(c: char) -> (r: bool)
    ensures
        r == is_white_space(c),
{
    let u = c as u32;
    (9 <= u && u <= 13) || u == 32 || u == 0x85 || u == 0xA0 || u == 0x1680 || (0x2000 <= u && u
        <= 0x200A) || u == 0x2028 || u == 0x2029 || u == 0x202F || u == 0x205F || u == 0x3000
}

/// Whether every character of `s` is white space (true of the empty text).
pub open spec fn all_white(s: Seq<char>) -> bool {
    forall|i: int| 0 <= i < s.len() ==> is_white_space(s[i])
}

fn is_blank(s: &str) -> (r: bool)
    ensures
        r == all_white(s@),
{
    let cs = chars_of(s);
    let mut i: usize = 0;
    while i < cs.len()
        invariant
            cs@ == s@,
            i <= cs@.len(),
            forall|k: int| 0 <= k < i ==> is_white_space(s@[k]),
        decreases cs@.len() - i,
    {
        if !is_white_space_char(cs[i]) {
            return false;
        }
        i += 1;
    }
    true
}

/// The token a segment becomes: none for white space; the stem of its lower
/// case for ASCII text; the segment itself otherwise.
pub open spec fn normalize(seg: Seq<char>) -> Option<Seq<char>> {
    if all_white(seg) {
        None
    } else if vstd::utf8::is_ascii_chars(seg) {
        Some(english_stem(ascii_lower(seg)))
    } else {
        Some(seg)
    }
}

/// The tokens of a list of segments, in order.
pub open spec fn tokens_from(segs: Seq<Seq<char>>) -> Seq<Seq<char>>
    decreases segs.len(),
{
    if segs.len() == 0 {
        Seq::empty()
    } else {
        let p = tokens_from(segs.drop_last());
        match normalize(segs.last()) {
            Some(t) => p.push(t),
            None => p,
        }
    }
}

/// The tokens of a text.
pub open spec fn tokens_of(text: Seq<char>) -> Seq<Seq<char>> {
    tokens_from(search_segments(text))
}

/// `ws` extended by each token of `toks` not yet in it, in order.
pub open spec fn add_all(ws: Seq<Seq<char>>, toks: Seq<Seq<char>>) -> Seq<Seq<char>>
    decreases toks.len(),
{
    if toks.len() == 0 {
        ws
    } else {
        let p = add_all(ws, toks.drop_last());
        if p.contains(toks.last()) {
            p
        } else {
            p.push(toks.last())
        }
    }
}

/// The vocabulary of tokenized documents: every token, in order of first occurrence.
pub open spec fn vocabulary_of(docs: Seq<Seq<Seq<char>>>) -> Seq<Seq<char>>
    decreases docs.len(),
{
    if docs.len() == 0 {
        Seq::empty()
    } else {
        add_all(vocabulary_of(docs.drop_last()), docs.last())
    }
}

/// The ids of the tokens that `words` knows, in the order of `toks`.
pub open spec fn known_ids(words: Seq<Seq<char>>, toks: Seq<Seq<char>>) -> Seq<usize>
    decreases toks.len(),
{
    if toks.len() == 0 {
        Seq::empty()
    } else {
        let p = known_ids(words, toks.drop_last());
        match id_of(words, toks.last()) {
            Some(i) => p.push(i),
            None => p,
        }
    }
}

/// The tokens of each text.
pub open spec fn tokenized(texts: Seq<String>) -> Seq<Seq<Seq<char>>> {
    texts.map_values(|t: String| tokens_of(t@))
}

/// Row `d` of `m` counts the known tokens of document `d`.
pub open spec fn counts_tokens(
    m: CsrMatrix<usize>,
    words: Seq<Seq<char>>,
    docs: Seq<Seq<Seq<char>>>,
) -> bool {
    &&& m.wf()
    &&& m.rows == docs.len()
    &&& m.cols == words.len()
    &&& forall|d: int|
        0 <= d < docs.len() ==> is_histogram(
            #[trigger] m.row_indices(d),
            m.row_data(d),
            known_ids(words, docs[d]),
        )
}

pub open spec fn strings_view(v: Seq<String>) -> Seq<Seq<char>> {
    v.map_values(|s: String| s@)
}

/// Relies on slice::sort: afterwards the elements are ascending, and they
/// are the same elements as before.
#[verifier::external_body]
fn sort_ids(v: &mut Vec<usize>)
    ensures
        final(v)@.to_multiset() == old(v)@.to_multiset(),
        nondecreasing(final(v)@),
{
    v.sort();
}

proof fn lemma_histogram_permuted(ix: Seq<usize>, cnt: Seq<usize>, a: Seq<usize>, b: Seq<usize>)
    requires
        is_histogram(ix, cnt, a),
        a.to_multiset() == b.to_multiset(),
    ensures
        is_histogram(ix, cnt, b),
{
    broadcast use vstd::seq_lib::group_to_multiset_ensures;

    assert forall|v: usize| a.contains(v) <==> b.contains(v) by {
        assert(a.contains(v) <==> a.to_multiset().count(v) > 0);
        assert(b.contains(v) <==> b.to_multiset().count(v) > 0);
    }
}

/// Turns texts into vectors of token counts over a vocabulary fitted on a corpus.
pub struct CountVectorizer {
    vocab: Vocabulary,
    /// Token counts of the fitted corpus, one row per document.
    data: CsrMatrix<usize>,
    jieba: jieba_rs::Jieba,
}

impl CountVectorizer {
    /// The fitted vocabulary.
    pub closed spec fn spec_vocab(&self) -> Vocabulary {
        self.vocab
    }

    /// The token counts of the fitted corpus.
    pub closed spec fn spec_data(&self) -> CsrMatrix<usize> {
        self.data
    }

    pub open spec fn wf(&self) -> bool {
        &&& self.spec_vocab().wf()
        &&& self.spec_data().wf()
    }

    /// The fitted vocabulary.
    pub fn vocab(&self) -> (r: &Vocabulary)
        ensures
            *r == self.spec_vocab(),
    {
        &self.vocab
    }

    /// The token counts of the fitted corpus, one row per document.
    pub fn get_data(&self) -> (r: &CsrMatrix<usize>)
        ensures
            *r == self.spec_data(),
    {
        &self.data
    }

    /// A vectorizer with an empty vocabulary and an empty count matrix.
    pub fn new() -> (r: Self)
        ensures
            r.wf(),
            r.spec_vocab()@.len() == 0,
            r.spec_data().rows == 0,
            r.spec_data().cols == 0,
    {
        CountVectorizer {
            vocab: Vocabulary::new(),
            data: CsrMatrix::zero(),
            jieba: jieba_rs::Jieba::new(),
        }
    }

    /// The tokens of one text.
    pub fn tokenize_one(&self, text: &str) -> (r: Vec<String>)
        ensures
            strings_view(r@) == tokens_of(text@),
    {
        let segs = cut_for_search(&self.jieba, text);
        let ghost sv = segs@.map_values(|s: String| s@);
        let mut tokens: Vec<String> = Vec::new();
        let mut i: usize = 0;
        while i < segs.len()
            invariant
                sv == segs@.map_values(|s: String| s@),
                sv == search_segments(text@),
                i <= segs@.len(),
                strings_view(tokens@) == tokens_from(sv.subrange(0, i as int)),
            decreases segs@.len() - i,
        {
            let seg = segs[i].as_str();
            assert(sv.subrange(0, i + 1).drop_last() =~= sv.subrange(0, i as int));
            assert(sv.subrange(0, i + 1).last() == seg@);
            let ghost before = tokens@;
            if !is_blank(seg) {
                if seg.is_ascii() {
                    let lower = lowercase(seg);
                    tokens.push(stem_english(lower.as_str()));
                } else {
                    tokens.push(seg.to_owned());
                }
                assert(strings_view(tokens@) =~= strings_view(before).push(
                    normalize(seg@)->0,
                ));
            }
            i += 1;
        }
        assert(sv.subrange(0, i as int) =~= sv);
        tokens
    }

    /// The tokens of each text.
    pub fn tokenize(&self, x: &Vec<String>) -> (r: Vec<Vec<String>>)
        ensures
            r@.len() == x@.len(),
            forall|i: int| 0 <= i < x@.len() ==> strings_view(#[trigger] r@[i]@) == tokens_of(x@[i]@),
    {
        let mut out: Vec<Vec<String>> = Vec::new();
        let mut i: usize = 0;
        while i < x.len()
            invariant
                i <= x@.len(),
                out@.len() == i,
                forall|k: int| 0 <= k < i ==> strings_view(#[trigger] out@[k]@) == tokens_of(x@[k]@),
            decreases x@.len() - i,
        {
            out.push(self.tokenize_one(x[i].as_str()));
            i += 1;
        }
        out
    }

    /// Fits the vocabulary and the count matrix on a corpus.
    pub fn fit(&mut self, x: &Vec<String>)
        requires
            old(self).wf(),
            x@.len() > 0,
        ensures
            final(self).wf(),
            final(self).spec_vocab()@ == vocabulary_of(tokenized(x@)),
            counts_tokens(final(self).spec_data(), final(self).spec_vocab()@, tokenized(x@)),
    {
        let toks = self.tokenize(x);
        let ghost docs = tokenized(x@);
        self.vocab = Vocabulary::new();
        let mut d: usize = 0;
        while d < toks.len()
            invariant
                toks@.len() == x@.len(),
                docs == tokenized(x@),
                forall|i: int| 0 <= i < x@.len() ==> strings_view(#[trigger] toks@[i]@) == tokens_of(x@[i]@),
                d <= toks@.len(),
                self.vocab.wf(),
                self.vocab@ == vocabulary_of(docs.subrange(0, d as int)),
            decreases toks@.len() - d,
        {
            let doc = &toks[d];
            assert(strings_view(doc@) == docs[d as int]);
            let ghost start = self.vocab@;
            let mut k: usize = 0;
            while k < doc.len()
                invariant
                    strings_view(doc@) == docs[d as int],
                    k <= doc@.len(),
                    self.vocab.wf(),
                    self.vocab@ == add_all(start, docs[d as int].subrange(0, k as int)),
                decreases doc@.len() - k,
            {
                self.vocab.insert(doc[k].as_str());
                assert(docs[d as int].subrange(0, k + 1).drop_last() =~= docs[d as int].subrange(
                    0,
                    k as int,
                ));
                k += 1;
            }
            assert(docs[d as int].subrange(0, k as int) =~= docs[d as int]);
            assert(docs.subrange(0, d + 1).drop_last() =~= docs.subrange(0, d as int));
            d += 1;
        }
        assert(docs.subrange(0, d as int) =~= docs);
        self.data = self.count(&toks);
    }

    /// Count vectors of `inputs` over the fitted vocabulary; unknown tokens are dropped.
    pub fn transform(&self, inputs: &Vec<String>) -> (r: CsrMatrix<usize>)
        requires
            self.wf(),
            inputs@.len() > 0,
        ensures
            counts_tokens(r, self.spec_vocab()@, tokenized(inputs@)),
    {
        let toks = self.tokenize(inputs);
        let r = self.count(&toks);
        assert(toks@.map_values(|t: Vec<String>| strings_view(t@)) =~= tokenized(inputs@));
        r
    }

    /// One count vector per tokenized document.
    fn count(&self, docs: &Vec<Vec<String>>) -> (r: CsrMatrix<usize>)
        requires
            self.vocab.wf(),
            docs@.len() > 0,
        ensures
            counts_tokens(r, self.vocab@, docs@.map_values(|t: Vec<String>| strings_view(t@))),
    {
        let ghost dv = docs@.map_values(|t: Vec<String>| strings_view(t@));
        let n = self.vocab.len();
        let mut vecs: Vec<SparseVec<usize>> = Vec::new();
        let mut d: usize = 0;
        while d < docs.len()
            invariant
                self.vocab.wf(),
                n == self.vocab@.len(),
                dv == docs@.map_values(|t: Vec<String>| strings_view(t@)),
                d <= docs@.len(),
                vecs@.len() == d,
                forall|i: int| 0 <= i < d ==> (#[trigger] vecs@[i]).wf() && vecs@[i].dim == n,
                forall|i: int|
                    0 <= i < d ==> is_histogram(
                        (#[trigger] vecs@[i]).indices@,
                        vecs@[i].data@,
                        known_ids(self.vocab@, dv[i]),
                    ),
            decreases docs@.len() - d,
        {
            let doc = &docs[d];
            let ghost toks = dv[d as int];
            assert(toks == strings_view(doc@));
            let mut ids: Vec<usize> = Vec::new();
            let mut k: usize = 0;
            while k < doc.len()
                invariant
                    self.vocab.wf(),
                    n == self.vocab@.len(),
                    toks == strings_view(doc@),
                    k <= doc@.len(),
                    ids@ == known_ids(self.vocab@, toks.subrange(0, k as int)),
                    bounded_by(ids@, n as int),
                decreases doc@.len() - k,
            {
                let found = self.vocab.id(doc[k].as_str());
                assert(toks.subrange(0, k + 1).drop_last() =~= toks.subrange(0, k as int));
                assert(toks.subrange(0, k + 1).last() == doc@[k as int]@);
                proof {
                    crate::vocabulary::lemma_ids_are_positions(self.vocab);
                }
                match found {
                    Some(i) => {
                        assert(id_of(self.vocab@, doc@[k as int]@) is Some);
                        ids.push(i);
                    },
                    None => {},
                }
                k += 1;
            }
            assert(toks.subrange(0, k as int) =~= toks);
            let ghost unsorted = ids@;
            sort_ids(&mut ids);
            proof {
                broadcast use vstd::seq_lib::group_to_multiset_ensures;

                assert forall|q: int| 0 <= q < ids@.len() implies ids@[q] < n by {
                    assert(ids@.contains(ids@[q]));
                    assert(ids@.to_multiset().count(ids@[q]) > 0);
                    assert(unsorted.contains(ids@[q]));
                }
            }
            let v = cs_vec_count(n, &ids);
            proof {
                lemma_histogram_permuted(v.indices@, v.data@, ids@, unsorted);
            }
            vecs.push(v);
            d += 1;
        }
        let m = cs_mat_from_cs_vecs(&vecs);
        assert forall|i: int| 0 <= i < dv.len() implies is_histogram(
            #[trigger] m.row_indices(i),
            m.row_data(i),
            known_ids(self.vocab@, dv[i]),
        ) by {
            assert(m.row_view(i) == vecs@[i]@);
        }
        m
    }
}

/// Two lists that count the same elements are the same lists.
proof fn lemma_histogram_unique(
    ix1: Seq<usize>,
    c1: Seq<usize>,
    ix2: Seq<usize>,
    c2: Seq<usize>,
    elems: Seq<usize>,
)
    requires
        is_histogram(ix1, c1, elems),
        is_histogram(ix2, c2, elems),
    ensures
        ix1 == ix2,
        c1 == c2,
{
    crate::sparse::lemma_increasing_same_elements(ix1, ix2);
    assert(c1 =~= c2);
}

proof fn lemma_pointers_equal(m1: CsrMatrix<usize>, m2: CsrMatrix<usize>, n: int)
    requires
        m1.wf(),
        m2.wf(),
        m1.rows == m2.rows,
        0 <= n <= m1.rows,
        forall|r: int| 0 <= r < m1.rows ==> #[trigger] m1.row_indices(r) == m2.row_indices(r),
    ensures
        m1.indptr@[n] == m2.indptr@[n],
    decreases n,
{
    if n > 0 {
        lemma_pointers_equal(m1, m2, n - 1);
        assert(m1.row_indices(n - 1) == m2.row_indices(n - 1));
        assert(m1.indptr@[n - 1] <= m1.indptr@[n]);
        assert(m2.indptr@[n - 1] <= m2.indptr@[n]);
        assert(m1.row_indices(n - 1).len() == m1.indptr@[n] - m1.indptr@[n - 1]);
    }
}

/// Counting the same documents over the same vocabulary always gives the
/// same matrix: `transform` is deterministic.
pub proof fn lemma_counts_determined(
    m1: CsrMatrix<usize>,
    m2: CsrMatrix<usize>,
    words: Seq<Seq<char>>,
    docs: Seq<Seq<Seq<char>>>,
)
    requires
        counts_tokens(m1, words, docs),
        counts_tokens(m2, words, docs),
    ensures
        m1.rows == m2.rows,
        m1.cols == m2.cols,
        m1.indptr@ == m2.indptr@,
        m1.indices@ == m2.indices@,
        m1.data@ == m2.data@,
{
    assert forall|r: int| 0 <= r < m1.rows implies #[trigger] m1.row_indices(r) == m2.row_indices(r)
        && m1.row_data(r) == m2.row_data(r) by {
        lemma_histogram_unique(
            m1.row_indices(r),
            m1.row_data(r),
            m2.row_indices(r),
            m2.row_data(r),
            known_ids(words, docs[r]),
        );
    }
    assert forall|n: int| 0 <= n <= m1.rows implies m1.indptr@[n] == m2.indptr@[n] by {
        lemma_pointers_equal(m1, m2, n);
    }
    assert(m1.indptr@ =~= m2.indptr@);
    assert forall|k: int| 0 <= k < m1.indices@.len() implies m1.indices@[k] == m2.indices@[k]
        && m1.data@[k] == m2.data@[k] by {
        crate::sparse::lemma_row_of_entry(&m1, k, 0);
        let r = choose|r: int| 0 <= r < m1.rows && #[trigger] m1.indptr@[r] <= k < m1.indptr@[r + 1];
        assert(m1.row_indices(r) == m2.row_indices(r));
        assert(m1.row_data(r) == m2.row_data(r));
        assert(m1.row_indices(r)[k - m1.indptr@[r]] == m1.indices@[k]);
        assert(m2.row_indices(r)[k - m1.indptr@[r]] == m2.indices@[k]);
        assert(m1.row_data(r)[k - m1.indptr@[r]] == m1.data@[k]);
        assert(m2.row_data(r)[k - m1.indptr@[r]] == m2.data@[k]);
    }
    assert(m1.indices@ =~= m2.indices@);
    assert(m1.data@ =~= m2.data@);
}

} // verus!
