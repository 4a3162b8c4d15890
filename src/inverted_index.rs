use vstd::prelude::*;
use crate::sparse::{
    CsrMatrix, SparseVec, all_true, cs_mat_from_cs_vecs, intersection, strictly_increasing,
};

verus! {

/// The positions of `ix` whose value in `vals` is positive, in order.
pub open spec fn positive_positions(ix: Seq<usize>, vals: Seq<usize>) -> Seq<usize>
    decreases ix.len(),
{
    if ix.len() == 0 || vals.len() == 0 {
        Seq::empty()
    } else {
        let p = positive_positions(ix.drop_last(), vals.drop_last());
        if vals.last() > 0 {
            p.push(ix.last())
        } else {
            p
        }
    }
}

/// Whether document `d` of a count matrix holds a positive count of term `t`.
pub open spec fn has_term(x: CsrMatrix<usize>, d: int, t: usize) -> bool {
    positive_positions(x.row_indices(d), x.row_data(d)).contains(t)
}

proof fn lemma_positive_positions(ix: Seq<usize>, vals: Seq<usize>)
    requires
        ix.len() == vals.len(),
    ensures
        positive_positions(ix, vals).len() <= ix.len(),
        forall|x: usize|
            #[trigger] positive_positions(ix, vals).contains(x) ==> ix.contains(x),
        strictly_increasing(ix) ==> strictly_increasing(positive_positions(ix, vals)),
    decreases ix.len(),
{
    if ix.len() > 0 {
        let pi = ix.drop_last();
        let pv = vals.drop_last();
        lemma_positive_positions(pi, pv);
        let p = positive_positions(pi, pv);
        assert forall|x: usize| #[trigger] positive_positions(ix, vals).contains(x) implies ix.contains(x) by {
            if p.contains(x) {
                let k = choose|k: int| 0 <= k < pi.len() && pi[k] == x;
                assert(ix[k] == x);
            } else {
                assert(ix[ix.len() - 1] == x);
            }
        }
        if strictly_increasing(ix) && vals.last() > 0 {
            assert forall|i: int, j: int| 0 <= i < j < p.len() + 1 implies p.push(ix.last())[i] < p.push(
                ix.last(),
            )[j] by {
                if j == p.len() {
                    assert(p.contains(p[i]));
                    let k = choose|k: int| 0 <= k < pi.len() && pi[k] == p[i];
                    assert(ix[k] < ix[ix.len() - 1]);
                }
            }
        }
    }
}

/// Maps a count vector to the positions holding a positive count, all marked `true`.
pub(crate) fn positive_part(v: &SparseVec<usize>) -> (r: SparseVec<bool>)
    requires
        v.wf(),
    ensures
        r.wf(),
        r.dim == v.dim,
        r.indices@ == positive_positions(v.indices@, v.data@),
        all_true(r.data@),
{
    let mut indices: Vec<usize> = Vec::new();
    let mut data: Vec<bool> = Vec::new();
    let mut k: usize = 0;
    while k < v.indices.len()
        invariant
            v.wf(),
            k <= v.indices@.len(),
            indices@ == positive_positions(
                v.indices@.subrange(0, k as int),
                v.data@.subrange(0, k as int),
            ),
            data@.len() == indices@.len(),
            all_true(data@),
        decreases v.indices@.len() - k,
    {
        assert(v.indices@.subrange(0, k + 1).drop_last() =~= v.indices@.subrange(0, k as int));
        assert(v.data@.subrange(0, k + 1).drop_last() =~= v.data@.subrange(0, k as int));
        if v.data[k] > 0 {
            indices.push(v.indices[k]);
            data.push(true);
        }
        k += 1;
    }
    assert(v.indices@.subrange(0, k as int) =~= v.indices@);
    assert(v.data@.subrange(0, k as int) =~= v.data@);
    proof {
        lemma_positive_positions(v.indices@, v.data@);
        assert forall|i: int| 0 <= i < indices@.len() implies indices@[i] < v.dim by {
            assert(positive_positions(v.indices@, v.data@).contains(indices@[i]));
            let q = choose|q: int| 0 <= q < v.indices@.len() && v.indices@[q] == indices@[i];
        }
    }
    SparseVec { dim: v.dim, indices, data }
}

/// Relies on sprs: `CsMat::new` accepts a well-formed matrix whose last row
/// pointer is at most `usize::MAX / 2`; `transpose_into` swaps the shape and
/// the storage order; `into_csr` converts back to row storage, filling each
/// row in ascending order of the old row index and copying the values.
#[verifier::external_body]
fn transpose(m: &CsrMatrix<bool>) -> (t: CsrMatrix<bool>)
    requires
        m.wf(),
        m.indices@.len() <= usize::MAX / 2,
    ensures
        t.wf(),
        t.rows == m.cols,
        t.cols == m.rows,
        forall|c: int, r: int|
            0 <= c < m.cols && 0 <= r < m.rows ==> (#[trigger] t.row_indices(c).contains(
                r as usize,
            ) <==> #[trigger] m.row_indices(r).contains(c as usize)),
        all_true(m.data@) ==> all_true(t.data@),
{
    let s = sprs::CsMat::new(
        (m.rows, m.cols),
        m.indptr.clone(),
        m.indices.clone(),
        m.data.clone(),
    );
    let t = s.transpose_into().into_csr();
    let (rows, cols) = t.shape();
    let (indptr, indices, data) = t.into_raw_storage();
    CsrMatrix { rows, cols, indptr, indices, data }
}

/// Boolean posting lists: row `t` lists, ascending, the documents holding term `t`.
pub struct InvertedIndex {
    data: CsrMatrix<bool>,
}

impl InvertedIndex {
    /// The posting lists, one row per term.
    pub closed spec fn postings(&self) -> CsrMatrix<bool> {
        self.data
    }

    pub open spec fn wf(&self) -> bool {
        &&& self.postings().wf()
        &&& all_true(self.postings().data@)
    }

    /// The posting list of term `t`.
    pub open spec fn posting(&self, t: int) -> Seq<usize> {
        self.postings().row_indices(t)
    }

    /// The number of terms.
    pub fn terms(&self) -> (r: usize)
        ensures
            r == self.postings().rows,
    {
        self.data.rows
    }

    /// The number of documents.
    pub fn docs(&self) -> (r: usize)
        ensures
            r == self.postings().cols,
    {
        self.data.cols
    }

    /// Builds the posting lists of a document-term count matrix.
    pub fn build(x: &CsrMatrix<usize>) -> (r: InvertedIndex)
        requires
            x.wf(),
            x.indices@.len() <= usize::MAX / 2,
        ensures
            r.wf(),
            r.postings().rows == x.cols,
            r.postings().cols == x.rows,
            forall|t: int, d: int|
                0 <= t < x.cols && 0 <= d < x.rows ==> (#[trigger] r.posting(t).contains(d as usize)
                    <==> has_term(*x, d, t as usize)),
    {
        let mut vecs: Vec<SparseVec<bool>> = Vec::new();
        let mut d: usize = 0;
        while d < x.rows
            invariant
                x.wf(),
                d <= x.rows,
                vecs@.len() == d,
                forall|i: int|
                    0 <= i < d ==> (#[trigger] vecs@[i]).wf() && vecs@[i].dim == x.cols
                        && all_true(vecs@[i].data@) && vecs@[i].indices@ == positive_positions(
                        x.row_indices(i),
                        x.row_data(i),
                    ),
            decreases x.rows - d,
        {
            let row = x.outer_view(d);
            vecs.push(positive_part(&row));
            d += 1;
        }
        let presence = if x.rows == 0 {
            let mut indptr: Vec<usize> = Vec::new();
            indptr.push(0);
            CsrMatrix { rows: 0, cols: x.cols, indptr, indices: Vec::new(), data: Vec::new() }
        } else {
            cs_mat_from_cs_vecs(&vecs)
        };
        proof {
            assert forall|i: int| 0 <= i < x.rows implies presence.row_indices(i)
                == positive_positions(x.row_indices(i), x.row_data(i)) && presence.indptr@[i + 1]
                - presence.indptr@[i] <= x.indptr@[i + 1] - x.indptr@[i] by {
                assert(presence.row_view(i) == vecs@[i]@);
                assert(x.indptr@[i] <= x.indptr@[i + 1]);
                assert(presence.indptr@[i] <= presence.indptr@[i + 1]);
                lemma_positive_positions(x.row_indices(i), x.row_data(i));
            }
            assert forall|i: int| 0 <= i < x.rows implies #[trigger] presence.indptr@[i + 1]
                - presence.indptr@[i] <= x.indptr@[i + 1] - x.indptr@[i] by {
                assert(presence.row_view(i) == vecs@[i]@);
                assert(x.indptr@[i] <= x.indptr@[i + 1]);
                assert(presence.indptr@[i] <= presence.indptr@[i + 1]);
                lemma_positive_positions(x.row_indices(i), x.row_data(i));
            }
            lemma_pointer_dominated(&presence, x, x.rows as int);
            assert forall|k: int| 0 <= k < presence.data@.len() implies presence.data@[k] by {
                crate::sparse::lemma_row_of_entry(&presence, k, 0);
                let i = choose|i: int|
                    0 <= i < presence.rows && #[trigger] presence.indptr@[i] <= k < presence.indptr@[i + 1];
                assert(presence.row_view(i) == vecs@[i]@);
                assert(presence.row_data(i)[k - presence.indptr@[i]] == presence.data@[k]);
            }
        }
        let data = transpose(&presence);
        assert forall|t: int, d: int| 0 <= t < x.cols && 0 <= d < x.rows implies (#[trigger] data.row_indices(t).contains(d as usize)
            <==> has_term(*x, d, t as usize)) by {
            assert(data.row_indices(t).contains(d as usize) <==> presence.row_indices(d).contains(t as usize));
            assert(presence.row_indices(d) == positive_positions(x.row_indices(d), x.row_data(d)));
        }
        InvertedIndex { data }
    }

    /// The documents that hold every term with a positive count in `x`; none
    /// when `x` has no such term.
    pub fn search(&self, x: &SparseVec<usize>) -> (r: SparseVec<bool>)
        requires
            self.wf(),
            x.wf(),
            x.dim == self.postings().rows,
        ensures
            r.wf(),
            r.dim == self.postings().cols,
            all_true(r.data@),
            positive_positions(x.indices@, x.data@).len() == 0 ==> r.indices@.len() == 0,
            positive_positions(x.indices@, x.data@).len() > 0 ==> forall|d: usize|
                #[trigger] r.indices@.contains(d) <==> (d < self.postings().cols && forall|t: usize|
                    #[trigger] positive_positions(x.indices@, x.data@).contains(t) ==> self.posting(
                        t as int,
                    ).contains(d)),
    {
        let nd = self.data.cols;
        let mut found = false;
        let mut result: SparseVec<bool> = SparseVec { dim: nd, indices: Vec::new(), data: Vec::new() };
        let mut k: usize = 0;
        while k < x.indices.len()
            invariant
                self.wf(),
                x.wf(),
                x.dim == self.postings().rows,
                nd == self.postings().cols,
                k <= x.indices@.len(),
                result.wf(),
                result.dim == nd,
                all_true(result.data@),
                found == (positive_positions(
                    x.indices@.subrange(0, k as int),
                    x.data@.subrange(0, k as int),
                ).len() > 0),
                !found ==> result.indices@.len() == 0,
                found ==> forall|d: usize|
                    #[trigger] result.indices@.contains(d) <==> (d < nd && forall|t: usize|
                        #[trigger] positive_positions(
                            x.indices@.subrange(0, k as int),
                            x.data@.subrange(0, k as int),
                        ).contains(t) ==> self.posting(t as int).contains(d)),
            decreases x.indices@.len() - k,
        {
            let ghost pi = x.indices@.subrange(0, k as int);
            let ghost pv = x.data@.subrange(0, k as int);
            assert(x.indices@.subrange(0, k + 1).drop_last() =~= pi);
            assert(x.data@.subrange(0, k + 1).drop_last() =~= pv);
            let ghost before = positive_positions(pi, pv);
            let ghost after = positive_positions(
                x.indices@.subrange(0, k + 1),
                x.data@.subrange(0, k + 1),
            );
            let t = x.indices[k];
            if x.data[k] == 0 {
                // an explicitly stored zero never counts as a match
                assert(after == before);
            } else {
                assert(after == before.push(t));
                assert(t < x.dim);
                let docs = self.data.outer_view(t);
                proof {
                    assert forall|q: int| 0 <= q < docs.data@.len() implies docs.data@[q] by {
                        let s = self.data.indptr@[t as int];
                        assert(self.data.indptr@[t as int] <= self.data.indptr@[t + 1]);
                        assert(self.data.indptr@[t + 1] <= self.data.indptr@[self.data.rows as int]);
                        assert(docs.data@[q] == self.data.data@[s + q]);
                    }
                    assert forall|y: usize| after.contains(y) <==> (before.contains(y) || y == t) by {
                        if after.contains(y) && y != t {
                            let i = choose|i: int| 0 <= i < after.len() && after[i] == y;
                            assert(before[i] == y);
                        }
                        if before.contains(y) {
                            let i = choose|i: int| 0 <= i < before.len() && before[i] == y;
                            assert(after[i] == y);
                        }
                        if y == t {
                            assert(after[before.len() as int] == t);
                        }
                    }
                }
                if found {
                    let ghost old_result = result;
                    result = intersection(&result, &docs);
                    proof {
                        assert forall|d: usize| #[trigger] result.indices@.contains(d) <==> (d < nd && forall|u: usize|
                            #[trigger] after.contains(u) ==> self.posting(u as int).contains(d)) by {
                            assert(result.indices@.contains(d) <==> (old_result.indices@.contains(d) && docs.indices@.contains(d)));
                            assert(docs.indices@ == self.posting(t as int));
                            if (d < nd && forall|u: usize| #[trigger] after.contains(u) ==> self.posting(u as int).contains(d)) {
                                assert(after.contains(t));
                                assert forall|u: usize| #[trigger] before.contains(u) implies self.posting(u as int).contains(d) by {
                                    assert(after.contains(u));
                                }
                            }
                        }
                    }
                } else {
                    result = docs;
                    proof {
                        assert(before.len() == 0);
                        assert forall|y: usize| after.contains(y) <==> y == t by {
                            if after.contains(y) {
                                let i = choose|i: int| 0 <= i < after.len() && after[i] == y;
                            }
                            if y == t {
                                assert(after[0] == t);
                            }
                        }
                        assert forall|d: usize| #[trigger] result.indices@.contains(d) implies d < nd by {
                            let i = choose|i: int| 0 <= i < result.indices@.len() && result.indices@[i] == d;
                        }
                        assert(docs.indices@ == self.posting(t as int));
                        assert forall|d: usize| #[trigger] result.indices@.contains(d) <==> (d < nd && forall|u: usize|
                            #[trigger] after.contains(u) ==> self.posting(u as int).contains(d)) by {
                            if (d < nd && forall|u: usize| #[trigger] after.contains(u) ==> self.posting(u as int).contains(d)) {
                                assert(after.contains(t));
                            }
                        }
                    }
                }
                found = true;
            }
            k += 1;
        }
        assert(x.indices@.subrange(0, k as int) =~= x.indices@);
        assert(x.data@.subrange(0, k as int) =~= x.data@);
        result
    }
}

proof fn lemma_pointer_dominated(p: &CsrMatrix<bool>, x: &CsrMatrix<usize>, n: int)
    requires
        p.wf(),
        x.wf(),
        p.rows == x.rows,
        0 <= n <= x.rows,
        forall|i: int|
            0 <= i < x.rows ==> #[trigger] p.indptr@[i + 1] - p.indptr@[i] <= x.indptr@[i + 1]
                - x.indptr@[i],
    ensures
        p.indptr@[n] <= x.indptr@[n],
    decreases n,
{
    if n > 0 {
        lemma_pointer_dominated(p, x, n - 1);
        assert(p.indptr@[(n - 1) + 1] - p.indptr@[n - 1] <= x.indptr@[(n - 1) + 1] - x.indptr@[n - 1]);
    }
}

} // verus!
