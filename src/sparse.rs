use vstd::prelude::*;

verus! {

/// Each element is smaller than every later one.
pub open spec fn strictly_increasing(s: Seq<usize>) -> bool {
    forall|i: int, j: int| 0 <= i < j < s.len() ==> s[i] < s[j]
}

/// No element is larger than a later one.
pub open spec fn nondecreasing(s: Seq<usize>) -> bool {
    forall|i: int, j: int| 0 <= i <= j < s.len() ==> s[i] <= s[j]
}

/// Every element is below `n`.
pub open spec fn bounded_by(s: Seq<usize>, n: int) -> bool {
    forall|i: int| 0 <= i < s.len() ==> s[i] < n
}

/// Every element is `true`.
pub open spec fn all_true(s: Seq<bool>) -> bool {
    forall|i: int| 0 <= i < s.len() ==> s[i]
}

/// The elements of `a` that also occur in `b`, in the order of `a`.
pub open spec fn common(a: Seq<usize>, b: Seq<usize>) -> Seq<usize>
    decreases a.len(),
{
    if a.len() == 0 {
        Seq::empty()
    } else {
        let p = common(a.drop_last(), b);
        if b.contains(a.last()) {
            p.push(a.last())
        } else {
            p
        }
    }
}

/// `indices` lists each distinct value of `elems` once, ascending, and
/// `counts[k]` is how often `indices[k]` occurs in `elems`.
pub open spec fn is_histogram(indices: Seq<usize>, counts: Seq<usize>, elems: Seq<usize>) -> bool {
    &&& strictly_increasing(indices)
    &&& indices.len() == counts.len()
    &&& forall|v: usize| indices.contains(v) <==> elems.contains(v)
    &&& forall|k: int|
        0 <= k < indices.len() ==> counts[k] == elems.to_multiset().count(indices[k])
}

/// The mathematical content of a sparse vector.
pub struct SparseView<T> {
    pub dim: nat,
    pub indices: Seq<usize>,
    pub data: Seq<T>,
}

/// A sparse vector of dimension `dim`: `data[k]` is stored at position `indices[k]`.
pub struct SparseVec<T> {
    pub dim: usize,
    pub indices: Vec<usize>,
    pub data: Vec<T>,
}

impl<T> View for SparseVec<T> {
    type V = SparseView<T>;

    open spec fn view(&self) -> SparseView<T> {
        SparseView { dim: self.dim as nat, indices: self.indices@, data: self.data@ }
    }
}

impl<T> SparseVec<T> {
    /// Positions ascending without repeats, all below the dimension, one value each.
    pub open spec fn wf(&self) -> bool {
        &&& self.indices@.len() == self.data@.len()
        &&& strictly_increasing(self.indices@)
        &&& bounded_by(self.indices@, self.dim as int)
    }

    pub fn new(dim: usize, indices: Vec<usize>, data: Vec<T>) -> (r: Self)
        requires
            indices@.len() == data@.len(),
            strictly_increasing(indices@),
            bounded_by(indices@, dim as int),
        ensures
            r.wf(),
            r.dim == dim,
            r.indices@ == indices@,
            r.data@ == data@,
    {
        SparseVec { dim, indices, data }
    }

    /// The number of stored entries.
    pub fn nnz(&self) -> (r: usize)
        ensures
            r == self.indices@.len(),
    {
        self.indices.len()
    }
}

/// The result of intersecting two posting lists.
pub open spec fn intersection_view(a: SparseView<bool>, b: SparseView<bool>) -> SparseView<bool> {
    let ix = common(a.indices, b.indices);
    SparseView { dim: a.dim, indices: ix, data: Seq::new(ix.len(), |i: int| true) }
}

/// A compressed-sparse-row matrix: row `r` holds the entries
/// `indices[k]`, `data[k]` for `indptr[r] <= k < indptr[r + 1]`.
pub struct CsrMatrix<T> {
    pub rows: usize,
    pub cols: usize,
    pub indptr: Vec<usize>,
    pub indices: Vec<usize>,
    pub data: Vec<T>,
}

impl<T> CsrMatrix<T> {
    pub open spec fn wf(&self) -> bool {
        &&& self.indptr@.len() == self.rows + 1
        &&& self.indptr@[0] == 0
        &&& self.indptr@[self.rows as int] == self.indices@.len()
        &&& self.indices@.len() == self.data@.len()
        &&& forall|i: int, j: int|
            0 <= i <= j <= self.rows ==> self.indptr@[i] <= self.indptr@[j]
        &&& forall|r: int|
            0 <= r < self.rows ==> strictly_increasing(#[trigger] self.row_indices(r))
        &&& forall|r: int|
            0 <= r < self.rows ==> bounded_by(#[trigger] self.row_indices(r), self.cols as int)
    }

    /// The column positions stored in row `r`.
    pub open spec fn row_indices(&self, r: int) -> Seq<usize> {
        self.indices@.subrange(self.indptr@[r] as int, self.indptr@[r + 1] as int)
    }

    /// The values stored in row `r`.
    pub open spec fn row_data(&self, r: int) -> Seq<T> {
        self.data@.subrange(self.indptr@[r] as int, self.indptr@[r + 1] as int)
    }

    /// The rows as sparse vectors.
    pub open spec fn row_view(&self, r: int) -> SparseView<T> {
        SparseView { dim: self.cols as nat, indices: self.row_indices(r), data: self.row_data(r) }
    }

    /// The matrix with no rows and no columns.
    pub fn zero() -> (r: Self)
        ensures
            r.wf(),
            r.rows == 0,
            r.cols == 0,
    {
        let mut indptr: Vec<usize> = Vec::new();
        indptr.push(0);
        CsrMatrix { rows: 0, cols: 0, indptr, indices: Vec::new(), data: Vec::new() }
    }

    /// The number of stored entries.
    pub fn nnz(&self) -> (r: usize)
        ensures
            r == self.indices@.len(),
    {
        self.indices.len()
    }
}

impl<T: Copy> CsrMatrix<T> {
    /// Row `r` as a sparse vector of dimension `cols`.
    pub fn outer_view(&self, r: usize) -> (v: SparseVec<T>)
        requires
            self.wf(),
            r < self.rows,
        ensures
            v.wf(),
            v@ == self.row_view(r as int),
    {
        let start = self.indptr[r];
        let end = self.indptr[r + 1];
        assert(self.indptr@[r as int] <= self.indptr@[r + 1]);
        let mut indices: Vec<usize> = Vec::new();
        let mut data: Vec<T> = Vec::new();
        let mut k: usize = start;
        while k < end
            invariant
                self.wf(),
                r < self.rows,
                start == self.indptr@[r as int],
                end == self.indptr@[r + 1],
                start <= k <= end,
                end <= self.indices@.len(),
                indices@ == self.indices@.subrange(start as int, k as int),
                data@ == self.data@.subrange(start as int, k as int),
            decreases end - k,
        {
            indices.push(self.indices[k]);
            data.push(self.data[k]);
            k += 1;
            assert(indices@ =~= self.indices@.subrange(start as int, k as int));
            assert(data@ =~= self.data@.subrange(start as int, k as int));
        }
        let v = SparseVec { dim: self.cols, indices, data };
        assert(strictly_increasing(self.row_indices(r as int)));
        assert(bounded_by(self.row_indices(r as int), self.cols as int));
        v
    }
}

/// Collapses a sorted list of positions, possibly repeating, into a vector of
/// counts: each distinct position once, ascending, with how often it occurs.
pub fn cs_vec_count(n: usize, elems: &Vec<usize>) -> (r: SparseVec<usize>)
    requires
        bounded_by(elems@, n as int),
        nondecreasing(elems@),
    ensures
        r.wf(),
        r.dim == n,
        is_histogram(r.indices@, r.data@, elems@),
{
    broadcast use vstd::seq_lib::group_to_multiset_ensures;

    let mut indices: Vec<usize> = Vec::new();
    let mut data: Vec<usize> = Vec::new();
    let mut i: usize = 0;
    while i < elems.len()
        invariant
            0 <= i <= elems@.len(),
            bounded_by(elems@, n as int),
            nondecreasing(elems@),
            indices@.len() == data@.len(),
            strictly_increasing(indices@),
            bounded_by(indices@, n as int),
            forall|v: usize| indices@.contains(v) <==> elems@.subrange(0, i as int).contains(v),
            forall|k: int|
                0 <= k < indices@.len() ==> data@[k] == elems@.subrange(
                    0,
                    i as int,
                ).to_multiset().count(indices@[k]),
            forall|k: int| 0 <= k < data@.len() ==> data@[k] <= i,
            i > 0 ==> indices@.len() > 0 && indices@.last() == elems@[i - 1],
            i == 0 ==> indices@.len() == 0,
        decreases elems@.len() - i,
    {
        let e = elems[i];
        let ghost prefix = elems@.subrange(0, i as int);
        let ghost old_indices = indices@;
        let ghost old_data = data@;
        assert(forall|v: usize| old_indices.contains(v) <==> prefix.contains(v));
        assert(elems@.subrange(0, i + 1) =~= prefix.push(e));
        proof {
            prefix.to_multiset_ensures();
        }
        assert(prefix.push(e).to_multiset() =~= prefix.to_multiset().insert(e));
        if indices.len() > 0 && indices[indices.len() - 1] == e {
            let last = data.len() - 1;
            let c = data[last];
            data.set(last, c + 1);
            assert forall|k: int| 0 <= k < indices@.len() implies data@[k] == prefix.push(
                e,
            ).to_multiset().count(indices@[k]) by {
                if k < last {
                    assert(indices@[k] < indices@[last as int]);
                }
            }
            assert forall|v: usize| indices@.contains(v) <==> prefix.push(e).contains(v) by {
                if prefix.push(e).contains(v) && v == e {
                    assert(indices@[last as int] == v);
                }
                if indices@.contains(v) {
                    assert(prefix.contains(v));
                    let q = choose|q: int| 0 <= q < prefix.len() && prefix[q] == v;
                    assert(prefix.push(e)[q] == v);
                }
            }
        } else {
            if i > 0 {
                assert(elems@[i - 1] <= e);
            }
            assert(!prefix.contains(e)) by {
                if prefix.contains(e) {
                    let q = choose|q: int| 0 <= q < prefix.len() && prefix[q] == e;
                    assert(elems@[q] <= elems@[i - 1]);
                }
            }
            indices.push(e);
            data.push(1);
            assert forall|p: int, q: int| 0 <= p < q < indices@.len() implies indices@[p]
                < indices@[q] by {
                if q == indices@.len() - 1 && p < q {
                    assert(old_indices.contains(old_indices[p]));
                    assert(prefix.contains(old_indices[p]));
                    let w = choose|w: int| 0 <= w < prefix.len() && prefix[w] == old_indices[p];
                    assert(elems@[w] <= elems@[i - 1]);
                }
            }
            assert forall|k: int| 0 <= k < indices@.len() implies data@[k] == prefix.push(
                e,
            ).to_multiset().count(indices@[k]) by {
                if k < old_indices.len() {
                    assert(old_indices.contains(old_indices[k]));
                    assert(indices@[k] != e);
                }
            }
            assert forall|v: usize| indices@.contains(v) <==> prefix.push(e).contains(v) by {
                if v == e {
                    assert(indices@[old_indices.len() as int] == e);
                    assert(prefix.push(e)[i as int] == e);
                } else {
                    if indices@.contains(v) {
                        let q = choose|q: int| 0 <= q < indices@.len() && indices@[q] == v;
                        assert(old_indices[q] == v);
                        assert(old_indices.contains(v));
                        let w = choose|w: int| 0 <= w < prefix.len() && prefix[w] == v;
                        assert(prefix.push(e)[w] == v);
                    }
                    if prefix.push(e).contains(v) {
                        let w = choose|w: int| 0 <= w < prefix.len() + 1 && prefix.push(e)[w] == v;
                        assert(prefix[w] == v);
                        assert(prefix.contains(v));
                        let q = choose|q: int| 0 <= q < old_indices.len() && old_indices[q] == v;
                        assert(indices@[q] == v);
                    }
                }
            }
        }
        i += 1;
    }
    assert(elems@.subrange(0, i as int) =~= elems@);
    SparseVec { dim: n, indices, data }
}

/// An element lies in `common(a, b)` exactly when it lies in both `a` and `b`.
pub proof fn lemma_common_contains(a: Seq<usize>, b: Seq<usize>)
    ensures
        forall|x: usize| #[trigger] common(a, b).contains(x) <==> (a.contains(x) && b.contains(x)),
    decreases a.len(),
{
    if a.len() > 0 {
        let p = a.drop_last();
        lemma_common_contains(p, b);
        let c = common(p, b);
        assert forall|x: usize| #[trigger] common(a, b).contains(x) <==> (a.contains(x) && b.contains(x)) by {
            assert(a.contains(x) <==> (p.contains(x) || x == a.last())) by {
                if a.contains(x) && x != a.last() {
                    let i = choose|i: int| 0 <= i < a.len() && a[i] == x;
                    assert(p[i] == x);
                }
                if p.contains(x) {
                    let i = choose|i: int| 0 <= i < p.len() && p[i] == x;
                    assert(a[i] == x);
                }
                if x == a.last() {
                    assert(a[a.len() - 1] == x);
                }
            }
            if b.contains(a.last()) {
                assert(common(a, b) == c.push(a.last()));
                assert(c.push(a.last())[c.len() as int] == a.last());
                assert(c.push(a.last()).contains(x) <==> (c.contains(x) || x == a.last())) by {
                    if c.contains(x) {
                        let i = choose|i: int| 0 <= i < c.len() && c[i] == x;
                        assert(c.push(a.last())[i] == x);
                    }
                    if c.push(a.last()).contains(x) && x != a.last() {
                        let i = choose|i: int| 0 <= i < c.len() + 1 && c.push(a.last())[i] == x;
                        assert(c[i] == x);
                    }
                }
            } else {
                assert(common(a, b) == c);
            }
        }
    }
}

/// `common(a, b)` keeps the ascending order of `a`.
pub proof fn lemma_common_increasing(a: Seq<usize>, b: Seq<usize>)
    requires
        strictly_increasing(a),
    ensures
        strictly_increasing(common(a, b)),
    decreases a.len(),
{
    if a.len() > 0 {
        let p = a.drop_last();
        lemma_common_increasing(p, b);
        lemma_common_contains(p, b);
        let c = common(p, b);
        if b.contains(a.last()) {
            assert forall|i: int, j: int| 0 <= i < j < c.len() + 1 implies c.push(a.last())[i] < c.push(
                a.last(),
            )[j] by {
                if j == c.len() {
                    assert(c.contains(c[i]));
                    let k = choose|k: int| 0 <= k < p.len() && p[k] == c[i];
                    assert(a[k] < a[a.len() - 1]);
                }
            }
        }
    }
}

/// Two ascending lists with the same elements are the same list.
pub proof fn lemma_increasing_same_elements(a: Seq<usize>, b: Seq<usize>)
    requires
        strictly_increasing(a),
        strictly_increasing(b),
        forall|x: usize| a.contains(x) <==> b.contains(x),
    ensures
        a == b,
    decreases a.len(),
{
    if a.len() == 0 {
        if b.len() > 0 {
            assert(b.contains(b[0]));
        }
        assert(a =~= b);
    } else {
        assert(a.contains(a[0]));
        assert(b.contains(b[0]));
        let i = choose|i: int| 0 <= i < b.len() && b[i] == a[0];
        let j = choose|j: int| 0 <= j < a.len() && a[j] == b[0];
        assert(a[0] == b[0]) by {
            if i > 0 {
                assert(b[0] < b[i]);
            }
            if j > 0 {
                assert(a[0] < a[j]);
            }
        }
        let ta = a.drop_first();
        let tb = b.drop_first();
        assert forall|x: usize| ta.contains(x) <==> tb.contains(x) by {
            if ta.contains(x) {
                let k = choose|k: int| 0 <= k < ta.len() && ta[k] == x;
                assert(a[k + 1] == x && a[0] < a[k + 1]);
                assert(a.contains(x));
                let m = choose|m: int| 0 <= m < b.len() && b[m] == x;
                assert(m != 0);
                assert(tb[m - 1] == x);
            }
            if tb.contains(x) {
                let k = choose|k: int| 0 <= k < tb.len() && tb[k] == x;
                assert(b[k + 1] == x && b[0] < b[k + 1]);
                assert(b.contains(x));
                let m = choose|m: int| 0 <= m < a.len() && a[m] == x;
                assert(m != 0);
                assert(ta[m - 1] == x);
            }
        }
        lemma_increasing_same_elements(ta, tb);
        assert(a =~= seq![a[0]] + ta);
        assert(b =~= seq![b[0]] + tb);
    }
}

proof fn lemma_common_skip(a: Seq<usize>, b: Seq<usize>, i: int, k: int)
    requires
        0 <= i <= k <= a.len(),
        forall|q: int| i <= q < a.len() ==> !b.contains(a[q]),
    ensures
        common(a.subrange(0, k), b) == common(a.subrange(0, i), b),
    decreases k - i,
{
    if k > i {
        lemma_common_skip(a, b, i, k - 1);
        assert(a.subrange(0, k).drop_last() =~= a.subrange(0, k - 1));
    }
}

/// Merge-intersects two posting lists: the positions present in both, all marked `true`.
pub fn intersection(v1: &SparseVec<bool>, v2: &SparseVec<bool>) -> (r: SparseVec<bool>)
    requires
        v1.wf(),
        v2.wf(),
    ensures
        r.wf(),
        r@ == intersection_view(v1@, v2@),
        forall|x: usize|
            #[trigger] r.indices@.contains(x) <==> (v1.indices@.contains(x) && v2.indices@.contains(x)),
{
    let ghost a = v1.indices@;
    let ghost b = v2.indices@;
    let n1 = v1.indices.len();
    let n2 = v2.indices.len();
    let mut result: Vec<usize> = Vec::new();
    let mut flags: Vec<bool> = Vec::new();
    let mut i: usize = 0;
    let mut j: usize = 0;
    while i < n1 && j < n2
        invariant
            v1.wf(),
            v2.wf(),
            a == v1.indices@,
            b == v2.indices@,
            n1 == a.len(),
            n2 == b.len(),
            i <= n1,
            j <= n2,
            result@ == common(a.subrange(0, i as int), b),
            flags@.len() == result@.len(),
            all_true(flags@),
            forall|p: int, q: int| 0 <= p < j && i <= q < n1 ==> b[p] < a[q],
            forall|p: int, q: int| 0 <= p < i && j <= q < n2 ==> a[p] < b[q],
        decreases n1 - i + n2 - j,
    {
        let t1 = v1.indices[i];
        let t2 = v2.indices[j];
        assert(a.subrange(0, i + 1).drop_last() =~= a.subrange(0, i as int));
        if t1 == t2 {
            assert(b[j as int] == t1);
            result.push(t1);
            flags.push(true);
            i += 1;
            j += 1;
        } else if t1 < t2 {
            assert forall|q: int| 0 <= q < n2 implies b[q] != t1 by {
                if q >= j {
                    if q > j {
                        assert(b[j as int] < b[q]);
                    }
                }
            }
            i += 1;
        } else {
            assert forall|q: int| 0 <= q < n1 && q > i implies a[q] != t2 by {
                assert(a[i as int] < a[q]);
            }
            j += 1;
        }
    }
    proof {
        if i < n1 {
            assert forall|q: int| i <= q < a.len() implies !b.contains(a[q]) by {
                if b.contains(a[q]) {
                    let p = choose|p: int| 0 <= p < b.len() && b[p] == a[q];
                }
            }
        }
        lemma_common_skip(a, b, i as int, n1 as int);
        assert(a.subrange(0, n1 as int) =~= a);
        lemma_common_contains(a, b);
        lemma_common_increasing(a, b);
        assert(flags@ =~= Seq::new(result@.len(), |k: int| true));
        assert forall|k: int| 0 <= k < result@.len() implies result@[k] < v1.dim by {
            assert(common(a, b).contains(result@[k]));
            let q = choose|q: int| 0 <= q < a.len() && a[q] == result@[k];
        }
    }
    SparseVec { dim: v1.dim, indices: result, data: flags }
}

/// Intersecting a posting list with itself gives it back.
pub proof fn lemma_intersection_idempotent(v: SparseVec<bool>)
    requires
        v.wf(),
        all_true(v.data@),
    ensures
        intersection_view(v@, v@) == v@,
{
    lemma_common_contains(v.indices@, v.indices@);
    lemma_common_increasing(v.indices@, v.indices@);
    lemma_increasing_same_elements(common(v.indices@, v.indices@), v.indices@);
    assert(intersection_view(v@, v@).data =~= v.data@);
}

/// Intersection does not depend on the order of its operands, and keeps
/// exactly the positions that both operands hold.
pub proof fn lemma_intersection_commutative(a: SparseVec<bool>, b: SparseVec<bool>)
    requires
        a.wf(),
        b.wf(),
        a.dim == b.dim,
    ensures
        intersection_view(a@, b@) == intersection_view(b@, a@),
        forall|x: usize|
            intersection_view(a@, b@).indices.contains(x) <==> (a.indices@.contains(x)
                && b.indices@.contains(x)),
{
    lemma_common_contains(a.indices@, b.indices@);
    lemma_common_contains(b.indices@, a.indices@);
    lemma_common_increasing(a.indices@, b.indices@);
    lemma_common_increasing(b.indices@, a.indices@);
    lemma_increasing_same_elements(common(a.indices@, b.indices@), common(b.indices@, a.indices@));
}

/// Stacks sparse vectors of one dimension as the rows of a matrix.
pub fn cs_mat_from_cs_vecs<T: Copy>(vecs: &Vec<SparseVec<T>>) -> (m: CsrMatrix<T>)
    requires
        vecs@.len() > 0,
        forall|i: int| 0 <= i < vecs@.len() ==> (#[trigger] vecs@[i]).wf(),
        forall|i: int| 0 <= i < vecs@.len() ==> (#[trigger] vecs@[i]).dim == vecs@[0].dim,
    ensures
        m.wf(),
        m.rows == vecs@.len(),
        m.cols == vecs@[0].dim,
        forall|r: int| 0 <= r < vecs@.len() ==> m.row_view(r) == (#[trigger] vecs@[r])@,
{
    let cols = vecs[0].dim;
    let mut indptr: Vec<usize> = Vec::new();
    let mut indices: Vec<usize> = Vec::new();
    let mut data: Vec<T> = Vec::new();
    indptr.push(0);
    let mut r: usize = 0;
    while r < vecs.len()
        invariant
            forall|i: int| 0 <= i < vecs@.len() ==> (#[trigger] vecs@[i]).wf(),
            forall|i: int| 0 <= i < vecs@.len() ==> (#[trigger] vecs@[i]).dim == cols,
            r <= vecs@.len(),
            indptr@.len() == r + 1,
            indptr@[0] == 0,
            indptr@[r as int] == indices@.len(),
            indices@.len() == data@.len(),
            forall|i: int, j: int| 0 <= i <= j <= r ==> indptr@[i] <= indptr@[j],
            forall|q: int|
                0 <= q < r ==> indices@.subrange(indptr@[q] as int, indptr@[q + 1] as int)
                    == (#[trigger] vecs@[q]).indices@,
            forall|q: int|
                0 <= q < r ==> data@.subrange(indptr@[q] as int, indptr@[q + 1] as int) == (
                #[trigger] vecs@[q]).data@,
        decreases vecs@.len() - r,
    {
        let v = &vecs[r];
        let ghost base = indices@.len();
        let ghost old_indices = indices@;
        let ghost old_data = data@;
        let mut k: usize = 0;
        while k < v.indices.len()
            invariant
                v.wf(),
                k <= v.indices@.len(),
                indices@.len() == data@.len(),
                indices@ == old_indices + v.indices@.subrange(0, k as int),
                data@ == old_data + v.data@.subrange(0, k as int),
                base == old_indices.len(),
            decreases v.indices@.len() - k,
        {
            indices.push(v.indices[k]);
            data.push(v.data[k]);
            k += 1;
            assert(indices@ =~= old_indices + v.indices@.subrange(0, k as int));
            assert(data@ =~= old_data + v.data@.subrange(0, k as int));
        }
        indptr.push(indices.len());
        assert forall|q: int| 0 <= q < r + 1 implies indices@.subrange(
            indptr@[q] as int,
            indptr@[q + 1] as int,
        ) == (#[trigger] vecs@[q]).indices@ by {
            if q < r {
                assert(indices@.subrange(indptr@[q] as int, indptr@[q + 1] as int)
                    =~= old_indices.subrange(indptr@[q] as int, indptr@[q + 1] as int));
            } else {
                assert(indices@.subrange(indptr@[q] as int, indptr@[q + 1] as int)
                    =~= v.indices@);
            }
        }
        assert forall|q: int| 0 <= q < r + 1 implies data@.subrange(
            indptr@[q] as int,
            indptr@[q + 1] as int,
        ) == (#[trigger] vecs@[q]).data@ by {
            if q < r {
                assert(data@.subrange(indptr@[q] as int, indptr@[q + 1] as int)
                    =~= old_data.subrange(indptr@[q] as int, indptr@[q + 1] as int));
            } else {
                assert(data@.subrange(indptr@[q] as int, indptr@[q + 1] as int) =~= v.data@);
            }
        }
        r += 1;
    }
    let m = CsrMatrix { rows: vecs.len(), cols, indptr, indices, data };
    assert forall|q: int| 0 <= q < m.rows implies m.row_view(q) == (#[trigger] vecs@[q])@ by {
        assert(m.row_indices(q) == vecs@[q].indices@);
    }
    assert forall|q: int| 0 <= q < m.rows implies strictly_increasing(#[trigger] m.row_indices(q))
        && bounded_by(m.row_indices(q), m.cols as int) by {
        assert(m.row_indices(q) == vecs@[q].indices@);
    }
    m
}

/// Each entry of a well-formed matrix at or after the start of row `i` lies in some row.
pub proof fn lemma_row_of_entry<T>(m: &CsrMatrix<T>, k: int, i: int)
    requires
        m.wf(),
        0 <= k < m.indices@.len(),
        0 <= i <= m.rows,
        m.indptr@[i] <= k,
    ensures
        exists|r: int| 0 <= r < m.rows && #[trigger] m.indptr@[r] <= k < m.indptr@[r + 1],
    decreases m.rows - i,
{
    if i == m.rows {
        assert(m.indptr@[m.rows as int] == m.indices@.len());
    } else if m.indptr@[i + 1] <= k {
        lemma_row_of_entry(m, k, i + 1);
    }
}

} // verus!
