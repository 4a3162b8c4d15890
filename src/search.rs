use vstd::prelude::*;
use crate::dataset::{Dataset, Doc};
use crate::sparse::SparseVec;
use core::cmp::Ordering;

verus! {

/// A search request: the query text, the page wanted and an optional filter.
pub struct SearchParams {
    pub keyword: String,
    pub offset: Option<usize>,
    pub limit: Option<usize>,
    pub filter: Option<SearchParamsFilter>,
}

/// Metadata a hit must carry: each field that is given must equal the document's.
pub struct SearchParamsFilter {
    pub infotype: Option<String>,
    pub user: Option<String>,
}

/// The page size used when a request names none.
pub const DEFAULT_LIMIT: usize = 10;

impl SearchParams {
    /// The requested offset, 0 when none is given.
    pub fn offset_or_default(&self) -> (r: usize)
        ensures
            r == (match self.offset {
                Some(o) => o,
                None => 0,
            }),
    {
        match self.offset {
            Some(o) => o,
            None => 0,
        }
    }

    /// The requested page size, `DEFAULT_LIMIT` when none is given.
    pub fn limit_or_default(&self) -> (r: usize)
        ensures
            r == (match self.limit {
                Some(l) => l,
                None => DEFAULT_LIMIT,
            }),
    {
        match self.limit {
            Some(l) => l,
            None => DEFAULT_LIMIT,
        }
    }
}

/// Whether `doc` passes the filter.
pub open spec fn admits(f: SearchParamsFilter, doc: Doc) -> bool {
    &&& (f.infotype is Some ==> f.infotype->0@ == doc.infotype@)
    &&& (f.user is Some ==> f.user->0@ == doc.user@)
}

/// Whether `doc` passes the filter.
pub fn matches_filter(f: &SearchParamsFilter, doc: &Doc) -> (r: bool)
    ensures
        r == admits(*f, *doc),
{
    match &f.infotype {
        Some(infotype) => {
            if *infotype != doc.infotype {
                return false;
            }
        },
        None => {},
    }
    match &f.user {
        Some(user) => {
            if *user != doc.user {
                return false;
            }
        },
        None => {},
    }
    true
}

/// A scored hit: a document id and the order key of its score, higher is better.
pub type Scored = (usize, u64);

/// Hit `a` comes before hit `b`: a higher score, or an equal score and a smaller id.
pub open spec fn ranks_before(a: Scored, b: Scored) -> bool {
    a.1 > b.1 || (a.1 == b.1 && a.0 < b.0)
}

/// No hit comes after one that ranks below it.
pub open spec fn is_ranked(s: Seq<Scored>) -> bool {
    forall|i: int, j: int| 0 <= i < j < s.len() ==> !ranks_before(s[j], s[i])
}

/// The order of two hits: by score descending, then by id ascending.
pub fn compare_ranked(a: &Scored, b: &Scored) -> (r: Ordering)
    ensures
        r == Ordering::Less <==> ranks_before(*a, *b),
        r == Ordering::Greater <==> ranks_before(*b, *a),
        r == Ordering::Equal <==> *a == *b,
{
    if a.1 > b.1 {
        Ordering::Less
    } else if a.1 < b.1 {
        Ordering::Greater
    } else if a.0 < b.0 {
        Ordering::Less
    } else if a.0 > b.0 {
        Ordering::Greater
    } else {
        Ordering::Equal
    }
}

/// Relies on slice::sort_by with a total order (`compare_ranked`): afterwards
/// the hits are in that order, and they are the same hits as before.
#[verifier::external_body]
fn sort_ranked(v: &mut Vec<Scored>)
    ensures
        final(v)@.to_multiset() == old(v)@.to_multiset(),
        is_ranked(final(v)@),
{
    v.sort_by(|a, b| compare_ranked(a, b));
}

/// Pairs each candidate document with its score key and orders the hits
/// by score descending, ties by ascending id.
pub fn rank(candidates: &SparseVec<bool>, keys: &Vec<u64>) -> (r: Vec<Scored>)
    requires
        keys@.len() == candidates.indices@.len(),
    ensures
        is_ranked(r@),
        r@.to_multiset() == Seq::new(
            keys@.len(),
            |i: int| (candidates.indices@[i], keys@[i]),
        ).to_multiset(),
{
    let ghost pairs = Seq::new(keys@.len(), |i: int| (candidates.indices@[i], keys@[i]));
    let mut out: Vec<Scored> = Vec::new();
    let mut i: usize = 0;
    while i < keys.len()
        invariant
            keys@.len() == candidates.indices@.len(),
            pairs == Seq::new(keys@.len(), |i: int| (candidates.indices@[i], keys@[i])),
            i <= keys@.len(),
            out@ == pairs.subrange(0, i as int),
        decreases keys@.len() - i,
    {
        out.push((candidates.indices[i], keys[i]));
        i += 1;
        assert(out@ =~= pairs.subrange(0, i as int));
    }
    assert(pairs.subrange(0, i as int) =~= pairs);
    sort_ranked(&mut out);
    out
}

/// The hits whose document passes the filter, in order.
pub open spec fn admitted(
    hits: Seq<Scored>,
    docs: Seq<Doc>,
    filter: Option<SearchParamsFilter>,
) -> Seq<Scored>
    decreases hits.len(),
{
    if hits.len() == 0 {
        Seq::empty()
    } else {
        let p = admitted(hits.drop_last(), docs, filter);
        if filter is None || admits(filter->0, docs[hits.last().0 as int]) {
            p.push(hits.last())
        } else {
            p
        }
    }
}

pub open spec fn min(a: int, b: int) -> int {
    if a < b {
        a
    } else {
        b
    }
}

/// One page of filtered hits, and how many hits passed the filter in all.
pub struct Page {
    pub total_hits: usize,
    pub hits: Vec<Scored>,
}

/// Filters ranked hits, keeping their order, and cuts out
/// `[offset, offset + limit)`; the page is empty when `offset` is past the end.
pub fn select_page(
    ranked: &Vec<Scored>,
    dataset: &Dataset,
    filter: &Option<SearchParamsFilter>,
    offset: usize,
    limit: usize,
) -> (p: Page)
    requires
        forall|i: int| 0 <= i < ranked@.len() ==> (#[trigger] ranked@[i]).0 < dataset.docs@.len(),
    ensures
        p.total_hits == admitted(ranked@, dataset.docs@, *filter).len(),
        p.hits@ == admitted(ranked@, dataset.docs@, *filter).subrange(
            min(offset as int, p.total_hits as int),
            min(offset + limit, p.total_hits as int),
        ),
{
    let ghost docs = dataset.docs@;
    let mut kept: Vec<Scored> = Vec::new();
    let mut i: usize = 0;
    while i < ranked.len()
        invariant
            docs == dataset.docs@,
            forall|i: int| 0 <= i < ranked@.len() ==> (#[trigger] ranked@[i]).0 < docs.len(),
            i <= ranked@.len(),
            kept@ == admitted(ranked@.subrange(0, i as int), docs, *filter),
        decreases ranked@.len() - i,
    {
        let h = ranked[i];
        assert(ranked@.subrange(0, i + 1).drop_last() =~= ranked@.subrange(0, i as int));
        assert(ranked@.subrange(0, i + 1).last() == h);
        let keep = match filter {
            Some(f) => matches_filter(f, &dataset.docs[h.0]),
            None => true,
        };
        if keep {
            kept.push(h);
        }
        i += 1;
    }
    assert(ranked@.subrange(0, i as int) =~= ranked@);
    let total_hits = kept.len();
    let start = if offset < total_hits {
        offset
    } else {
        total_hits
    };
    let end = if limit < total_hits - start {
        start + limit
    } else {
        total_hits
    };
    let mut hits: Vec<Scored> = Vec::new();
    let mut k: usize = start;
    while k < end
        invariant
            start <= k <= end,
            end <= kept@.len(),
            hits@ == kept@.subrange(start as int, k as int),
        decreases end - k,
    {
        hits.push(kept[k]);
        k += 1;
        assert(hits@ =~= kept@.subrange(start as int, k as int));
    }
    Page { total_hits, hits }
}

} // verus!
