//! The search index: one BM25 index and one vector store, kept in step by
//! document identifier.
//!
//! The index does the bookkeeping and the ranking. The floating-point side
//! of a query is the caller's: for a lexical query the caller takes the
//! candidates, scores each from its hits, and hands the scored list back to
//! be ranked; for a vector query the caller scores each row against the
//! query vector and hands back one score for each row.

use crate::bm25::{candidate_views, BM25Index, Candidate};
use crate::index_model::{union_of, IndexView};
use crate::rank::{ids_of, pair_views, PairIdScore};
use crate::seqs::{dedup, distinct};
use crate::text::{terms_of, tokenize, views};
use crate::vectors::VectorIndex;
use vstd::prelude::*;

verus! {

/// Why a document was not taken in.
#[derive(Debug, Clone, Copy, PartialEq, Eq, Structural)]
pub enum IndexError {
    /// The identifier is already indexed. Use `update_doc` to replace it.
    DuplicateId,
    /// The document would take a count or an offset past what its type
    /// holds.
    TooLarge,
}

/// A hybrid index over documents that have a text and an embedding.
pub struct SearchIndex {
    bm25: BM25Index,
    vectors: VectorIndex,
}

impl View for SearchIndex {
    type V = IndexView;

    closed spec fn view(&self) -> IndexView {
        IndexView { text: self.bm25@, vectors: self.vectors@ }
    }
}

/// `(n + 1) * d` stays within `usize` exactly if `n + 1` is at most
/// `usize::MAX / d`.
proof fn lemma_rows_fit(n: int, d: int)
    requires
        0 <= n,
        0 < d,
    ensures
        (n + 1) * d <= usize::MAX <==> n + 1 <= (usize::MAX as int) / d,
{
    let m = usize::MAX as int;
    assert((n + 1) * d <= m <==> n + 1 <= m / d) by (nonlinear_arith)
        requires
            0 <= n,
            0 < d,
            0 <= m,
    ;
}

impl SearchIndex {
    /// What the index keeps true of itself.
    pub closed spec fn wf(&self) -> bool {
        &&& self.bm25@.wf()
        &&& self.bm25@.balanced()
        &&& self.vectors.wf()
    }

    /// A well-formed index has a well-formed state.
    pub proof fn lemma_wf(&self)
        requires
            self.wf(),
        ensures
            self@.wf(),
    {
        self.vectors.lemma_wf();
        self.bm25.lemma_total_bounded();
    }

    /// An index that holds nothing.
    pub fn new() -> (index: SearchIndex)
        ensures
            index.wf(),
            index@ == IndexView::empty(),
    {
        SearchIndex { bm25: BM25Index::new(), vectors: VectorIndex::new() }
    }

    /// Whether one more row for a vector of `len` components can be
    /// addressed.
    fn row_fits(&self, len: usize) -> (r: bool)
        requires
            self.wf(),
        ensures
            r == self@.row_fits(len as nat),
    {
        let rows: usize = self.vectors.len();
        let d: usize = self.vectors.width_for(len);
        if rows == usize::MAX {
            return false;
        }
        if d == 0 {
            assert((rows + 1) * 0 == 0);
            return true;
        }
        proof {
            lemma_rows_fit(rows as int, d as int);
        }
        rows + 1 <= usize::MAX / d
    }

    /// Whether a document of `n` terms can be counted.
    fn text_fits(&self, n: usize) -> (r: bool)
        ensures
            r == (n <= u32::MAX && self@.text.total_len + n <= u64::MAX),
    {
        if n > 0xffff_ffff {
            return false;
        }
        self.bm25.total_len() <= u64::MAX - n as u64
    }

    /// Adds a new document: its text to the lexical side, its embedding,
    /// given as bit patterns, to the vector side. An identifier that either
    /// side already knows is refused, and so is a document that the counters
    /// cannot hold; the index is then left as it was.
    pub fn add_doc(&mut self, id: String, bm25_text: String, embedding: &[u32]) -> (r: Result<
        (),
        IndexError,
    >)
        requires
            old(self).wf(),
        ensures
            final(self).wf(),
            r == Err::<(), IndexError>(IndexError::DuplicateId) <==> old(self)@.contains(id@),
            r.is_ok() <==> !old(self)@.contains(id@) && old(self)@.fits(
                terms_of(bm25_text@),
                embedding@,
            ),
            r.is_ok() ==> final(self)@ == old(self)@.added(id@, terms_of(bm25_text@), embedding@),
            r.is_err() ==> final(self)@ == old(self)@,
    {
        if self.bm25.contains(id.as_str()) || self.vectors.contains(id.as_str()) {
            return Err(IndexError::DuplicateId);
        }
        let terms: Vec<String> = tokenize(bm25_text.as_str());
        let n: usize = terms.len();
        assert(views(terms@).len() == n);
        if !self.text_fits(n) || !self.row_fits(embedding.len()) {
            return Err(IndexError::TooLarge);
        }
        self.bm25.add_terms(id.as_str(), terms);
        self.vectors.add(id.as_str(), embedding);
        Ok(())
    }

    /// Replaces a document, or adds it if it is not indexed: the lexical
    /// side forgets the old text before it takes the new one, the vector
    /// side overwrites the row. A document that the counters cannot hold is
    /// refused and the index left as it was.
    pub fn update_doc(&mut self, id: String, bm25_text: String, embedding: &[u32]) -> (r: Result<
        (),
        IndexError,
    >)
        requires
            old(self).wf(),
        ensures
            final(self).wf(),
            r.is_ok() <==> old(self)@.fits_update(id@, terms_of(bm25_text@), embedding@),
            r.is_ok() ==> final(self)@ == old(self)@.updated(
                id@,
                terms_of(bm25_text@),
                embedding@,
            ),
            r.is_err() ==> r == Err::<(), IndexError>(IndexError::TooLarge) && final(self)@ == old(
                self,
            )@,
    {
        let terms: Vec<String> = tokenize(bm25_text.as_str());
        let n: usize = terms.len();
        assert(views(terms@).len() == n);
        if !self.text_fits(n) {
            return Err(IndexError::TooLarge);
        }
        if !self.vectors.contains(id.as_str()) && !self.row_fits(embedding.len()) {
            return Err(IndexError::TooLarge);
        }
        self.bm25.remove(id.as_str());
        self.bm25.add_terms(id.as_str(), terms);
        self.vectors.update(id.as_str(), embedding);
        Ok(())
    }

    /// Removes a document from both sides. An identifier that a side does
    /// not know leaves that side as it was.
    pub fn remove_doc(&mut self, id: String)
        requires
            old(self).wf(),
        ensures
            final(self).wf(),
            final(self)@ == old(self)@.removed(id@),
    {
        self.bm25.remove(id.as_str());
        self.vectors.remove(id.as_str());
    }

    /// The lexical side.
    pub fn bm25(&self) -> (r: &BM25Index)
        requires
            self.wf(),
        ensures
            r@ == self@.text,
            r@.wf(),
    {
        &self.bm25
    }

    /// The vector side.
    pub fn vectors(&self) -> (r: &VectorIndex)
        requires
            self.wf(),
        ensures
            r@ == self@.vectors,
            r.wf(),
    {
        &self.vectors
    }

    /// The documents that match `query`, each with what scoring needs.
    pub fn bm25_candidates(&self, query: String) -> (out: Vec<Candidate>)
        ensures
            self@.text.is_candidates(distinct(terms_of(query@)), candidate_views(out@)),
    {
        self.bm25.candidates(query.as_str())
    }

    /// The `k` best of the scored candidates of a lexical query, best first.
    pub fn bm25_top_k(&self, scored: &Vec<PairIdScore>, k: u32) -> (out: Vec<PairIdScore>)
        ensures
            self@.text_ranking(pair_views(scored@), k as int, pair_views(out@)),
    {
        self.bm25.top_k(scored, k as usize)
    }

    /// The `k` best rows of a vector query by the given scores, one for
    /// each row, best first.
    pub fn knn_top_k(&self, row_scores: &[u64], k: u32) -> (out: Vec<PairIdScore>)
        requires
            row_scores@.len() == self@.vectors.ids.len(),
        ensures
            self@.vector_ranking(row_scores@, k as int, pair_views(out@)),
    {
        self.vectors.top_k(row_scores, k as usize)
    }

    /// The union of the two rankings of a hybrid query: the identifiers of
    /// the `bm25_k` best scored candidates, then those of the `knn_k` best
    /// rows, each identifier once, where it first occurs.
    pub fn union_candidates(
        &self,
        scored: &Vec<PairIdScore>,
        row_scores: &[u64],
        bm25_k: u32,
        knn_k: u32,
    ) -> (out: Vec<String>)
        requires
            row_scores@.len() == self@.vectors.ids.len(),
        ensures
            self@.is_union(
                pair_views(scored@),
                row_scores@,
                bm25_k as int,
                knn_k as int,
                views(out@),
            ),
    {
        let bm: Vec<PairIdScore> = self.bm25_top_k(scored, bm25_k);
        let knn: Vec<PairIdScore> = self.knn_top_k(row_scores, knn_k);
        let out: Vec<String> = union_ids(&bm, &knn);
        proof {
            assert(self@.text_ranking(pair_views(scored@), bm25_k as int, pair_views(bm@))
                && self@.vector_ranking(row_scores@, knn_k as int, pair_views(knn@)));
        }
        out
    }
}

/// The identifiers of two rankings, the first ranking's first, each
/// identifier once, where it first occurs.
pub fn union_ids(bm: &Vec<PairIdScore>, knn: &Vec<PairIdScore>) -> (out: Vec<String>)
    ensures
        views(out@) == union_of(pair_views(bm@), pair_views(knn@)),
{
    let ghost a = ids_of(pair_views(bm@));
    let ghost b = ids_of(pair_views(knn@));
    let mut all: Vec<String> = Vec::new();
    let n: usize = bm.len();
    let mut i: usize = 0;
    while i < n
        invariant
            n == bm@.len(),
            i <= n,
            a == ids_of(pair_views(bm@)),
            views(all@) == a.take(i as int),
        decreases n - i,
    {
        let ghost before = views(all@);
        all.push(bm[i].id.clone());
        assert(views(all@) =~= before.push(bm@[i as int].id@));
        assert(a.take(i + 1) =~= a.take(i as int).push(a[i as int]));
        i = i + 1;
    }
    assert(a.take(n as int) =~= a);
    let m: usize = knn.len();
    let mut j: usize = 0;
    while j < m
        invariant
            m == knn@.len(),
            j <= m,
            b == ids_of(pair_views(knn@)),
            views(all@) == a + b.take(j as int),
        decreases m - j,
    {
        let ghost before = views(all@);
        all.push(knn[j].id.clone());
        assert(views(all@) =~= before.push(knn@[j as int].id@));
        assert(a + b.take(j + 1) =~= (a + b.take(j as int)).push(b[j as int]));
        j = j + 1;
    }
    assert(b.take(m as int) =~= b);
    dedup(all)
}

} // verus!
