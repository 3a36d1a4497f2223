//! The search index as a mathematical value: a BM25 state beside a vector
//! store state, changed together.

use crate::bm25_model::Bm25View;
use crate::rank::{ids_of, is_ranking, zipped};
use crate::seqs::distinct;
use crate::vectors_model::VecView;
use vstd::prelude::*;

verus! {

/// The state of a search index.
pub struct IndexView {
    /// The lexical side.
    pub text: Bm25View,
    /// The vector side.
    pub vectors: VecView,
}

impl IndexView {
    /// The state of an index that holds nothing.
    pub open spec fn empty() -> IndexView {
        IndexView { text: Bm25View::empty(), vectors: VecView::empty() }
    }

    /// What every reachable state satisfies: both sides are well formed and
    /// the lexical side's total is in balance.
    pub open spec fn wf(self) -> bool {
        &&& self.text.wf()
        &&& self.text.balanced()
        &&& self.vectors.wf()
        &&& self.vectors.ids.len() <= usize::MAX
        &&& self.text.total_len <= u64::MAX
    }

    /// Whether either side knows `id`.
    pub open spec fn contains(self, id: Seq<char>) -> bool {
        self.text.docs.contains(id) || self.vectors.ids.contains(id)
    }

    /// Whether a document of these terms can be counted: its length fits
    /// the table of lengths and the total stays within its type.
    pub open spec fn text_fits(self, terms: Seq<Seq<char>>) -> bool {
        terms.len() <= u32::MAX && self.text.total_len + terms.len() <= u64::MAX
    }

    /// Whether one more row for a vector of this length can be addressed.
    pub open spec fn row_fits(self, len: nat) -> bool {
        self.vectors.ids.len() < usize::MAX && (self.vectors.ids.len() + 1)
            * self.vectors.width_for(len) <= usize::MAX
    }

    /// Whether a new document can be taken in.
    pub open spec fn fits(self, terms: Seq<Seq<char>>, vec: Seq<u32>) -> bool {
        self.text_fits(terms) && self.row_fits(vec.len())
    }

    /// Whether a document can be taken in under `id`, which may be known:
    /// a vector that has a row needs no new one.
    pub open spec fn fits_update(self, id: Seq<char>, terms: Seq<Seq<char>>, vec: Seq<u32>) -> bool {
        self.text_fits(terms) && (self.vectors.ids.contains(id) || self.row_fits(vec.len()))
    }

    /// The state after a new document was added on both sides.
    pub open spec fn added(self, id: Seq<char>, terms: Seq<Seq<char>>, vec: Seq<u32>) -> IndexView {
        IndexView { text: self.text.added(id, terms), vectors: self.vectors.added(id, vec) }
    }

    /// The state after a document was replaced: on the lexical side it is
    /// removed and added again, so that no posting of the old text stays; on
    /// the vector side its row is overwritten, or appended if it had none.
    pub open spec fn updated(self, id: Seq<char>, terms: Seq<Seq<char>>, vec: Seq<u32>) -> IndexView {
        IndexView {
            text: self.text.removed(id).added(id, terms),
            vectors: self.vectors.updated(id, vec),
        }
    }

    /// The state after a document was removed from both sides.
    pub open spec fn removed(self, id: Seq<char>) -> IndexView {
        IndexView { text: self.text.removed(id), vectors: self.vectors.removed(id) }
    }

    /// Both sides hold the same documents.
    pub open spec fn in_step(self) -> bool {
        forall|d: Seq<char>| self.text.docs.contains(d) <==> self.vectors.ids.contains(d)
    }

    /// `out` ranks the `k` best of the scored candidates; an index without
    /// documents on the lexical side ranks nothing.
    pub open spec fn text_ranking(self, scored: Seq<(Seq<char>, u64)>, k: int, out: Seq<(Seq<char>, u64)>) -> bool {
        if self.text.docs.len() == 0 {
            out.len() == 0
        } else {
            is_ranking(scored, k, out)
        }
    }

    /// `out` ranks the `k` best rows by the given scores, one for each row.
    pub open spec fn vector_ranking(self, row_scores: Seq<u64>, k: int, out: Seq<(Seq<char>, u64)>) -> bool {
        is_ranking(zipped(self.vectors.ids, row_scores), k, out)
    }

    /// `out` is the union of a lexical and a vector ranking: the identifiers
    /// of the first followed by those of the second, each identifier where
    /// it first occurs.
    pub open spec fn is_union(
        self,
        scored: Seq<(Seq<char>, u64)>,
        row_scores: Seq<u64>,
        bm25_k: int,
        knn_k: int,
        out: Seq<Seq<char>>,
    ) -> bool {
        exists|bm: Seq<(Seq<char>, u64)>, knn: Seq<(Seq<char>, u64)>|
            #![trigger self.text_ranking(scored, bm25_k, bm), self.vector_ranking(row_scores, knn_k, knn)]
            self.text_ranking(scored, bm25_k, bm) && self.vector_ranking(row_scores, knn_k, knn)
                && out == union_of(bm, knn)
    }
}

/// The identifiers of two rankings, the first ranking's first, each
/// identifier once, where it first occurs.
pub open spec fn union_of(bm: Seq<(Seq<char>, u64)>, knn: Seq<(Seq<char>, u64)>) -> Seq<Seq<char>> {
    distinct(ids_of(bm) + ids_of(knn))
}

} // verus!
