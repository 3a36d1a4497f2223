//! The dense vector store.
//!
//! Rows live side by side in one flat buffer; a table maps each identifier
//! to its row. Components are IEEE-754 binary32 bit patterns. The store lays
//! rows out, pads and truncates, and moves rows on removal; it does no
//! arithmetic on components. Normalising vectors and taking inner products
//! is floating-point work that callers do on what the store hands them.

use crate::rank::{is_ranking, pair_views, top_pairs, zipped, PairIdScore};
use crate::tables::{slots, slots_get, slots_insert, slots_new, slots_remove};
use crate::text::views;
use crate::vectors_model::{doubled, fit, grown, lemma_doubled, VecView};
use ahash::AHashMap;
use vstd::prelude::*;

verus! {

/// Row `r` of `n` rows of width `d` lies inside the first `n * d` cells.
proof fn lemma_row_bounds(r: int, n: int, d: int)
    requires
        0 <= r < n,
        0 <= d,
    ensures
        0 <= r * d,
        r * d + d <= n * d,
        (r + 1) * d == r * d + d,
{
    assert(0 <= r * d && r * d + d <= n * d && (r + 1) * d == r * d + d) by (nonlinear_arith)
        requires
            0 <= r < n,
            0 <= d,
    ;
}

/// Brings a vector to width `dim`: cuts it off where it is longer, fills it
/// with zeros where it is shorter.
pub fn fit_to(v: &[u32], dim: usize) -> (out: Vec<u32>)
    ensures
        out@ == fit(v@, dim as nat),
{
    let mut out: Vec<u32> = Vec::new();
    let mut i: usize = 0;
    while i < dim
        invariant
            i <= dim,
            out@.len() == i,
            forall|j: int| 0 <= j < i ==> out@[j] == fit(v@, dim as nat)[j],
        decreases dim - i,
    {
        let x: u32 = if i < v.len() {
            v[i]
        } else {
            0
        };
        out.push(x);
        i = i + 1;
    }
    assert(out@ =~= fit(v@, dim as nat));
    out
}

/// A store of fixed-width vectors, one row for each identifier.
pub struct VectorIndex {
    dim: usize,
    data: Vec<u32>,
    ids: Vec<String>,
    id_to_row: AHashMap<String, usize>,
}

impl View for VectorIndex {
    type V = VecView;

    closed spec fn view(&self) -> VecView {
        VecView {
            dim: self.dim as nat,
            ids: views(self.ids@),
            rows: Seq::new(
                self.ids@.len(),
                |r: int| self.data@.subrange(r * self.dim, r * self.dim + self.dim),
            ),
            id_to_row: slots(self.id_to_row),
            capacity: self.data@.len(),
        }
    }
}

impl VectorIndex {
    /// What the store keeps true of itself: its state is well formed, and
    /// while it has no width its buffer holds zeros only.
    pub closed spec fn wf(&self) -> bool {
        &&& self@.wf()
        &&& self.dim == 0 ==> forall|i: int| 0 <= i < self.data@.len() ==> self.data@[i] == 0
    }

    /// A store that holds nothing.
    pub fn new() -> (store: VectorIndex)
        ensures
            store.wf(),
            store@ == VecView::empty(),
    {
        let store = VectorIndex {
            dim: 0,
            data: Vec::new(),
            ids: Vec::new(),
            id_to_row: slots_new(),
        };
        proof {
            assert(store@.ids =~= Seq::empty());
            assert(store@.rows =~= Seq::empty());
            assert(store@.id_to_row =~= Map::empty());
        }
        store
    }

    /// A well-formed store has a well-formed state.
    pub proof fn lemma_wf(&self)
        requires
            self.wf(),
        ensures
            self@.wf(),
            self@.ids.len() <= usize::MAX,
            self@.capacity <= usize::MAX,
    {
        assert(self@.ids.len() == self.ids@.len());
        assert(self.ids@.len() == self.ids.len());
        assert(self.data@.len() == self.data.len());
    }

    /// Fixes the width if there is none yet, and makes room for `rows` rows.
    fn ensure_capacity(&mut self, rows: usize, dim: usize)
        requires
            rows * (if old(self).dim == 0 {
                dim
            } else {
                old(self).dim
            }) <= usize::MAX,
        ensures
            final(self).dim == (if old(self).dim == 0 {
                dim
            } else {
                old(self).dim
            }),
            final(self).ids == old(self).ids,
            final(self).id_to_row == old(self).id_to_row,
            final(self).data@.len() == grown(old(self).data@.len(), (rows * final(self).dim) as nat),
            final(self).data@.len() >= rows * final(self).dim,
            final(self).data@.len() >= old(self).data@.len(),
            forall|i: int| 0 <= i < old(self).data@.len() ==> final(self).data@[i] == old(self).data@[i],
            forall|i: int|
                old(self).data@.len() <= i < final(self).data@.len() ==> final(self).data@[i] == 0,
    {
        if self.dim == 0 {
            self.dim = dim;
        }
        let need: usize = rows * self.dim;
        let len: usize = self.data.len();
        if need <= len {
            return ;
        }
        let start: usize = if len == 0 {
            1024
        } else {
            len
        };
        let mut cap: usize = start;
        while cap < need && cap <= usize::MAX / 2
            invariant
                cap > 0,
                doubled(cap as nat, need as nat) == doubled(start as nat, need as nat),
            decreases (if need > cap { need - cap } else { 0 }),
        {
            cap = cap * 2;
        }
        if cap < need {
            proof {
                lemma_doubled((2 * cap) as nat, need as nat);
            }
            cap = need;
        }
        let ghost before = self.data@;
        self.data.resize(cap, 0);
        proof {
            assert forall|i: int| 0 <= i < before.len() implies self.data@[i] == before[i] by {
                assert(self.data@.subrange(0, before.len() as int)[i] == before[i]);
            }
        }
    }

    /// Writes `vec`, brought to the store's width, into row `row`.
    fn write_row(&mut self, row: usize, vec: &[u32])
        requires
            (row + 1) * old(self).dim <= old(self).data@.len(),
        ensures
            final(self).dim == old(self).dim,
            final(self).ids == old(self).ids,
            final(self).id_to_row == old(self).id_to_row,
            final(self).data@.len() == old(self).data@.len(),
            final(self).data@.subrange(row * old(self).dim, row * old(self).dim + old(self).dim)
                == fit(vec@, old(self).dim as nat),
            forall|p: int|
                0 <= p < old(self).data@.len() && !(row * old(self).dim <= p < row * old(self).dim
                    + old(self).dim) ==> final(self).data@[p] == old(self).data@[p],
    {
        let d: usize = self.dim;
        let size: usize = self.data.len();
        proof {
            lemma_row_bounds(row as int, row + 1, d as int);
        }
        let off: usize = row * d;
        let ghost before = self.data@;
        let mut i: usize = 0;
        while i < d
            invariant
                i <= d,
                size == before.len(),
                d == self.dim,
                off == row * d,
                off + d <= self.data@.len(),
                self.ids == old(self).ids,
                self.id_to_row == old(self).id_to_row,
                self.data@.len() == before.len(),
                forall|j: int| 0 <= j < i ==> self.data@[off + j] == fit(vec@, d as nat)[j],
                forall|p: int|
                    0 <= p < before.len() && !(off <= p < off + d) ==> self.data@[p] == before[p],
            decreases d - i,
        {
            let x: u32 = if i < vec.len() {
                vec[i]
            } else {
                0
            };
            self.data.set(off + i, x);
            i = i + 1;
        }
        assert(self.data@.subrange(off as int, off + d) =~= fit(vec@, d as nat));
    }

    /// The width of the rows; zero until a non-empty vector was stored.
    pub fn dim(&self) -> (d: usize)
        ensures
            d == self@.dim,
    {
        self.dim
    }

    /// The number of rows.
    pub fn len(&self) -> (n: usize)
        ensures
            n == self@.ids.len(),
    {
        self.ids.len()
    }

    /// The size of the buffer, in components.
    pub fn capacity(&self) -> (n: usize)
        ensures
            n == self@.capacity,
    {
        self.data.len()
    }

    /// Whether `id` has a row.
    pub fn contains(&self, id: &str) -> (r: bool)
        requires
            self.wf(),
        ensures
            r == self@.ids.contains(id@),
    {
        assert(self@.id_to_row.dom().contains(id@) <==> self@.ids.contains(id@));
        slots_get(&self.id_to_row, id).is_some()
    }

    /// The width at which a vector of length `len` would be stored.
    pub fn width_for(&self, len: usize) -> (d: usize)
        ensures
            d == self@.width_for(len as nat),
    {
        if self.dim == 0 {
            len
        } else {
            self.dim
        }
    }

    /// Appends a row for `id` with `vec` brought to the store's width. The
    /// first non-empty vector gives the store its width. An identifier
    /// occupies one row, so `id` must not have one yet; `update` serves
    /// both cases.
    pub fn add(&mut self, id: &str, vec: &[u32])
        requires
            old(self).wf(),
            !old(self)@.ids.contains(id@),
            old(self)@.ids.len() < usize::MAX,
            (old(self)@.ids.len() + 1) * old(self)@.width_for(vec@.len()) <= usize::MAX,
        ensures
            final(self).wf(),
            final(self)@ == old(self)@.added(id@, vec@),
    {
        let ghost v0 = self@;
        let ghost data0 = self.data@;
        let ghost dim0 = self.dim;
        let ghost ids0 = self.ids@;
        let d: usize = if self.dim == 0 {
            vec.len()
        } else {
            self.dim
        };
        let row: usize = self.ids.len();
        assert(v0.ids.len() == row);
        self.ensure_capacity(row + 1, d);
        let ghost data1 = self.data@;
        self.ids.push(id.to_owned());
        slots_insert(&mut self.id_to_row, id.to_owned(), row);
        self.write_row(row, vec);
        proof {
            let w = v0.added(id@, vec@);
            assert(self@.ids =~= w.ids);
            assert(self@.rows.len() == w.rows.len());
            assert forall|r: int| 0 <= r < row + 1 implies self@.rows[r] == w.rows[r] by {
                lemma_row_bounds(r, row + 1, d as int);
                if r < row {
                    lemma_row_bounds(r, row as int, d as int);
                    lemma_row_bounds(r, row as int, dim0 as int);
                    let mine = self.data@.subrange(r * d, r * d + d);
                    let old_row = data0.subrange(r * dim0, r * dim0 + dim0);
                    assert(v0.rows[r] == old_row);
                    assert(w.rows[r] == fit(old_row, d as nat));
                    assert forall|j: int| 0 <= j < d implies mine[j] == fit(old_row, d as nat)[j] by {
                        let p = r * d + j;
                        assert(self.data@[p] == data1[p]);
                        if dim0 == 0 {
                            if p < data0.len() {
                                assert(data1[p] == data0[p]);
                            }
                        } else {
                            assert(data1[p] == data0[p]);
                            assert(old_row[j] == data0[p]);
                        }
                    }
                    assert(mine =~= fit(old_row, d as nat));
                }
            }
            assert(self@.rows =~= w.rows);
            assert(self@ == w);
            crate::vectors_model::lemma_added_wf(v0, id@, vec@);
        }
    }

    /// Replaces the vector of `id` in its row; for an identifier without a
    /// row, appends one.
    pub fn update(&mut self, id: &str, vec: &[u32])
        requires
            old(self).wf(),
            !old(self)@.ids.contains(id@) ==> old(self)@.ids.len() < usize::MAX && (
            old(self)@.ids.len() + 1) * old(self)@.width_for(vec@.len()) <= usize::MAX,
        ensures
            final(self).wf(),
            final(self)@ == old(self)@.updated(id@, vec@),
    {
        let ghost v0 = self@;
        let ghost data0 = self.data@;
        match slots_get(&self.id_to_row, id) {
            Some(row) => {
                let d: usize = self.dim;
                let n: usize = self.ids.len();
                let size: usize = self.data.len();
                proof {
                    assert(v0.id_to_row.dom().contains(id@));
                    assert(v0.ids.len() == n);
                    assert(v0.ids.len() * v0.dim <= v0.capacity);
                    crate::vectors_model::lemma_row_of(v0, id@);
                    lemma_row_bounds(row as int, n as int, d as int);
                }
                self.write_row(row, vec);
                proof {
                    let w = v0.updated(id@, vec@);
                    assert forall|r: int| 0 <= r < n implies self@.rows[r] == w.rows[r] by {
                        lemma_row_bounds(r, n as int, d as int);
                        if r < row {
                            lemma_row_bounds(r, row as int, d as int);
                            assert(self.data@.subrange(r * d, r * d + d) =~= data0.subrange(
                                r * d,
                                r * d + d,
                            ));
                        } else if r > row {
                            lemma_row_bounds(row as int, r, d as int);
                            assert(self.data@.subrange(r * d, r * d + d) =~= data0.subrange(
                                r * d,
                                r * d + d,
                            ));
                        }
                    }
                    assert(self@.rows =~= w.rows);
                    assert(self@ == w);
                    crate::vectors_model::lemma_updated_wf(v0, id@, vec@);
                }
            },
            None => {
                self.add(id, vec);
            },
        }
    }

    /// Removes the row of `id`: the last row moves into its place and the
    /// store shrinks by one row. An unknown identifier changes nothing.
    pub fn remove(&mut self, id: &str)
        requires
            old(self).wf(),
        ensures
            final(self).wf(),
            final(self)@ == old(self)@.removed(id@),
    {
        let ghost v0 = self@;
        let ghost data0 = self.data@;
        let ghost ids0 = self.ids@;
        let row: usize = match slots_get(&self.id_to_row, id) {
            Some(found) => found,
            None => {
                return ;
            },
        };
        let d: usize = self.dim;
        let n: usize = self.ids.len();
        let size: usize = self.data.len();
        proof {
            assert(v0.id_to_row.dom().contains(id@));
            assert(v0.ids.len() == n);
            assert(v0.ids.len() * v0.dim <= v0.capacity);
            crate::vectors_model::lemma_row_of(v0, id@);
        }
        let last: usize = n - 1;
        if row != last {
            let moved: String = self.ids[last].clone();
            self.ids.set(row, moved.clone());
            slots_insert(&mut self.id_to_row, moved, row);
            proof {
                lemma_row_bounds(last as int, n as int, d as int);
                lemma_row_bounds(row as int, last as int, d as int);
            }
            let src: usize = last * d;
            let dst: usize = row * d;
            let mut i: usize = 0;
            while i < d
                invariant
                    i <= d,
                    d == self.dim,
                    src == last * d,
                    dst == row * d,
                    dst + d <= src,
                    src + d <= self.data@.len(),
                    self.data@.len() == data0.len(),
                    size == data0.len(),
                    self.ids@ == ids0.update(row as int, ids0[last as int]),
                    slots(self.id_to_row) == v0.id_to_row.insert(ids0[last as int]@, row),
                    forall|p: int|
                        dst <= p < dst + i ==> #[trigger] self.data@[p] == data0[p - dst + src],
                    forall|p: int|
                        0 <= p < data0.len() && !(dst <= p < dst + d) ==> self.data@[p]
                            == data0[p],
                decreases d - i,
            {
                let x: u32 = self.data[src + i];
                self.data.set(dst + i, x);
                i = i + 1;
            }
        }
        proof {
            if d == 0 {
                assert forall|p: int| 0 <= p < data0.len() implies #[trigger] self.data@[p]
                    == 0 by {
                    assert(self.data@[p] == data0[p]);
                }
            }
        }
        self.ids.pop();
        slots_remove(&mut self.id_to_row, id);
        proof {
            let w = v0.removed(id@);
            assert(self@.ids =~= w.ids);
            assert(self@.id_to_row =~= w.id_to_row);
            assert forall|r: int| 0 <= r < last implies self@.rows[r] == w.rows[r] by {
                lemma_row_bounds(r, n as int, d as int);
                lemma_row_bounds(last as int, n as int, d as int);
                if r == row {
                    assert(self.data@.subrange(r * d, r * d + d) =~= data0.subrange(
                        last * d,
                        last * d + d,
                    ));
                } else {
                    if r < row {
                        lemma_row_bounds(r, row as int, d as int);
                    } else {
                        lemma_row_bounds(row as int, r, d as int);
                    }
                    assert(self.data@.subrange(r * d, r * d + d) =~= data0.subrange(
                        r * d,
                        r * d + d,
                    ));
                }
            }
            assert(self@.rows =~= w.rows);
            assert(self@ == w);
            crate::vectors_model::lemma_removed_wf(v0, id@);
        }
    }

    /// The vector of row `row`.
    pub fn row(&self, row: usize) -> (out: Vec<u32>)
        requires
            self.wf(),
            row < self@.ids.len(),
        ensures
            out@ == self@.rows[row as int],
    {
        let d: usize = self.dim;
        let n: usize = self.ids.len();
        let size: usize = self.data.len();
        proof {
            assert(self@.ids.len() == n);
            assert(self@.ids.len() * self@.dim <= self@.capacity);
            lemma_row_bounds(row as int, n as int, d as int);
        }
        let off: usize = row * d;
        let mut out: Vec<u32> = Vec::new();
        let mut i: usize = 0;
        while i < d
            invariant
                i <= d,
                off + d <= self.data@.len(),
                size == self.data@.len(),
                out@.len() == i,
                forall|j: int| 0 <= j < i ==> out@[j] == self.data@[off + j],
            decreases d - i,
        {
            out.push(self.data[off + i]);
            i = i + 1;
        }
        assert(out@ =~= self.data@.subrange(off as int, off + d));
        out
    }

    /// The `k` best rows by the given scores, one score for each row, best
    /// first, each as its identifier with its score.
    pub fn top_k(&self, scores: &[u64], k: usize) -> (out: Vec<PairIdScore>)
        requires
            scores@.len() == self@.ids.len(),
        ensures
            is_ranking(zipped(self@.ids, scores@), k as int, pair_views(out@)),
    {
        assert(self@.ids.len() == self.ids@.len());
        top_pairs(&self.ids, scores, k)
    }
}

} // verus!
