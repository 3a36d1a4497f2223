//! The vector store as a mathematical value.
//!
//! A store is a list of rows, each an identifier with a vector of fixed
//! width. A component is an IEEE-754 binary32 number held as its bit
//! pattern; the store never computes with it, so that a vector is a sequence
//! of integers here. Zero bits are the number zero.

use vstd::prelude::*;

verus! {

/// A vector brought to width `dim`: cut off where it is longer, filled with
/// zeros where it is shorter.
pub open spec fn fit(v: Seq<u32>, dim: nat) -> Seq<u32> {
    Seq::new(
        dim,
        |i: int|
            if i < v.len() {
                v[i]
            } else {
                0u32
            },
    )
}

/// The first of `cap`, `2 * cap`, `4 * cap`, ... that reaches `need`.
pub open spec fn doubled(cap: nat, need: nat) -> nat
    decreases (if need > cap { need - cap } else { 0 }),
{
    if cap == 0 || cap >= need {
        cap
    } else {
        doubled(2 * cap, need)
    }
}

/// The size of the buffer after room for `need` components was asked for.
/// A buffer that is large enough stays as it is. Otherwise its size doubles,
/// starting from 1024 if it was empty, until it is large enough; where
/// doubling would leave the address space the buffer gets just what is
/// needed.
pub open spec fn grown(len: nat, need: nat) -> nat {
    if need <= len {
        len
    } else {
        let d = doubled(
            if len == 0 {
                1024
            } else {
                len
            },
            need,
        );
        if d > usize::MAX {
            need
        } else {
            d
        }
    }
}

/// Doubling reaches what is needed.
pub proof fn lemma_doubled(cap: nat, need: nat)
    requires
        cap > 0,
    ensures
        doubled(cap, need) >= need,
        doubled(cap, need) >= cap,
    decreases (if need > cap { need - cap } else { 0 }),
{
    if cap < need {
        lemma_doubled(2 * cap, need);
    }
}

/// The state of a vector store.
pub struct VecView {
    /// The width of every row; zero until a non-empty vector was stored.
    pub dim: nat,
    /// The identifier of each row.
    pub ids: Seq<Seq<char>>,
    /// The vector of each row.
    pub rows: Seq<Seq<u32>>,
    /// For each identifier, the row it occupies.
    pub id_to_row: Map<Seq<char>, usize>,
    /// The size of the buffer that holds the rows, in components.
    pub capacity: nat,
}

impl VecView {
    /// The state of a store that holds nothing.
    pub open spec fn empty() -> VecView {
        VecView {
            dim: 0,
            ids: Seq::empty(),
            rows: Seq::empty(),
            id_to_row: Map::empty(),
            capacity: 0,
        }
    }

    /// What every reachable state satisfies: each row has an identifier and
    /// a vector of the common width, the table of rows is the inverse of the
    /// list of identifiers, and the buffer holds all rows.
    pub open spec fn wf(self) -> bool {
        &&& self.rows.len() == self.ids.len()
        &&& forall|r: int| 0 <= r < self.rows.len() ==> (#[trigger] self.rows[r]).len() == self.dim
        &&& forall|x: Seq<char>| #[trigger]
            self.id_to_row.dom().contains(x) <==> self.ids.contains(x)
        &&& forall|r: int|
            0 <= r < self.ids.len() ==> self.id_to_row[#[trigger] self.ids[r]] == r
        &&& self.ids.len() * self.dim <= self.capacity
    }

    /// The width at which a vector of length `len` is stored: the store's
    /// width, or `len` itself while the store has none.
    pub open spec fn width_for(self, len: nat) -> nat {
        if self.dim == 0 {
            len
        } else {
            self.dim
        }
    }

    /// The vector stored for `id`.
    pub open spec fn vector_of(self, id: Seq<char>) -> Seq<u32> {
        self.rows[self.id_to_row[id] as int]
    }

    /// The state after a new row was appended for `id`. Where this gives the
    /// store its width, the rows of width zero that it holds become zero
    /// vectors of that width.
    pub open spec fn added(self, id: Seq<char>, v: Seq<u32>) -> VecView {
        let d = self.width_for(v.len());
        VecView {
            dim: d,
            ids: self.ids.push(id),
            rows: self.rows.map_values(|row: Seq<u32>| fit(row, d)).push(fit(v, d)),
            id_to_row: self.id_to_row.insert(id, self.ids.len() as usize),
            capacity: grown(self.capacity, (self.ids.len() + 1) * d),
        }
    }

    /// The state after the vector of `id` was replaced; for an unknown
    /// identifier, after a row was appended for it.
    pub open spec fn updated(self, id: Seq<char>, v: Seq<u32>) -> VecView {
        if self.ids.contains(id) {
            VecView { rows: self.rows.update(self.id_to_row[id] as int, fit(v, self.dim)), ..self }
        } else {
            self.added(id, v)
        }
    }

    /// The state after the row of `id` was removed: the last row takes its
    /// place and the list shrinks by one. An unknown identifier changes
    /// nothing.
    pub open spec fn removed(self, id: Seq<char>) -> VecView {
        if !self.ids.contains(id) {
            self
        } else {
            let r = self.id_to_row[id] as int;
            let last = self.ids.len() - 1;
            VecView {
                ids: self.ids.update(r, self.ids[last]).drop_last(),
                rows: self.rows.update(r, self.rows[last]).drop_last(),
                id_to_row: self.id_to_row.insert(self.ids[last], r as usize).remove(id),
                ..self
            }
        }
    }
}

/// In a well-formed state no identifier occupies two rows.
pub proof fn lemma_ids_distinct(v: VecView)
    requires
        v.wf(),
        v.ids.len() <= usize::MAX,
    ensures
        v.ids.no_duplicates(),
{
    assert forall|i: int, j: int| 0 <= i < v.ids.len() && 0 <= j < v.ids.len() && i != j implies v.ids[i] != v.ids[j] by {
        assert(v.id_to_row[v.ids[i]] == i);
        assert(v.id_to_row[v.ids[j]] == j);
    }
}

/// Appending a row for a new identifier keeps a state well formed.
pub proof fn lemma_added_wf(v: VecView, id: Seq<char>, vec: Seq<u32>)
    requires
        v.wf(),
        !v.ids.contains(id),
        v.ids.len() < usize::MAX,
    ensures
        v.added(id, vec).wf(),
{
    let w = v.added(id, vec);
    let d = v.width_for(vec.len());
    let n = v.ids.len() as int;
    assert forall|r: int| 0 <= r < w.rows.len() implies (#[trigger] w.rows[r]).len() == w.dim by {
        if r < n {
            assert(w.rows[r] == fit(v.rows[r], d));
        }
    }
    assert forall|x: Seq<char>| #[trigger] w.id_to_row.dom().contains(x) <==> w.ids.contains(x) by {
        if v.ids.contains(x) {
            let r = choose|r: int| 0 <= r < n && v.ids[r] == x;
            assert(w.ids[r] == x);
        }
        if x == id {
            assert(w.ids[n] == x);
        }
        if w.ids.contains(x) {
            let r = choose|r: int| 0 <= r < w.ids.len() && w.ids[r] == x;
            if r < n {
                assert(v.ids[r] == x);
                assert(v.ids.contains(x));
            }
        }
    }
    assert forall|r: int| 0 <= r < w.ids.len() implies w.id_to_row[#[trigger] w.ids[r]] == r by {
        if r < n {
            assert(w.ids[r] == v.ids[r]);
            assert(v.ids.contains(v.ids[r]));
        }
    }
    if (n + 1) * d > v.capacity {
        lemma_doubled(
            if v.capacity == 0 {
                1024
            } else {
                v.capacity
            },
            ((n + 1) * d) as nat,
        );
    }
}

/// Replacing a vector keeps a state well formed.
pub proof fn lemma_updated_wf(v: VecView, id: Seq<char>, vec: Seq<u32>)
    requires
        v.wf(),
        v.ids.contains(id) || v.ids.len() < usize::MAX,
    ensures
        v.updated(id, vec).wf(),
{
    if v.ids.contains(id) {
        let w = v.updated(id, vec);
        let r0 = v.id_to_row[id] as int;
        assert forall|r: int| 0 <= r < w.rows.len() implies (#[trigger] w.rows[r]).len() == w.dim by {
            if r != r0 {
                assert(w.rows[r] == v.rows[r]);
            }
        }
    } else {
        lemma_added_wf(v, id, vec);
    }
}

/// The row that a known identifier occupies.
pub proof fn lemma_row_of(v: VecView, id: Seq<char>)
    requires
        v.wf(),
        v.ids.len() <= usize::MAX,
        v.ids.contains(id),
    ensures
        0 <= v.id_to_row[id] < v.ids.len(),
        v.ids[v.id_to_row[id] as int] == id,
{
    let r = choose|r: int| 0 <= r < v.ids.len() && v.ids[r] == id;
    assert(v.id_to_row[v.ids[r]] == r);
}

/// Removing a row keeps a state well formed.
pub proof fn lemma_removed_wf(v: VecView, id: Seq<char>)
    requires
        v.wf(),
        v.ids.len() <= usize::MAX,
    ensures
        v.removed(id).wf(),
{
    if v.ids.contains(id) {
        let w = v.removed(id);
        lemma_row_of(v, id);
        lemma_ids_distinct(v);
        let r0 = v.id_to_row[id] as int;
        let last = v.ids.len() - 1;
        assert forall|r: int| 0 <= r < w.rows.len() implies (#[trigger] w.rows[r]).len() == w.dim by {
            if r != r0 {
                assert(w.rows[r] == v.rows[r]);
            } else {
                assert(w.rows[r] == v.rows[last]);
            }
        }
        assert forall|r: int| 0 <= r < w.ids.len() implies w.id_to_row[#[trigger] w.ids[r]] == r by {
            if r != r0 {
                assert(w.ids[r] == v.ids[r]);
                assert(v.ids[r] != v.ids[last]);
                assert(v.ids[r] != v.ids[r0]);
            } else {
                assert(w.ids[r] == v.ids[last]);
                assert(v.ids[last] != v.ids[r0]);
            }
        }
        assert forall|x: Seq<char>| #[trigger] w.id_to_row.dom().contains(x) <==> w.ids.contains(x) by {
            if w.ids.contains(x) {
                let r = choose|r: int| 0 <= r < w.ids.len() && w.ids[r] == x;
                if r != r0 {
                    assert(v.ids[r] == x);
                    assert(v.ids.contains(x));
                } else {
                    assert(v.ids[last] == x);
                }
            }
            if w.id_to_row.dom().contains(x) {
                assert(v.ids.contains(x));
                let r = choose|r: int| 0 <= r < v.ids.len() && v.ids[r] == x;
                assert(r != r0);
                if r == last {
                    assert(w.ids[r0] == x);
                } else {
                    assert(w.ids[r] == x);
                }
            }
        }
        assert(w.ids.len() * w.dim <= v.ids.len() * v.dim) by (nonlinear_arith)
            requires
                w.ids.len() <= v.ids.len(),
                w.dim == v.dim,
        ;
    }
}

/// Removing a row a second time changes nothing.
pub proof fn lemma_removed_twice(v: VecView, id: Seq<char>)
    requires
        v.wf(),
        v.ids.len() <= usize::MAX,
    ensures
        v.removed(id).removed(id) == v.removed(id),
{
    if v.ids.contains(id) {
        lemma_removed_wf(v, id);
        let w = v.removed(id);
        assert(!w.id_to_row.dom().contains(id));
    }
}

} // verus!
