//! What holds of the index whatever is done with it.

use crate::index_model::{union_of, IndexView};
use crate::rank::ids_of;
use crate::seqs::{distinct, lemma_distinct};
use crate::vectors_model::{
    fit, lemma_added_wf, lemma_ids_distinct, lemma_removed_wf, lemma_row_of, VecView,
};
use vstd::prelude::*;

verus! {

/// The first occurrences of `a` open the first occurrences of `a + b`.
pub proof fn lemma_distinct_prefix(a: Seq<Seq<char>>, b: Seq<Seq<char>>)
    ensures
        distinct(a).len() <= distinct(a + b).len(),
        distinct(a + b).take(distinct(a).len() as int) == distinct(a),
    decreases b.len(),
{
    if b.len() == 0 {
        assert(a + b =~= a);
        assert(distinct(a).take(distinct(a).len() as int) =~= distinct(a));
    } else {
        let rest = b.drop_last();
        lemma_distinct_prefix(a, rest);
        assert((a + b).drop_last() =~= a + rest);
        assert((a + b).last() == b.last());
        let d = distinct(a + rest);
        if !(a + rest).contains(b.last()) {
            assert(d.push(b.last()).take(distinct(a).len() as int) =~= d.take(
                distinct(a).len() as int,
            ));
        }
    }
}

/// In the union of two rankings no identifier stands twice, and an
/// identifier that the first ranking produced stands before every
/// identifier that only the second produced.
pub proof fn lemma_union_order(bm: Seq<(Seq<char>, u64)>, knn: Seq<(Seq<char>, u64)>)
    ensures
        union_of(bm, knn).no_duplicates(),
        forall|x: Seq<char>| #[trigger]
            union_of(bm, knn).contains(x) <==> ids_of(bm).contains(x) || ids_of(knn).contains(x),
        forall|i: int, j: int|
            0 <= i < union_of(bm, knn).len() && 0 <= j < union_of(bm, knn).len() && ids_of(
                bm,
            ).contains(#[trigger] union_of(bm, knn)[i]) && !ids_of(bm).contains(
                #[trigger] union_of(bm, knn)[j],
            ) ==> i < j,
{
    let a = ids_of(bm);
    let b = ids_of(knn);
    let out = union_of(bm, knn);
    let da = distinct(a);
    lemma_distinct(a + b);
    lemma_distinct(a);
    lemma_distinct_prefix(a, b);
    assert forall|x: Seq<char>| #[trigger] out.contains(x) <==> a.contains(x) || b.contains(
        x,
    ) by {
        if a.contains(x) {
            let i = choose|i: int| 0 <= i < a.len() && a[i] == x;
            assert((a + b)[i] == x);
        }
        if b.contains(x) {
            let i = choose|i: int| 0 <= i < b.len() && b[i] == x;
            assert((a + b)[a.len() + i] == x);
        }
        if (a + b).contains(x) {
            let i = choose|i: int| 0 <= i < (a + b).len() && (a + b)[i] == x;
            if i < a.len() {
                assert(a[i] == x);
            } else {
                assert(b[i - a.len()] == x);
            }
        }
    }
    assert forall|i: int, j: int|
        0 <= i < out.len() && 0 <= j < out.len() && a.contains(#[trigger] out[i]) && !a.contains(
            #[trigger] out[j],
        ) implies i < j by {
        if i >= da.len() {
            assert(da.contains(out[i]));
            let p = choose|p: int| 0 <= p < da.len() && da[p] == out[i];
            assert(out.take(da.len() as int)[p] == out[p]);
        }
        if j < da.len() {
            assert(out.take(da.len() as int)[j] == out[j]);
            assert(da.contains(da[j]));
        }
    }
}

/// Two stores hold the same vectors under the same identifiers, in rows of
/// the same width and a buffer of the same size; the order of the rows may
/// differ.
pub open spec fn same_rows(a: VecView, b: VecView) -> bool {
    &&& a.dim == b.dim
    &&& a.capacity == b.capacity
    &&& a.ids.len() == b.ids.len()
    &&& forall|x: Seq<char>| a.ids.contains(x) <==> b.ids.contains(x)
    &&& forall|x: Seq<char>| a.ids.contains(x) ==> a.vector_of(x) == b.vector_of(x)
}

/// Replacing the vector of a known identifier gives the store that removing
/// the identifier and adding it again gives, up to the order of the rows.
/// This is stated for a store that has its width, or a vector without
/// components: a store without width takes its width from an added vector
/// but not from a replaced one.
pub proof fn lemma_vector_update_is_remove_add(v: VecView, id: Seq<char>, vec: Seq<u32>)
    requires
        v.wf(),
        v.ids.len() <= usize::MAX,
        v.ids.contains(id),
        v.dim > 0 || vec.len() == 0,
    ensures
        same_rows(v.updated(id, vec), v.removed(id).added(id, vec)),
{
    let u = v.updated(id, vec);
    let m = v.removed(id);
    let w = m.added(id, vec);
    lemma_row_of(v, id);
    lemma_ids_distinct(v);
    lemma_removed_wf(v, id);
    let r0 = v.id_to_row[id] as int;
    let last = v.ids.len() - 1;
    let d = v.dim;
    assert(m.width_for(vec.len()) == d);
    assert(!m.ids.contains(id)) by {
        assert(!m.id_to_row.dom().contains(id));
    }
    lemma_added_wf(m, id, vec);
    assert(m.rows.map_values(|row: Seq<u32>| fit(row, d)) =~= m.rows) by {
        assert forall|r: int| 0 <= r < m.rows.len() implies fit(#[trigger] m.rows[r], d)
            == m.rows[r] by {
            assert(m.rows[r].len() == d);
            assert(fit(m.rows[r], d) =~= m.rows[r]);
        }
    }
    assert((m.ids.len() + 1) * d <= v.capacity) by {
        assert(m.ids.len() + 1 == v.ids.len());
    }
    assert forall|x: Seq<char>| u.ids.contains(x) <==> w.ids.contains(x) by {
        if x == id {
            assert(w.ids[last] == id);
        } else {
            if v.ids.contains(x) {
                assert(m.id_to_row.dom().contains(x));
                assert(m.ids.contains(x));
                let r = choose|r: int| 0 <= r < m.ids.len() && m.ids[r] == x;
                assert(w.ids[r] == x);
            }
            if w.ids.contains(x) {
                let r = choose|r: int| 0 <= r < w.ids.len() && w.ids[r] == x;
                assert(m.ids[r] == x);
                assert(m.ids.contains(x));
                assert(m.id_to_row.dom().contains(x));
            }
        }
    }
    assert forall|x: Seq<char>| u.ids.contains(x) implies u.vector_of(x) == w.vector_of(x) by {
        lemma_row_of(v, x);
        let r = v.id_to_row[x] as int;
        if x == id {
            assert(w.rows[last] == fit(vec, d));
        } else if x == v.ids[last] {
            assert(r == last);
            assert(w.id_to_row[x] == r0);
            assert(w.rows[r0] == m.rows[r0]);
        } else {
            assert(r != r0);
            assert(r != last);
            assert(w.id_to_row[x] == r);
            assert(w.rows[r] == m.rows[r]);
        }
    }
}

/// Replacing a document gives the state that removing it and adding it
/// again gives: the same on the lexical side, and the same up to the order
/// of the rows on the vector side. Left out is the replacement of a row by a
/// vector that has components while the store still has no width: replacing
/// then stores nothing, while adding gives the store its width.
pub proof fn lemma_update_is_remove_add(
    v: IndexView,
    id: Seq<char>,
    terms: Seq<Seq<char>>,
    vec: Seq<u32>,
)
    requires
        v.wf(),
        v.vectors.ids.contains(id) ==> v.vectors.dim > 0 || vec.len() == 0,
    ensures
        v.updated(id, terms, vec).text == v.removed(id).added(id, terms, vec).text,
        same_rows(v.updated(id, terms, vec).vectors, v.removed(id).added(id, terms, vec).vectors),
{
    if v.vectors.ids.contains(id) {
        lemma_vector_update_is_remove_add(v.vectors, id, vec);
    }
}

/// Removing a document a second time changes nothing.
pub proof fn lemma_remove_idempotent(v: IndexView, id: Seq<char>)
    requires
        v.wf(),
    ensures
        v.removed(id).removed(id) == v.removed(id),
{
    crate::bm25_model::lemma_removed_twice(v.text, id);
    crate::vectors_model::lemma_removed_twice(v.vectors, id);
}

/// An index that holds nothing is well formed, and its two sides are in
/// step.
pub proof fn lemma_empty()
    ensures
        IndexView::empty().wf(),
        IndexView::empty().in_step(),
{
    let v = IndexView::empty();
    assert(v.text.doc_len.dom() =~= v.text.docs);
    assert(v.text.doc_terms.dom() =~= v.text.docs);
    assert(crate::bm25_model::sum_len(v.text.doc_len) == 0);
}

/// Adding a new document that fits keeps the state well formed: the total
/// stays the sum of the lengths, no posting list is empty, and the table of
/// rows stays the inverse of the list of identifiers.
pub proof fn lemma_added_keeps_wf(v: IndexView, id: Seq<char>, terms: Seq<Seq<char>>, vec: Seq<u32>)
    requires
        v.wf(),
        !v.contains(id),
        v.fits(terms, vec),
    ensures
        v.added(id, terms, vec).wf(),
{
    crate::bm25_model::lemma_added_wf(v.text, id, terms);
    crate::bm25_model::lemma_added_balanced(v.text, id, terms);
    lemma_added_wf(v.vectors, id, vec);
}

/// Replacing a document that fits keeps the state well formed.
pub proof fn lemma_updated_keeps_wf(
    v: IndexView,
    id: Seq<char>,
    terms: Seq<Seq<char>>,
    vec: Seq<u32>,
)
    requires
        v.wf(),
        v.fits_update(id, terms, vec),
    ensures
        v.updated(id, terms, vec).wf(),
{
    let t = v.text.removed(id);
    crate::bm25_model::lemma_removed_wf(v.text, id);
    crate::bm25_model::lemma_removed_balanced(v.text, id);
    crate::bm25_model::lemma_added_wf(t, id, terms);
    crate::bm25_model::lemma_added_balanced(t, id, terms);
    crate::vectors_model::lemma_updated_wf(v.vectors, id, vec);
}

/// Removing a document keeps the state well formed.
pub proof fn lemma_removed_keeps_wf(v: IndexView, id: Seq<char>)
    requires
        v.wf(),
    ensures
        v.removed(id).wf(),
{
    crate::bm25_model::lemma_removed_wf(v.text, id);
    crate::bm25_model::lemma_removed_balanced(v.text, id);
    lemma_removed_wf(v.vectors, id);
}

/// Where both sides hold the same documents, they hold equally many, and
/// the table of rows has as many entries.
pub proof fn lemma_in_step_counts(v: IndexView)
    requires
        v.wf(),
        v.in_step(),
    ensures
        v.text.docs.len() == v.vectors.ids.len(),
        v.vectors.id_to_row.dom().len() == v.vectors.ids.len(),
{
    let ids = v.vectors.ids;
    lemma_ids_distinct(v.vectors);
    ids.unique_seq_to_set();
    assert(v.text.docs =~= ids.to_set());
    assert(v.vectors.id_to_row.dom() =~= ids.to_set());
}

/// Adding a document whose text has a term keeps the two sides in step.
pub proof fn lemma_added_in_step(v: IndexView, id: Seq<char>, terms: Seq<Seq<char>>, vec: Seq<u32>)
    requires
        v.in_step(),
        terms.len() > 0,
    ensures
        v.added(id, terms, vec).in_step(),
{
    let w = v.added(id, terms, vec);
    lemma_pushed(v.vectors.ids, id);
}

/// A sequence with one more item holds that item and what it held before.
proof fn lemma_pushed(s: Seq<Seq<char>>, x: Seq<char>)
    ensures
        forall|y: Seq<char>| #[trigger] s.push(x).contains(y) <==> s.contains(y) || y == x,
{
    assert forall|y: Seq<char>| #[trigger] s.push(x).contains(y) <==> s.contains(y) || y
        == x by {
        if s.contains(y) {
            let i = choose|i: int| 0 <= i < s.len() && s[i] == y;
            assert(s.push(x)[i] == y);
        }
        if y == x {
            assert(s.push(x)[s.len() as int] == y);
        }
        if s.push(x).contains(y) {
            let i = choose|i: int| 0 <= i < s.push(x).len() && s.push(x)[i] == y;
            if i < s.len() {
                assert(s[i] == y);
            }
        }
    }
}

/// Replacing a document by one whose text has a term keeps the two sides in
/// step.
pub proof fn lemma_updated_in_step(
    v: IndexView,
    id: Seq<char>,
    terms: Seq<Seq<char>>,
    vec: Seq<u32>,
)
    requires
        v.in_step(),
        terms.len() > 0,
    ensures
        v.updated(id, terms, vec).in_step(),
{
    lemma_pushed(v.vectors.ids, id);
}

/// Removing a document keeps the two sides in step.
pub proof fn lemma_removed_in_step(v: IndexView, id: Seq<char>)
    requires
        v.wf(),
        v.in_step(),
    ensures
        v.removed(id).in_step(),
{
    lemma_removed_wf(v.vectors, id);
    let w = v.removed(id);
    assert forall|d: Seq<char>| w.text.docs.contains(d) <==> w.vectors.ids.contains(d) by {
        assert(w.vectors.id_to_row.dom().contains(d) <==> w.vectors.ids.contains(d));
        assert(v.vectors.id_to_row.dom().contains(d) <==> v.vectors.ids.contains(d));
        if v.vectors.ids.contains(id) {
            lemma_row_of(v.vectors, id);
        }
    }
}

/// Adding a document leaves alone what a term that it does not hold
/// contributes for the other documents: their hits for that term, with term
/// frequency and document frequency, and their lengths stay as they were.
/// What changes for them is the number of documents and the average length.
pub proof fn lemma_added_keeps_hits(
    v: IndexView,
    id: Seq<char>,
    terms: Seq<Seq<char>>,
    vec: Seq<u32>,
    term: Seq<char>,
    doc: Seq<char>,
)
    requires
        !terms.contains(term),
        doc != id,
    ensures
        v.added(id, terms, vec).text.hits(seq![term], doc) == v.text.hits(seq![term], doc),
        v.added(id, terms, vec).text.length_of(doc) == v.text.length_of(doc),
{
    let w = v.added(id, terms, vec).text;
    let q = seq![term];
    assert(q.last() == term);
    assert(q.drop_last() =~= Seq::<Seq<char>>::empty());
    assert(w.hits(q.drop_last(), doc) =~= v.text.hits(q.drop_last(), doc));
    if terms.len() > 0 {
        assert(w.matches(term, doc) == v.text.matches(term, doc));
    }
}

} // verus!
