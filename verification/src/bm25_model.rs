//! The BM25 index as a mathematical value.
//!
//! The state is a handful of maps and a running total; adding and removing a
//! document are functions from state to state. The contracts of the
//! executable index are written in these terms, and what holds of every
//! reachable state is proved here once.

use crate::seqs::{count_of, distinct, lemma_count_of};
use vstd::prelude::*;

verus! {

/// The sum of the lengths recorded in a finite table of document lengths.
pub open spec fn sum_len(m: Map<Seq<char>, u32>) -> nat
    decreases m.dom().len(),
    when m.dom().finite()
{
    if m.dom().len() == 0 {
        0
    } else {
        let k = m.dom().choose();
        m[k] as nat + sum_len(m.remove(k))
    }
}

/// The sum can be taken by setting any one document aside first.
pub proof fn lemma_sum_len_remove(m: Map<Seq<char>, u32>, k: Seq<char>)
    requires
        m.dom().finite(),
        m.dom().contains(k),
    ensures
        sum_len(m) == m[k] as nat + sum_len(m.remove(k)),
    decreases m.dom().len(),
{
    let c = m.dom().choose();
    if m.dom().len() == 0 {
        assert(false);
    }
    if c != k {
        lemma_sum_len_remove(m.remove(c), k);
        lemma_sum_len_remove(m.remove(k), c);
        assert(m.remove(c).remove(k) =~= m.remove(k).remove(c));
    }
}

/// Recording a new document adds its length to the sum.
pub proof fn lemma_sum_len_insert(m: Map<Seq<char>, u32>, k: Seq<char>, v: u32)
    requires
        m.dom().finite(),
        !m.dom().contains(k),
    ensures
        sum_len(m.insert(k, v)) == sum_len(m) + v,
{
    lemma_sum_len_remove(m.insert(k, v), k);
    assert(m.insert(k, v).remove(k) =~= m);
}

/// The state of a BM25 index.
pub struct Bm25View {
    /// For each term, the documents that hold it, each with its term
    /// frequency.
    pub postings: Map<Seq<char>, Map<Seq<char>, u32>>,
    /// For each document, its length in terms.
    pub doc_len: Map<Seq<char>, u32>,
    /// For each document, its distinct terms.
    pub doc_terms: Map<Seq<char>, Seq<Seq<char>>>,
    /// The documents that are indexed.
    pub docs: Set<Seq<char>>,
    /// The running total of document lengths.
    pub total_len: nat,
}

impl Bm25View {
    /// The state of an index that holds nothing.
    pub open spec fn empty() -> Bm25View {
        Bm25View {
            postings: Map::empty(),
            doc_len: Map::empty(),
            doc_terms: Map::empty(),
            docs: Set::empty(),
            total_len: 0,
        }
    }

    /// The posting list of a term; empty for a term outside the vocabulary.
    pub open spec fn posting(self, term: Seq<char>) -> Map<Seq<char>, u32> {
        if self.postings.dom().contains(term) {
            self.postings[term]
        } else {
            Map::empty()
        }
    }

    /// What every reachable state satisfies: the three per-document tables
    /// list the same finite set of documents, no posting list is empty, and
    /// every term frequency is positive.
    pub open spec fn wf(self) -> bool {
        &&& self.docs.finite()
        &&& self.doc_len.dom() == self.docs
        &&& self.doc_terms.dom() == self.docs
        &&& forall|t: Seq<char>| #[trigger]
            self.postings.dom().contains(t) ==> self.postings[t].dom().finite()
                && self.postings[t].dom().len() > 0
        &&& forall|t: Seq<char>, d: Seq<char>|
            self.postings.dom().contains(t) && #[trigger] self.postings[t].dom().contains(d)
                ==> self.postings[t][d] > 0
    }

    /// The running total is the sum of the recorded document lengths.
    pub open spec fn balanced(self) -> bool {
        self.total_len == sum_len(self.doc_len)
    }

    /// The state after `doc` was added with the given terms. Without terms
    /// nothing changes. Otherwise each of the terms gets `doc` with its
    /// frequency in its posting list, over an earlier entry of `doc` if there
    /// is one; posting lists of other terms are left as they are, also where
    /// they still name `doc` from an earlier addition.
    pub open spec fn added(self, doc: Seq<char>, terms: Seq<Seq<char>>) -> Bm25View {
        if terms.len() == 0 {
            self
        } else {
            Bm25View {
                postings: Map::new(
                    |t: Seq<char>| self.postings.dom().contains(t) || terms.contains(t),
                    |t: Seq<char>|
                        if terms.contains(t) {
                            self.posting(t).insert(doc, count_of(terms, t) as u32)
                        } else {
                            self.postings[t]
                        },
                ),
                doc_len: self.doc_len.insert(doc, terms.len() as u32),
                doc_terms: self.doc_terms.insert(doc, distinct(terms)),
                docs: self.docs.insert(doc),
                total_len: self.total_len + terms.len(),
            }
        }
    }

    /// Whether removing `doc` empties the posting list of `term`.
    pub open spec fn emptied(self, doc: Seq<char>, term: Seq<char>) -> bool {
        self.doc_terms[doc].contains(term) && self.postings[term].remove(doc).dom().len() == 0
    }

    /// The state after `doc` was removed. An unknown document changes
    /// nothing. Otherwise `doc` leaves the posting list of each of its terms,
    /// a term whose list becomes empty leaves the vocabulary, the total drops
    /// by the document's length, but not below zero, and the document leaves
    /// the per-document tables.
    pub open spec fn removed(self, doc: Seq<char>) -> Bm25View {
        if !self.docs.contains(doc) {
            self
        } else {
            Bm25View {
                postings: Map::new(
                    |t: Seq<char>| self.postings.dom().contains(t) && !self.emptied(doc, t),
                    |t: Seq<char>|
                        if self.doc_terms[doc].contains(t) {
                            self.postings[t].remove(doc)
                        } else {
                            self.postings[t]
                        },
                ),
                doc_len: self.doc_len.remove(doc),
                doc_terms: self.doc_terms.remove(doc),
                docs: self.docs.remove(doc),
                total_len: if self.total_len >= self.doc_len[doc] {
                    (self.total_len - self.doc_len[doc]) as nat
                } else {
                    0
                },
            }
        }
    }
}

/// A finite set with a member is not of size zero.
proof fn lemma_member_counts(s: Set<Seq<char>>, x: Seq<char>)
    requires
        s.finite(),
        s.contains(x),
    ensures
        s.len() > 0,
{
    if s.len() == 0 {
        assert(s =~= Set::empty()) by {
            s.lemma_len0_is_empty();
        }
    }
}

/// Adding a document keeps a state well formed.
pub proof fn lemma_added_wf(v: Bm25View, doc: Seq<char>, terms: Seq<Seq<char>>)
    requires
        v.wf(),
        terms.len() <= u32::MAX,
    ensures
        v.added(doc, terms).wf(),
{
    let w = v.added(doc, terms);
    if terms.len() > 0 {
        assert(w.doc_len.dom() =~= w.docs);
        assert(w.doc_terms.dom() =~= w.docs);
        assert forall|t: Seq<char>| #[trigger] w.postings.dom().contains(t) implies w.postings[t].dom().finite()
            && w.postings[t].dom().len() > 0 by {
            if terms.contains(t) {
                assert(v.posting(t).dom().finite());
                lemma_member_counts(w.postings[t].dom(), doc);
            }
        }
        assert forall|t: Seq<char>, d: Seq<char>|
            w.postings.dom().contains(t) && #[trigger] w.postings[t].dom().contains(
                d,
            ) implies w.postings[t][d] > 0 by {
            if terms.contains(t) {
                lemma_count_of(terms, t);
                if d != doc {
                    assert(v.postings.dom().contains(t));
                    assert(v.postings[t].dom().contains(d));
                }
            }
        }
    }
}

/// Adding a document that is not yet indexed keeps the total in balance.
pub proof fn lemma_added_balanced(v: Bm25View, doc: Seq<char>, terms: Seq<Seq<char>>)
    requires
        v.wf(),
        v.balanced(),
        !v.docs.contains(doc),
        terms.len() <= u32::MAX,
    ensures
        v.added(doc, terms).balanced(),
{
    if terms.len() > 0 {
        lemma_sum_len_insert(v.doc_len, doc, terms.len() as u32);
    }
}

/// Removing a document keeps a state well formed.
pub proof fn lemma_removed_wf(v: Bm25View, doc: Seq<char>)
    requires
        v.wf(),
    ensures
        v.removed(doc).wf(),
{
    let w = v.removed(doc);
    if v.docs.contains(doc) {
        assert(w.doc_len.dom() =~= w.docs);
        assert(w.doc_terms.dom() =~= w.docs);
        assert forall|t: Seq<char>| #[trigger] w.postings.dom().contains(t) implies w.postings[t].dom().finite()
            && w.postings[t].dom().len() > 0 by {
            assert(v.postings.dom().contains(t));
        }
        assert forall|t: Seq<char>, d: Seq<char>|
            w.postings.dom().contains(t) && #[trigger] w.postings[t].dom().contains(
                d,
            ) implies w.postings[t][d] > 0 by {
            assert(v.postings.dom().contains(t));
            assert(v.postings[t].dom().contains(d));
        }
    }
}

/// Removing a document keeps the total in balance.
pub proof fn lemma_removed_balanced(v: Bm25View, doc: Seq<char>)
    requires
        v.wf(),
        v.balanced(),
    ensures
        v.removed(doc).balanced(),
{
    if v.docs.contains(doc) {
        lemma_sum_len_remove(v.doc_len, doc);
    }
}

/// Removing a document a second time changes nothing.
pub proof fn lemma_removed_twice(v: Bm25View, doc: Seq<char>)
    ensures
        v.removed(doc).removed(doc) == v.removed(doc),
{
}

/// What one query term contributes to the score of one document: the term's
/// frequency in the document and the number of documents that hold the term.
#[derive(Clone, Copy, Debug, PartialEq, Eq)]
pub struct TermHit {
    /// How often the term occurs in the document.
    pub tf: u32,
    /// How many documents hold the term.
    pub df: usize,
}

/// A document that matches a query, as a value.
pub struct CandidateView {
    /// The document.
    pub id: Seq<char>,
    /// Its length in terms; zero if none is recorded.
    pub doc_len: u32,
    /// One hit for each query term that the document holds, in query order.
    pub hits: Seq<TermHit>,
}

impl Bm25View {
    /// Whether `doc` is in the posting list of `term`.
    pub open spec fn matches(self, term: Seq<char>, doc: Seq<char>) -> bool {
        self.postings.dom().contains(term) && self.postings[term].dom().contains(doc)
    }

    /// What `term` contributes for `doc`, where they match.
    pub open spec fn hit(self, term: Seq<char>, doc: Seq<char>) -> TermHit {
        TermHit { tf: self.postings[term][doc], df: self.postings[term].dom().len() as usize }
    }

    /// The hits of `doc` for the query terms `q`, in the order of `q`.
    pub open spec fn hits(self, q: Seq<Seq<char>>, doc: Seq<char>) -> Seq<TermHit>
        decreases q.len(),
    {
        if q.len() == 0 {
            Seq::empty()
        } else if self.matches(q.last(), doc) {
            self.hits(q.drop_last(), doc).push(self.hit(q.last(), doc))
        } else {
            self.hits(q.drop_last(), doc)
        }
    }

    /// The recorded length of `doc`, or zero.
    pub open spec fn length_of(self, doc: Seq<char>) -> u32 {
        if self.doc_len.dom().contains(doc) {
            self.doc_len[doc]
        } else {
            0
        }
    }

    /// `c` lists the documents that match the query terms `q`: every document
    /// that holds at least one of the terms, once, with its length and its
    /// hits. The order of the list is left open. An index without documents
    /// has no candidates.
    pub open spec fn is_candidates(self, q: Seq<Seq<char>>, c: Seq<CandidateView>) -> bool {
        if self.docs.len() == 0 {
            c.len() == 0
        } else {
            &&& forall|i: int, j: int| 0 <= i < j < c.len() ==> (#[trigger] c[i]).id != (#[trigger] c[j]).id
            &&& forall|i: int|
                0 <= i < c.len() ==> (#[trigger] c[i]).hits == self.hits(q, c[i].id)
                    && c[i].hits.len() > 0 && c[i].doc_len == self.length_of(c[i].id)
            &&& forall|d: Seq<char>|
                (#[trigger] self.hits(q, d)).len() > 0 ==> exists|i: int|
                    0 <= i < c.len() && (#[trigger] c[i]).id == d
        }
    }
}

/// A document has hits exactly if it matches one of the query terms.
pub proof fn lemma_hits_nonempty(v: Bm25View, q: Seq<Seq<char>>, doc: Seq<char>)
    ensures
        v.hits(q, doc).len() > 0 <==> exists|a: int| 0 <= a < q.len() && v.matches(#[trigger] q[a], doc),
    decreases q.len(),
{
    if q.len() > 0 {
        let r = q.drop_last();
        lemma_hits_nonempty(v, r, doc);
        if v.matches(q.last(), doc) {
            assert(v.matches(q[q.len() - 1], doc));
        } else if v.hits(r, doc).len() > 0 {
            let a = choose|a: int| 0 <= a < r.len() && v.matches(#[trigger] r[a], doc);
            assert(v.matches(q[a], doc));
        } else if exists|a: int| 0 <= a < q.len() && v.matches(#[trigger] q[a], doc) {
            let a = choose|a: int| 0 <= a < q.len() && v.matches(#[trigger] q[a], doc);
            assert(v.matches(r[a], doc));
        }
    }
}

} // verus!
