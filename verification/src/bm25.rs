//! The BM25 inverted index.
//!
//! Postings, document lengths and the per-document term lists are kept in
//! hash tables and maintained as documents come and go. Scoring itself is
//! floating-point work and is left to the caller: for a query the index
//! hands out, for each matching document, the integers that the BM25 formula
//! needs.

use crate::bm25_model::{
    lemma_added_balanced, lemma_added_wf, lemma_hits_nonempty, lemma_removed_balanced,
    lemma_removed_wf, Bm25View, CandidateView, TermHit,
};
use crate::rank::{is_ranking, is_top_k, pair_views, picked, scores_of, top_of, PairIdScore};
use crate::seqs::{count_of, dedup, distinct, lemma_count_of, lemma_distinct};
use crate::tables::{
    counts, counts_entries, counts_get, counts_insert, counts_len, counts_new, counts_remove,
    lists, lists_get, lists_insert, lists_new, lists_remove, members, members_contains,
    members_insert, members_len, members_new, members_remove, words, words_insert, words_new,
    words_remove,
};
use crate::text::{terms_of, tokenize, views};
use ahash::AHashMap;
use ahash::AHashSet;
use vstd::prelude::*;

verus! {

/// An inverted index over tokenized documents.
pub struct BM25Index {
    postings: AHashMap<String, AHashMap<String, u32>>,
    doc_len: AHashMap<String, u32>,
    doc_terms: AHashMap<String, Vec<String>>,
    total_len: u64,
    docs: AHashSet<String>,
}

impl View for BM25Index {
    type V = Bm25View;

    closed spec fn view(&self) -> Bm25View {
        Bm25View {
            postings: lists(self.postings),
            doc_len: counts(self.doc_len),
            doc_terms: words(self.doc_terms),
            docs: members(self.docs),
            total_len: self.total_len as nat,
        }
    }
}

impl BM25Index {
    /// An index that holds nothing.
    pub fn new() -> (index: BM25Index)
        ensures
            index@ == Bm25View::empty(),
            index@.wf(),
            index@.balanced(),
    {
        let index = BM25Index {
            postings: lists_new(),
            doc_len: counts_new(),
            doc_terms: words_new(),
            total_len: 0,
            docs: members_new(),
        };
        proof {
            assert(index@.postings =~= Map::empty());
            assert(index@.doc_len =~= Map::empty());
            assert(index@.doc_terms =~= Map::empty());
            assert(index@.docs =~= Set::empty());
        }
        index
    }

    /// The running total is held in a 64-bit counter.
    pub proof fn lemma_total_bounded(&self)
        ensures
            self@.total_len <= u64::MAX,
    {
    }

    /// The running total of document lengths.
    pub fn total_len(&self) -> (n: u64)
        ensures
            n == self@.total_len,
    {
        self.total_len
    }

    /// Whether `doc_id` is indexed.
    pub fn contains(&self, doc_id: &str) -> (r: bool)
        ensures
            r == self@.docs.contains(doc_id@),
    {
        members_contains(&self.docs, doc_id)
    }

    /// Indexes `text` under `doc_id`. A text without terms leaves the index
    /// as it is. The index is meant to hold each document once: adding an
    /// identifier that is already indexed overwrites the postings of the new
    /// terms but leaves those of the old ones, and counts the length twice.
    pub fn add(&mut self, doc_id: &str, text: &str)
        requires
            old(self)@.wf(),
            terms_of(text@).len() <= u32::MAX,
            old(self)@.total_len + terms_of(text@).len() <= u64::MAX,
        ensures
            final(self)@ == old(self)@.added(doc_id@, terms_of(text@)),
            final(self)@.wf(),
            old(self)@.balanced() && !old(self)@.docs.contains(doc_id@) ==> final(self)@.balanced(),
    {
        let terms: Vec<String> = tokenize(text);
        assert(views(terms@).len() == terms@.len());
        self.add_terms(doc_id, terms);
    }

    /// Indexes a document that is already split into terms; see `add`.
    pub fn add_terms(&mut self, doc_id: &str, terms: Vec<String>)
        requires
            old(self)@.wf(),
            terms@.len() <= u32::MAX,
            old(self)@.total_len + terms@.len() <= u64::MAX,
        ensures
            final(self)@ == old(self)@.added(doc_id@, views(terms@)),
            final(self)@.wf(),
            old(self)@.balanced() && !old(self)@.docs.contains(doc_id@) ==> final(self)@.balanced(),
    {
        proof {
            if self@.balanced() && !self@.docs.contains(doc_id@) {
                lemma_added_balanced(self@, doc_id@, views(terms@));
            }
        }
        let ghost v0 = self@;
        let ghost ts = views(terms@);
        let n: usize = terms.len();
        assert(views(terms@).len() == n);
        if n == 0 {
            return ;
        }
        // term frequencies, and the distinct terms in order of appearance
        let mut tf: AHashMap<String, u32> = counts_new();
        let mut uniq: Vec<String> = Vec::new();
        let mut i: usize = 0;
        assert(views(uniq@) =~= distinct(ts.take(0)));
        while i < n
            invariant
                ts == views(terms@),
                n == terms@.len(),
                n <= u32::MAX,
                i <= n,
                views(uniq@) == distinct(ts.take(i as int)),
                forall|t: Seq<char>| #[trigger]
                    counts(tf).dom().contains(t) <==> ts.take(i as int).contains(t),
                forall|t: Seq<char>| #[trigger]
                    counts(tf).dom().contains(t) ==> counts(tf)[t] == count_of(
                        ts.take(i as int),
                        t,
                    ),
            decreases n - i,
        {
            let term: String = terms[i].clone();
            let ghost before = ts.take(i as int);
            let ghost next = ts.take(i + 1);
            let ghost done = views(uniq@);
            let ghost tf0 = counts(tf);
            proof {
                assert(next.drop_last() =~= before);
                assert(next.last() == term@);
                lemma_count_of(before, term@);
            }
            match counts_get(&tf, term.as_str()) {
                Some(c) => {
                    counts_insert(&mut tf, term, c + 1);
                },
                None => {
                    uniq.push(term.clone());
                    assert(views(uniq@) =~= done.push(term@));
                    counts_insert(&mut tf, term, 1);
                },
            }
            proof {
                assert forall|t: Seq<char>| #[trigger]
                    counts(tf).dom().contains(t) <==> next.contains(t) by {
                    if next.contains(t) {
                        let j = choose|j: int| 0 <= j < next.len() && next[j] == t;
                        if j < i {
                            assert(before[j] == t);
                        }
                    }
                    if before.contains(t) {
                        let j = choose|j: int| 0 <= j < before.len() && before[j] == t;
                        assert(next[j] == t);
                    }
                    if t == term@ {
                        assert(next[i as int] == t);
                    }
                }
                assert forall|t: Seq<char>| #[trigger]
                    counts(tf).dom().contains(t) implies counts(tf)[t] == count_of(
                    next,
                    t,
                ) by {
                    if t != term@ {
                        assert(tf0.dom().contains(t));
                    }
                }
            }
            i = i + 1;
        }
        assert(ts.take(n as int) =~= ts);
        proof {
            lemma_distinct(ts);
        }
        // each distinct term gets the document in its posting list
        let ghost us = views(uniq@);
        let m: usize = uniq.len();
        let mut j: usize = 0;
        while j < m
            invariant
                us == views(uniq@),
                us == distinct(ts),
                us.no_duplicates(),
                forall|x: Seq<char>| #[trigger] us.contains(x) <==> ts.contains(x),
                m == uniq@.len(),
                j <= m,
                forall|t: Seq<char>| #[trigger]
                    counts(tf).dom().contains(t) <==> ts.contains(t),
                forall|t: Seq<char>| #[trigger]
                    counts(tf).dom().contains(t) ==> counts(tf)[t] == count_of(ts, t),
                counts(self.doc_len) == v0.doc_len,
                words(self.doc_terms) == v0.doc_terms,
                members(self.docs) == v0.docs,
                self.total_len == v0.total_len,
                lists(self.postings) =~= Map::new(
                    |t: Seq<char>| v0.postings.dom().contains(t) || us.take(j as int).contains(t),
                    |t: Seq<char>|
                        if us.take(j as int).contains(t) {
                            v0.posting(t).insert(doc_id@, count_of(ts, t) as u32)
                        } else {
                            v0.postings[t]
                        },
                ),
            decreases m - j,
        {
            let term: String = uniq[j].clone();
            let ghost before = us.take(j as int);
            let ghost next = us.take(j + 1);
            let ghost lists0 = lists(self.postings);
            proof {
                assert(us[j as int] == term@);
                assert(us.contains(term@));
                assert(!before.contains(term@)) by {
                    if before.contains(term@) {
                        let w = choose|w: int| 0 <= w < before.len() && before[w] == term@;
                        assert(us[w] == us[j as int]);
                    }
                }
            }
            let freq: u32 = match counts_get(&tf, term.as_str()) {
                Some(c) => c,
                None => 0,
            };
            let mut list: AHashMap<String, u32> = match lists_remove(
                &mut self.postings,
                term.as_str(),
            ) {
                Some(found) => found,
                None => counts_new(),
            };
            assert(counts(list) =~= v0.posting(term@));
            counts_insert(&mut list, doc_id.to_owned(), freq);
            lists_insert(&mut self.postings, term, list);
            proof {
                assert forall|t: Seq<char>| next.contains(t) <==> (before.contains(t) || t
                    == term@) by {
                    if next.contains(t) {
                        let w = choose|w: int| 0 <= w < next.len() && next[w] == t;
                        if w < j {
                            assert(before[w] == t);
                        }
                    }
                    if before.contains(t) {
                        let w = choose|w: int| 0 <= w < before.len() && before[w] == t;
                        assert(next[w] == t);
                    }
                    if t == term@ {
                        assert(next[j as int] == t);
                    }
                }
                assert(lists(self.postings) =~= Map::new(
                    |t: Seq<char>| v0.postings.dom().contains(t) || next.contains(t),
                    |t: Seq<char>|
                        if next.contains(t) {
                            v0.posting(t).insert(doc_id@, count_of(ts, t) as u32)
                        } else {
                            v0.postings[t]
                        },
                ));
            }
            j = j + 1;
        }
        assert(us.take(m as int) =~= us);
        counts_insert(&mut self.doc_len, doc_id.to_owned(), n as u32);
        self.total_len = self.total_len + n as u64;
        words_insert(&mut self.doc_terms, doc_id.to_owned(), uniq);
        members_insert(&mut self.docs, doc_id.to_owned());
        proof {
            let w = v0.added(doc_id@, ts);
            assert(self@.postings =~= w.postings);
            assert(self@.doc_len =~= w.doc_len);
            assert(self@.doc_terms =~= w.doc_terms);
            assert(self@.docs =~= w.docs);
            lemma_added_wf(v0, doc_id@, ts);
        }
    }

    /// Takes `doc_id` out of the index. An unknown identifier changes
    /// nothing.
    pub fn remove(&mut self, doc_id: &str)
        requires
            old(self)@.wf(),
        ensures
            final(self)@ == old(self)@.removed(doc_id@),
            final(self)@.wf(),
            old(self)@.balanced() ==> final(self)@.balanced(),
    {
        proof {
            if self@.balanced() {
                lemma_removed_balanced(self@, doc_id@);
            }
        }
        let ghost v0 = self@;
        let ghost doc = doc_id@;
        if !members_contains(&self.docs, doc_id) {
            return ;
        }
        let terms: Vec<String> = match words_remove(&mut self.doc_terms, doc_id) {
            Some(found) => found,
            None => Vec::new(),
        };
        let ghost us = views(terms@);
        assert(us == v0.doc_terms[doc]);
        let m: usize = terms.len();
        let mut i: usize = 0;
        while i < m
            invariant
                us == views(terms@),
                m == terms@.len(),
                i <= m,
                doc == doc_id@,
                v0.wf(),
                counts(self.doc_len) == v0.doc_len,
                words(self.doc_terms) == v0.doc_terms.remove(doc),
                members(self.docs) == v0.docs,
                self.total_len == v0.total_len,
                lists(self.postings) =~= Map::new(
                    |t: Seq<char>|
                        v0.postings.dom().contains(t) && !(us.take(i as int).contains(t)
                            && v0.postings[t].remove(doc).dom().len() == 0),
                    |t: Seq<char>|
                        if us.take(i as int).contains(t) {
                            v0.postings[t].remove(doc)
                        } else {
                            v0.postings[t]
                        },
                ),
            decreases m - i,
        {
            let term: String = terms[i].clone();
            let ghost before = us.take(i as int);
            let ghost next = us.take(i + 1);
            proof {
                assert(us[i as int] == term@);
                assert forall|t: Seq<char>| next.contains(t) <==> (before.contains(t) || t
                    == term@) by {
                    if next.contains(t) {
                        let w = choose|w: int| 0 <= w < next.len() && next[w] == t;
                        if w < i {
                            assert(before[w] == t);
                        }
                    }
                    if before.contains(t) {
                        let w = choose|w: int| 0 <= w < before.len() && before[w] == t;
                        assert(next[w] == t);
                    }
                    if t == term@ {
                        assert(next[i as int] == t);
                    }
                }
            }
            match lists_remove(&mut self.postings, term.as_str()) {
                Some(found) => {
                    let mut list: AHashMap<String, u32> = found;
                    counts_remove(&mut list, doc_id);
                    assert(counts(list) =~= v0.postings[term@].remove(doc));
                    if counts_len(&list) != 0 {
                        lists_insert(&mut self.postings, term, list);
                    }
                },
                None => {},
            }
            proof {
                assert(lists(self.postings) =~= Map::new(
                    |t: Seq<char>|
                        v0.postings.dom().contains(t) && !(next.contains(t)
                            && v0.postings[t].remove(doc).dom().len() == 0),
                    |t: Seq<char>|
                        if next.contains(t) {
                            v0.postings[t].remove(doc)
                        } else {
                            v0.postings[t]
                        },
                ));
            }
            i = i + 1;
        }
        assert(us.take(m as int) =~= us);
        match counts_remove(&mut self.doc_len, doc_id) {
            Some(len) => {
                self.total_len = if self.total_len >= len as u64 {
                    self.total_len - len as u64
                } else {
                    0
                };
            },
            None => {},
        }
        members_remove(&mut self.docs, doc_id);
        proof {
            let w = v0.removed(doc);
            assert(self@.postings =~= w.postings);
            assert(self@.doc_len =~= w.doc_len);
            assert(self@.doc_terms =~= w.doc_terms);
            assert(self@.docs =~= w.docs);
            lemma_removed_wf(v0, doc);
        }
    }

    /// The `k` best of the scored candidates, best first; nothing from an
    /// index without documents.
    pub fn top_k(&self, scored: &Vec<PairIdScore>, k: usize) -> (out: Vec<PairIdScore>)
        ensures
            self@.docs.len() == 0 ==> out@.len() == 0,
            self@.docs.len() != 0 ==> is_ranking(
                pair_views(scored@),
                k as int,
                pair_views(out@),
            ),
    {
        if k == 0 || members_len(&self.docs) == 0 {
            let out: Vec<PairIdScore> = Vec::new();
            proof {
                let picks = Seq::<usize>::empty();
                assert(pair_views(out@) =~= picked(pair_views(scored@), picks));
                assert(is_top_k(scores_of(pair_views(scored@)), 0, picks));
            }
            return out;
        }
        top_of(scored, k)
    }

    /// The number of documents that are indexed.
    pub fn doc_count(&self) -> (n: usize)
        ensures
            n == self@.docs.len(),
    {
        members_len(&self.docs)
    }

    /// The hits of `doc` for the query terms `q`.
    fn hits_for(&self, q: &Vec<String>, doc: &str) -> (hits: Vec<TermHit>)
        ensures
            hits@ == self@.hits(views(q@), doc@),
    {
        let ghost v = self@;
        let ghost qs = views(q@);
        let mut hits: Vec<TermHit> = Vec::new();
        let n: usize = q.len();
        let mut a: usize = 0;
        assert(hits@ =~= v.hits(qs.take(0), doc@));
        while a < n
            invariant
                v == self@,
                qs == views(q@),
                n == q@.len(),
                a <= n,
                hits@ == v.hits(qs.take(a as int), doc@),
            decreases n - a,
        {
            proof {
                assert(qs.take(a + 1).drop_last() =~= qs.take(a as int));
                assert(qs.take(a + 1).last() == q@[a as int]@);
            }
            match lists_get(&self.postings, q[a].as_str()) {
                Some(post) => {
                    match counts_get(post, doc) {
                        Some(tf) => {
                            hits.push(TermHit { tf, df: counts_len(post) });
                        },
                        None => {},
                    }
                },
                None => {},
            }
            a = a + 1;
        }
        assert(qs.take(n as int) =~= qs);
        hits
    }

    /// The documents that hold at least one of the query terms `q`, each
    /// once.
    fn matching_ids(&self, q: &Vec<String>) -> (ids: Vec<String>)
        ensures
            views(ids@).no_duplicates(),
            forall|x: Seq<char>| #[trigger]
                views(ids@).contains(x) <==> exists|a: int|
                    0 <= a < q@.len() && self@.matches(#[trigger] views(q@)[a], x),
    {
        let ghost v = self@;
        let ghost qs = views(q@);
        let mut seen: AHashSet<String> = members_new();
        let mut ids: Vec<String> = Vec::new();
        let n: usize = q.len();
        let mut a: usize = 0;
        while a < n
            invariant
                v == self@,
                qs == views(q@),
                n == q@.len(),
                a <= n,
                views(ids@).no_duplicates(),
                forall|x: Seq<char>| members(seen).contains(x) <==> views(ids@).contains(x),
                forall|x: Seq<char>| #[trigger]
                    views(ids@).contains(x) ==> exists|w: int|
                        0 <= w < n && v.matches(#[trigger] qs[w], x),
                forall|w: int, x: Seq<char>|
                    0 <= w < a && #[trigger] v.matches(qs[w], x) ==> members(seen).contains(x),
            decreases n - a,
        {
            match lists_get(&self.postings, q[a].as_str()) {
                Some(post) => {
                    let entries: Vec<(String, u32)> = counts_entries(post);
                    let m: usize = entries.len();
                    let mut b: usize = 0;
                    while b < m
                        invariant
                            v == self@,
                            qs == views(q@),
                            n == q@.len(),
                            a < n,
                            m == entries@.len(),
                            b <= m,
                            v.postings.dom().contains(qs[a as int]),
                            forall|i: int|
                                0 <= i < m ==> v.postings[qs[a as int]].dom().contains(
                                    (#[trigger] entries@[i]).0@,
                                ),
                            views(ids@).no_duplicates(),
                            forall|x: Seq<char>|
                                members(seen).contains(x) <==> views(ids@).contains(x),
                            forall|x: Seq<char>| #[trigger]
                                views(ids@).contains(x) ==> exists|w: int|
                                    0 <= w < n && v.matches(#[trigger] qs[w], x),
                            forall|w: int, x: Seq<char>|
                                0 <= w < a && #[trigger] v.matches(qs[w], x) ==> members(
                                    seen,
                                ).contains(x),
                            forall|i: int|
                                0 <= i < b ==> members(seen).contains((#[trigger] entries@[i]).0@),
                        decreases m - b,
                    {
                        let id: String = entries[b].0.clone();
                        let ghost before = views(ids@);
                        if members_insert(&mut seen, id.clone()) {
                            ids.push(id);
                            proof {
                                let after = views(ids@);
                                assert(after =~= before.push(id@));
                                assert(v.matches(qs[a as int], id@));
                                assert forall|x: Seq<char>|
                                    members(seen).contains(x) <==> after.contains(x) by {
                                    if before.contains(x) {
                                        let w = choose|w: int|
                                            0 <= w < before.len() && before[w] == x;
                                        assert(after[w] == x);
                                    }
                                    if x == id@ {
                                        assert(after[before.len() as int] == x);
                                    }
                                    if after.contains(x) {
                                        let w = choose|w: int|
                                            0 <= w < after.len() && after[w] == x;
                                        if w < before.len() {
                                            assert(before[w] == x);
                                        }
                                    }
                                }
                                assert forall|x: Seq<char>| #[trigger]
                                    after.contains(x) implies exists|w: int|
                                    0 <= w < n && v.matches(#[trigger] qs[w], x) by {
                                    if x != id@ {
                                        assert(members(seen).contains(x));
                                        assert(before.contains(x));
                                    }
                                }
                                assert forall|i: int, j: int|
                                    0 <= i < after.len() && 0 <= j < after.len() && i
                                        != j implies after[i] != after[j] by {
                                    if i == before.len() {
                                        assert(before[j] == after[j]);
                                        assert(before.contains(before[j]));
                                    } else if j == before.len() {
                                        assert(before[i] == after[i]);
                                        assert(before.contains(before[i]));
                                    } else {
                                        assert(before[i] == after[i] && before[j] == after[j]);
                                    }
                                }
                            }
                        }
                        b = b + 1;
                    }
                    proof {
                        assert forall|w: int, x: Seq<char>|
                            0 <= w < a + 1 && #[trigger] v.matches(qs[w], x) implies members(
                            seen,
                        ).contains(x) by {
                            if w == a {
                                let i = choose|i: int|
                                    0 <= i < entries@.len() && (#[trigger] entries@[i]).0@ == x;
                                assert(members(seen).contains(entries@[i].0@));
                            }
                        }
                    }
                },
                None => {},
            }
            a = a + 1;
        }
        proof {
            assert forall|x: Seq<char>| #[trigger]
                views(ids@).contains(x) <==> exists|w: int|
                    0 <= w < q@.len() && self@.matches(#[trigger] views(q@)[w], x) by {
                if exists|w: int| 0 <= w < q@.len() && v.matches(#[trigger] qs[w], x) {
                    let w = choose|w: int| 0 <= w < q@.len() && v.matches(#[trigger] qs[w], x);
                    assert(members(seen).contains(x));
                }
            }
        }
        ids
    }

    /// The documents that match `query`, each with the integers that scoring
    /// needs: the document's length and, for each distinct query term that
    /// it holds, the term's frequency in it and the term's document
    /// frequency.
    pub fn candidates(&self, query: &str) -> (out: Vec<Candidate>)
        ensures
            self@.is_candidates(distinct(terms_of(query@)), candidate_views(out@)),
    {
        let ghost v = self@;
        let mut out: Vec<Candidate> = Vec::new();
        assert(candidate_views(out@) =~= Seq::<CandidateView>::empty());
        if members_len(&self.docs) == 0 {
            return out;
        }
        let q: Vec<String> = dedup(tokenize(query));
        let ghost qs = views(q@);
        let ids: Vec<String> = self.matching_ids(&q);
        let ghost ds = views(ids@);
        let n: usize = ids.len();
        let mut i: usize = 0;
        while i < n
            invariant
                v == self@,
                qs == views(q@),
                ds == views(ids@),
                n == ids@.len(),
                i <= n,
                out@.len() == i,
                forall|j: int|
                    0 <= j < i ==> (#[trigger] out@[j])@.id == ds[j] && out@[j]@.hits == v.hits(
                        qs,
                        ds[j],
                    ) && out@[j]@.doc_len == v.length_of(ds[j]),
            decreases n - i,
        {
            let id: String = ids[i].clone();
            let hits: Vec<TermHit> = self.hits_for(&q, id.as_str());
            let doc_len: u32 = match counts_get(&self.doc_len, id.as_str()) {
                Some(len) => len,
                None => 0,
            };
            out.push(Candidate { id, doc_len, hits });
            i = i + 1;
        }
        proof {
            let c = candidate_views(out@);
            assert forall|j: int| 0 <= j < c.len() implies (#[trigger] c[j]).id == ds[j] by {
                assert(c[j] == out@[j]@);
            }
            assert forall|j: int| 0 <= j < c.len() implies (#[trigger] c[j]).hits == v.hits(
                qs,
                c[j].id,
            ) && c[j].hits.len() > 0 && c[j].doc_len == v.length_of(c[j].id) by {
                assert(c[j] == out@[j]@);
                assert(ds.contains(ds[j]));
                lemma_hits_nonempty(v, qs, ds[j]);
            }
            assert forall|d: Seq<char>| (#[trigger] v.hits(qs, d)).len() > 0 implies exists|
                j: int,
            |
                0 <= j < c.len() && (#[trigger] c[j]).id == d by {
                lemma_hits_nonempty(v, qs, d);
                assert(ds.contains(d));
                let j = choose|j: int| 0 <= j < ds.len() && ds[j] == d;
                assert(c[j].id == d);
            }
            assert forall|a: int, b: int| 0 <= a < b < c.len() implies (#[trigger] c[a]).id != (
            #[trigger] c[b]).id by {
                assert(c[a].id == ds[a] && c[b].id == ds[b]);
            }
        }
        out
    }
}

/// A document that matches a query, with what scoring needs to know of it.
#[derive(Debug, PartialEq, Eq)]
pub struct Candidate {
    /// The document.
    pub id: String,
    /// Its length in terms; zero if none is recorded.
    pub doc_len: u32,
    /// One hit for each distinct query term that the document holds, in
    /// query order.
    pub hits: Vec<TermHit>,
}

impl View for Candidate {
    type V = CandidateView;

    open spec fn view(&self) -> CandidateView {
        CandidateView { id: self.id@, doc_len: self.doc_len, hits: self.hits@ }
    }
}

/// The candidates of a list, each as a value.
pub open spec fn candidate_views(c: Seq<Candidate>) -> Seq<CandidateView> {
    c.map_values(|x: Candidate| x@)
}

} // verus!
