use searchdb::bm25::{BM25Index, Candidate};
use searchdb::bm25_model::TermHit;
use searchdb::PairIdScore;

const K1: f64 = 1.5;
const B: f64 = 0.75;

/// The BM25 score of a candidate, from the integers the index hands out.
fn score(c: &Candidate, n_docs: usize, total_len: u64) -> f64 {
    let n = std::cmp::max(1, n_docs) as f64;
    let avgdl = if total_len > 0 { total_len as f64 / n } else { 0.0001 };
    let base = K1 * (1.0 - B + B * c.doc_len as f64 / avgdl);
    let mut s = 0.0;
    for h in c.hits.iter() {
        let df = h.df as f64;
        let idf = (1.0 + (n - df + 0.5) / (df + 0.5)).ln();
        let tf = h.tf as f64;
        let denom = tf + base;
        s += idf * (K1 + 1.0) * (tf / if denom == 0.0 { 1e-9 } else { denom });
    }
    s
}

fn sorted(mut c: Vec<Candidate>) -> Vec<Candidate> {
    c.sort_by(|a, b| a.id.cmp(&b.id));
    c
}

fn query(index: &BM25Index, q: &str, k: usize) -> Vec<(String, f64)> {
    let scored: Vec<PairIdScore> = index
        .candidates(q)
        .iter()
        .map(|c| PairIdScore {
            id: c.id.clone(),
            s: score(c, index.doc_count(), index.total_len()).to_bits(),
        })
        .collect();
    index.top_k(&scored, k).into_iter().map(|p| (p.id, f64::from_bits(p.s))).collect()
}

fn three_docs() -> BM25Index {
    let mut index = BM25Index::new();
    index.add("d1", "the quick brown fox");
    index.add("d2", "quick brown dogs");
    index.add("d3", "lazy cats");
    index
}

#[test]
fn bm25_basics() {
    let index = three_docs();
    let top = query(&index, "quick brown", 3);
    let ids: Vec<&str> = top.iter().map(|p| p.0.as_str()).collect();
    assert_eq!(ids, vec!["d2", "d1"]);
    assert!(top[0].1 > top[1].1);
    assert!(top[0].1 - top[1].1 > 0.001);
}

#[test]
fn bm25_single_document_score() {
    // one document "a": idf = ln(1 + 0.5 / 1.5), tf = 1, base = 1.5
    let mut index = BM25Index::new();
    index.add("d", "a");
    let top = query(&index, "a", 1);
    assert_eq!(top.len(), 1);
    assert_eq!(top[0].0, "d");
    assert!((top[0].1 - 0.2876820724517809).abs() < 1e-12);
}

#[test]
fn bm25_candidates_carry_the_integers() {
    let index = three_docs();
    assert_eq!(index.doc_count(), 3);
    assert_eq!(index.total_len(), 9);
    let hit = TermHit { tf: 1, df: 2 };
    assert_eq!(
        sorted(index.candidates("quick brown")),
        vec![
            Candidate { id: "d1".to_string(), doc_len: 4, hits: vec![hit, hit] },
            Candidate { id: "d2".to_string(), doc_len: 3, hits: vec![hit, hit] },
        ]
    );
}

#[test]
fn bm25_hits_follow_query_order_and_skip_missing_terms() {
    let mut index = BM25Index::new();
    index.add("d1", "x x y");
    index.add("d2", "y z z z");
    assert_eq!(
        sorted(index.candidates("z nothing y x")),
        vec![
            Candidate {
                id: "d1".to_string(),
                doc_len: 3,
                hits: vec![TermHit { tf: 1, df: 2 }, TermHit { tf: 2, df: 1 }],
            },
            Candidate {
                id: "d2".to_string(),
                doc_len: 4,
                hits: vec![TermHit { tf: 3, df: 1 }, TermHit { tf: 1, df: 2 }],
            },
        ]
    );
}

#[test]
fn bm25_query_terms_are_deduplicated() {
    let index = three_docs();
    let c = sorted(index.candidates("Quick quick QUICK"));
    assert_eq!(c.len(), 2);
    assert_eq!(c[0].hits, vec![TermHit { tf: 1, df: 2 }]);
    assert_eq!(c[1].hits, vec![TermHit { tf: 1, df: 2 }]);
}

#[test]
fn bm25_remove_consistency() {
    let mut index = three_docs();
    index.remove("d2");
    let top = query(&index, "quick", 5);
    let ids: Vec<&str> = top.iter().map(|p| p.0.as_str()).collect();
    assert_eq!(ids, vec!["d1"]);
    assert_eq!(
        index.candidates("quick"),
        vec![Candidate { id: "d1".to_string(), doc_len: 4, hits: vec![TermHit { tf: 1, df: 1 }] }]
    );
    assert_eq!(index.total_len(), 4 + 2);
    assert_eq!(index.doc_count(), 2);
    assert!(!index.contains("d2"));
}

#[test]
fn bm25_remove_drops_emptied_terms() {
    let mut index = three_docs();
    index.remove("d3");
    assert_eq!(index.candidates("lazy cats"), Vec::<Candidate>::new());
    index.remove("d1");
    assert_eq!(index.candidates("the fox"), Vec::<Candidate>::new());
    assert_eq!(index.candidates("quick").len(), 1);
}

#[test]
fn bm25_remove_twice_is_remove_once() {
    let mut once = three_docs();
    once.remove("d1");
    let mut twice = three_docs();
    twice.remove("d1");
    twice.remove("d1");
    assert_eq!(once.total_len(), twice.total_len());
    assert_eq!(once.doc_count(), twice.doc_count());
    assert_eq!(
        sorted(once.candidates("the quick brown fox dogs lazy cats")),
        sorted(twice.candidates("the quick brown fox dogs lazy cats"))
    );
}

#[test]
fn bm25_remove_unknown_changes_nothing() {
    let mut index = three_docs();
    index.remove("nobody");
    assert_eq!(index.total_len(), 9);
    assert_eq!(index.doc_count(), 3);
    assert_eq!(index.candidates("quick").len(), 2);
}

#[test]
fn bm25_text_without_terms_is_not_recorded() {
    let mut index = BM25Index::new();
    index.add("d1", "  ...  ");
    index.add("d2", "");
    assert_eq!(index.doc_count(), 0);
    assert_eq!(index.total_len(), 0);
    assert!(!index.contains("d1"));
}

#[test]
fn bm25_total_is_the_sum_of_lengths() {
    let mut index = BM25Index::new();
    index.add("a", "one two three");
    index.add("b", "one one");
    assert_eq!(index.total_len(), 5);
    index.remove("a");
    assert_eq!(index.total_len(), 2);
    index.remove("b");
    assert_eq!(index.total_len(), 0);
    assert_eq!(index.doc_count(), 0);
}

#[test]
fn bm25_term_frequency_counts_repeats() {
    let mut index = BM25Index::new();
    index.add("a", "go go go stop");
    assert_eq!(
        index.candidates("go"),
        vec![Candidate { id: "a".to_string(), doc_len: 4, hits: vec![TermHit { tf: 3, df: 1 }] }]
    );
}

#[test]
fn bm25_adding_a_known_document_leaves_old_postings() {
    let mut index = BM25Index::new();
    index.add("d1", "alpha beta");
    index.add("d1", "gamma");
    // the old terms still name the document, and its length was counted twice
    assert_eq!(
        index.candidates("alpha"),
        vec![Candidate { id: "d1".to_string(), doc_len: 1, hits: vec![TermHit { tf: 1, df: 1 }] }]
    );
    assert_eq!(index.candidates("gamma").len(), 1);
    assert_eq!(index.total_len(), 3);
    assert_eq!(index.doc_count(), 1);
}

#[test]
fn bm25_nothing_from_an_empty_index_or_for_k_zero() {
    let empty = BM25Index::new();
    assert_eq!(empty.candidates("quick"), Vec::<Candidate>::new());
    let scored = vec![PairIdScore { id: "x".to_string(), s: 1.0f64.to_bits() }];
    assert_eq!(empty.top_k(&scored, 3), Vec::<PairIdScore>::new());
    let index = three_docs();
    assert_eq!(query(&index, "quick", 0), Vec::<(String, f64)>::new());
    assert_eq!(query(&index, "", 5), Vec::<(String, f64)>::new());
    assert_eq!(query(&index, "unknown", 5), Vec::<(String, f64)>::new());
}

#[test]
fn bm25_top_k_truncates() {
    let index = three_docs();
    let top = query(&index, "quick brown lazy", 2);
    assert_eq!(top.len(), 2);
    assert!(top[0].1 >= top[1].1);
}

#[test]
fn bm25_unrelated_document_keeps_the_order() {
    let mut index = BM25Index::new();
    index.add("d1", "tea tea cup");
    index.add("d2", "tea pot and cup and spoon");
    let before: Vec<String> = query(&index, "tea", 5).into_iter().map(|p| p.0).collect();
    assert_eq!(before, vec!["d1", "d2"]);
    let hits_before = sorted(index.candidates("tea"));
    index.add("d3", "coffee mug");
    let after: Vec<String> = query(&index, "tea", 5).into_iter().map(|p| p.0).collect();
    assert_eq!(after, before);
    // term frequency, document frequency and length of the old documents stay
    assert_eq!(sorted(index.candidates("tea")), hits_before);
}
