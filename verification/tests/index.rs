use searchdb::bm25::Candidate;
use searchdb::index::union_ids;
use searchdb::vectors::fit_to;
use searchdb::{IndexError, PairIdScore, SearchIndex};

const K1: f64 = 1.5;
const B: f64 = 0.75;

fn normalize(v: &mut [f32]) {
    let mut sumsq = 0f32;
    for x in v.iter() {
        sumsq += x * x;
    }
    if sumsq > 0.0 {
        let inv = 1.0f32 / sumsq.sqrt();
        for x in v.iter_mut() {
            *x *= inv;
        }
    }
}

/// A vector as the index takes it: brought to width, normalised, as bits.
fn unit(v: &[f32], width: usize) -> Vec<u32> {
    let raw: Vec<u32> = v.iter().map(|x| x.to_bits()).collect();
    let mut f: Vec<f32> = fit_to(&raw, width).iter().map(|b| f32::from_bits(*b)).collect();
    normalize(&mut f);
    f.iter().map(|x| x.to_bits()).collect()
}

fn embed(index: &SearchIndex, v: &[f32]) -> Vec<u32> {
    unit(v, index.vectors().width_for(v.len()))
}

fn add(index: &mut SearchIndex, id: &str, text: &str, v: &[f32]) -> Result<(), IndexError> {
    let e = embed(index, v);
    index.add_doc(id.to_string(), text.to_string(), &e)
}

fn update(index: &mut SearchIndex, id: &str, text: &str, v: &[f32]) -> Result<(), IndexError> {
    let e = embed(index, v);
    index.update_doc(id.to_string(), text.to_string(), &e)
}

fn score(c: &Candidate, n_docs: usize, total_len: u64) -> f64 {
    let n = std::cmp::max(1, n_docs) as f64;
    let avgdl = if total_len > 0 { total_len as f64 / n } else { 0.0001 };
    let base = K1 * (1.0 - B + B * c.doc_len as f64 / avgdl);
    let mut s = 0.0;
    for h in c.hits.iter() {
        let df = h.df as f64;
        let idf = (1.0 + (n - df + 0.5) / (df + 0.5)).ln();
        let tf = h.tf as f64;
        let denom = tf + base;
        s += idf * (K1 + 1.0) * (tf / if denom == 0.0 { 1e-9 } else { denom });
    }
    s
}

fn scored(index: &SearchIndex, query: &str) -> Vec<PairIdScore> {
    let n = index.bm25().doc_count();
    let total = index.bm25().total_len();
    index
        .bm25_candidates(query.to_string())
        .iter()
        .map(|c| PairIdScore { id: c.id.clone(), s: score(c, n, total).to_bits() })
        .collect()
}

fn row_scores(index: &SearchIndex, q: &[f32]) -> Vec<u64> {
    let store = index.vectors();
    let q: Vec<f32> = unit(q, store.dim()).iter().map(|b| f32::from_bits(*b)).collect();
    (0..store.len())
        .map(|r| {
            let row = store.row(r);
            let mut dot = 0f32;
            for i in 0..row.len() {
                dot += f32::from_bits(row[i]) * q[i];
            }
            (dot as f64).to_bits()
        })
        .collect()
}

fn bm25(index: &SearchIndex, query: &str, k: u32) -> Vec<String> {
    index.bm25_top_k(&scored(index, query), k).into_iter().map(|p| p.id).collect()
}

fn knn(index: &SearchIndex, q: &[f32], k: u32) -> Vec<(String, f64)> {
    index
        .knn_top_k(&row_scores(index, q), k)
        .into_iter()
        .map(|p| (p.id, f64::from_bits(p.s)))
        .collect()
}

fn union(index: &SearchIndex, query: &str, q: &[f32], bm25_k: u32, knn_k: u32) -> Vec<String> {
    index.union_candidates(&scored(index, query), &row_scores(index, q), bm25_k, knn_k)
}

fn pair(id: &str, x: f64) -> PairIdScore {
    PairIdScore { id: id.to_string(), s: x.to_bits() }
}

#[test]
fn update_replaces_postings() {
    let mut index = SearchIndex::new();
    assert_eq!(add(&mut index, "d1", "alpha beta", &[1.0, 0.0]), Ok(()));
    assert_eq!(update(&mut index, "d1", "gamma", &[0.0, 1.0]), Ok(()));
    assert_eq!(bm25(&index, "alpha", 5), Vec::<String>::new());
    assert_eq!(bm25(&index, "beta", 5), Vec::<String>::new());
    assert_eq!(bm25(&index, "gamma", 5), vec!["d1"]);
    assert_eq!(index.bm25().total_len(), 1);
    assert_eq!(index.bm25().doc_count(), 1);
    assert_eq!(index.vectors().len(), 1);
    assert_eq!(index.vectors().row(0), vec![0.0f32.to_bits(), 1.0f32.to_bits()]);
}

#[test]
fn union_de_dup() {
    let mut index = SearchIndex::new();
    add(&mut index, "d1", "apple apple apple", &[0.0, 1.0]).unwrap();
    add(&mut index, "d2", "apple pie", &[1.0, 0.0]).unwrap();
    add(&mut index, "d3", "cherry tart with cream", &[0.9, 0.1]).unwrap();
    add(&mut index, "d4", "plum cake with cream", &[0.8, 0.2]).unwrap();
    add(&mut index, "d5", "pear", &[-1.0, 0.0]).unwrap();
    assert_eq!(bm25(&index, "apple", 2), vec!["d1", "d2"]);
    let near: Vec<String> = knn(&index, &[1.0, 0.0], 3).into_iter().map(|p| p.0).collect();
    assert_eq!(near, vec!["d2", "d3", "d4"]);
    assert_eq!(union(&index, "apple", &[1.0, 0.0], 2, 3), vec!["d1", "d2", "d3", "d4"]);
}

#[test]
fn union_puts_lexical_results_first() {
    let bm = vec![pair("x", 3.0), pair("y", 2.0)];
    let knn = vec![pair("z", 0.9), pair("y", 0.8), pair("x", 0.7), pair("w", 0.6)];
    assert_eq!(union_ids(&bm, &knn), vec!["x", "y", "z", "w"]);
    assert_eq!(union_ids(&bm, &Vec::new()), vec!["x", "y"]);
    assert_eq!(union_ids(&Vec::new(), &knn), vec!["z", "y", "x", "w"]);
    assert_eq!(union_ids(&Vec::new(), &Vec::new()), Vec::<String>::new());
}

#[test]
fn union_with_zero_k_on_one_side() {
    let mut index = SearchIndex::new();
    add(&mut index, "d1", "apple", &[1.0, 0.0]).unwrap();
    add(&mut index, "d2", "apple pie", &[0.0, 1.0]).unwrap();
    assert_eq!(union(&index, "apple", &[0.0, 1.0], 0, 1), vec!["d2"]);
    assert_eq!(union(&index, "apple", &[0.0, 1.0], 1, 0), vec!["d1"]);
    assert_eq!(union(&index, "apple", &[0.0, 1.0], 0, 0), Vec::<String>::new());
}

#[test]
fn adding_a_known_identifier_is_refused() {
    let mut index = SearchIndex::new();
    assert_eq!(add(&mut index, "d1", "alpha", &[1.0, 0.0]), Ok(()));
    assert_eq!(add(&mut index, "d1", "beta", &[0.0, 1.0]), Err(IndexError::DuplicateId));
    // nothing changed
    assert_eq!(bm25(&index, "alpha", 5), vec!["d1"]);
    assert_eq!(bm25(&index, "beta", 5), Vec::<String>::new());
    assert_eq!(index.bm25().total_len(), 1);
    assert_eq!(index.vectors().len(), 1);
    assert_eq!(index.vectors().row(0), vec![1.0f32.to_bits(), 0.0f32.to_bits()]);
}

#[test]
fn adding_is_refused_when_only_the_vector_side_knows_the_identifier() {
    let mut index = SearchIndex::new();
    assert_eq!(add(&mut index, "d1", "", &[1.0, 0.0]), Ok(()));
    assert_eq!(index.bm25().doc_count(), 0);
    assert_eq!(add(&mut index, "d1", "alpha", &[1.0, 0.0]), Err(IndexError::DuplicateId));
    assert_eq!(index.bm25().doc_count(), 0);
    assert_eq!(index.vectors().len(), 1);
}

#[test]
fn both_sides_hold_the_same_documents() {
    let mut index = SearchIndex::new();
    add(&mut index, "a", "one", &[1.0, 0.0]).unwrap();
    assert_eq!(index.bm25().doc_count(), index.vectors().len());
    add(&mut index, "b", "two", &[0.0, 1.0]).unwrap();
    assert_eq!(index.bm25().doc_count(), index.vectors().len());
    update(&mut index, "a", "three", &[1.0, 1.0]).unwrap();
    assert_eq!(index.bm25().doc_count(), index.vectors().len());
    update(&mut index, "c", "four", &[1.0, 1.0]).unwrap();
    assert_eq!(index.bm25().doc_count(), 3);
    assert_eq!(index.vectors().len(), 3);
    index.remove_doc("a".to_string());
    assert_eq!(index.bm25().doc_count(), 2);
    assert_eq!(index.vectors().len(), 2);
    index.remove_doc("a".to_string());
    index.remove_doc("nobody".to_string());
    assert_eq!(index.bm25().doc_count(), 2);
    assert_eq!(index.vectors().len(), 2);
}

#[test]
fn text_without_terms_leaves_the_lexical_side_alone() {
    let mut index = SearchIndex::new();
    assert_eq!(add(&mut index, "d1", "?!", &[1.0, 0.0]), Ok(()));
    assert_eq!(index.bm25().doc_count(), 0);
    assert_eq!(index.vectors().len(), 1);
    assert_eq!(knn(&index, &[1.0, 0.0], 1)[0].0, "d1");
    // replacing by a text without terms takes the document off the lexical side
    add(&mut index, "d2", "word", &[0.0, 1.0]).unwrap();
    update(&mut index, "d2", "", &[0.0, 1.0]).unwrap();
    assert_eq!(index.bm25().doc_count(), 0);
    assert_eq!(index.bm25().total_len(), 0);
    assert_eq!(index.vectors().len(), 2);
}

#[test]
fn remove_doc_takes_the_document_off_both_sides() {
    let mut index = SearchIndex::new();
    add(&mut index, "a", "the quick brown fox", &[1.0, 0.0]).unwrap();
    add(&mut index, "b", "quick brown dogs", &[0.0, 1.0]).unwrap();
    index.remove_doc("b".to_string());
    assert_eq!(bm25(&index, "quick", 5), vec!["a"]);
    let near = knn(&index, &[0.0, 1.0], 5);
    assert_eq!(near.len(), 1);
    assert_eq!(near[0].0, "a");
    assert_eq!(index.bm25().total_len(), 4);
}

#[test]
fn update_gives_what_remove_and_add_give() {
    let mut one = SearchIndex::new();
    let mut two = SearchIndex::new();
    for index in [&mut one, &mut two] {
        add(index, "a", "red green", &[1.0, 0.0]).unwrap();
        add(index, "b", "green blue", &[0.0, 1.0]).unwrap();
        add(index, "c", "blue red", &[1.0, 1.0]).unwrap();
    }
    update(&mut one, "a", "blue blue", &[0.0, 2.0]).unwrap();
    two.remove_doc("a".to_string());
    add(&mut two, "a", "blue blue", &[0.0, 2.0]).unwrap();

    assert_eq!(one.bm25().total_len(), two.bm25().total_len());
    assert_eq!(one.bm25().doc_count(), two.bm25().doc_count());
    let sort = |mut c: Vec<Candidate>| {
        c.sort_by(|x, y| x.id.cmp(&y.id));
        c
    };
    assert_eq!(
        sort(one.bm25_candidates("red green blue".to_string())),
        sort(two.bm25_candidates("red green blue".to_string()))
    );
    assert_eq!(one.vectors().dim(), two.vectors().dim());
    assert_eq!(one.vectors().len(), two.vectors().len());
    assert_eq!(one.vectors().capacity(), two.vectors().capacity());
    let sort_pairs = |mut v: Vec<(String, f64)>| {
        v.sort_by(|x, y| x.0.cmp(&y.0));
        v
    };
    assert_eq!(
        sort_pairs(knn(&one, &[0.3, 0.7], 3)),
        sort_pairs(knn(&two, &[0.3, 0.7], 3))
    );
}

#[test]
fn queries_on_an_empty_index() {
    let index = SearchIndex::new();
    assert_eq!(index.bm25_candidates("anything".to_string()), Vec::<Candidate>::new());
    assert_eq!(index.bm25_top_k(&Vec::new(), 3), Vec::<PairIdScore>::new());
    assert_eq!(index.knn_top_k(&[], 3), Vec::<PairIdScore>::new());
    assert_eq!(index.union_candidates(&Vec::new(), &[], 3, 3), Vec::<String>::new());
}

#[test]
fn knn_scores_are_returned_with_the_identifiers() {
    let mut index = SearchIndex::new();
    add(&mut index, "a", "x", &[1.0, 0.0]).unwrap();
    add(&mut index, "b", "y", &[0.0, 1.0]).unwrap();
    add(&mut index, "c", "z", &[1.0, 1.0]).unwrap();
    let near = knn(&index, &[1.0, 0.0], 2);
    assert_eq!(near[0].0, "a");
    assert!((near[0].1 - 1.0).abs() < 1e-6);
    assert_eq!(near[1].0, "c");
    assert!((near[1].1 - 0.70710678).abs() < 1e-6);
}
