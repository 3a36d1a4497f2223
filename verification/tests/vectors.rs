use searchdb::vectors::{fit_to, VectorIndex};
use searchdb::PairIdScore;

fn bits(v: &[f32]) -> Vec<u32> {
    v.iter().map(|x| x.to_bits()).collect()
}

fn floats(v: &[u32]) -> Vec<f32> {
    v.iter().map(|b| f32::from_bits(*b)).collect()
}

fn normalize(v: &mut [f32]) {
    let mut sumsq = 0f32;
    for x in v.iter() {
        sumsq += x * x;
    }
    if sumsq > 0.0 {
        let inv = 1.0f32 / sumsq.sqrt();
        for x in v.iter_mut() {
            *x *= inv;
        }
    }
}

/// A vector as the store takes it: brought to width, normalised, as bits.
fn unit(v: &[f32], width: usize) -> Vec<u32> {
    let mut f = floats(&fit_to(&bits(v), width));
    normalize(&mut f);
    bits(&f)
}

fn add(store: &mut VectorIndex, id: &str, v: &[f32]) {
    let e = unit(v, store.width_for(v.len()));
    store.add(id, &e);
}

fn knn(store: &VectorIndex, q: &[f32], k: usize) -> Vec<(String, f32)> {
    let q = floats(&unit(q, store.dim()));
    let scores: Vec<u64> = (0..store.len())
        .map(|r| {
            let row = floats(&store.row(r));
            let mut dot = 0f32;
            for i in 0..row.len() {
                dot += row[i] * q[i];
            }
            (dot as f64).to_bits()
        })
        .collect();
    store.top_k(&scores, k).into_iter().map(|p| (p.id, f64::from_bits(p.s) as f32)).collect()
}

fn abc() -> VectorIndex {
    let mut store = VectorIndex::new();
    add(&mut store, "a", &[1.0, 0.0]);
    add(&mut store, "b", &[0.0, 1.0]);
    add(&mut store, "c", &[1.0, 1.0]);
    store
}

/// The identifiers in row order.
fn ids(store: &VectorIndex) -> Vec<String> {
    let n = store.len();
    let scores: Vec<u64> = (0..n).map(|r| (n - r) as u64).collect();
    store.top_k(&scores, n).into_iter().map(|p| p.id).collect()
}

#[test]
fn vector_top_k_with_normalization() {
    let store = abc();
    let top = knn(&store, &[1.0, 0.0], 2);
    assert_eq!(top.len(), 2);
    assert_eq!(top[0].0, "a");
    assert!((top[0].1 - 1.0).abs() < 1e-6);
    assert_eq!(top[1].0, "c");
    assert!((top[1].1 - 0.70710678).abs() < 1e-6);
}

#[test]
fn swap_and_pop_preserves_correctness() {
    let mut store = abc();
    store.remove("a");
    let top = knn(&store, &[1.0, 0.0], 2);
    assert_eq!(top.len(), 2);
    assert_eq!(top[0].0, "c");
    assert!((top[0].1 - 0.70710678).abs() < 1e-6);
    assert_eq!(top[1].0, "b");
    assert!(top[1].1.abs() < 1e-6);
}

#[test]
fn fit_pads_with_zero_and_truncates() {
    assert_eq!(fit_to(&[7, 8, 9], 3), vec![7, 8, 9]);
    assert_eq!(fit_to(&[7, 8, 9], 5), vec![7, 8, 9, 0, 0]);
    assert_eq!(fit_to(&[7, 8, 9], 2), vec![7, 8]);
    assert_eq!(fit_to(&[7, 8, 9], 0), Vec::<u32>::new());
    assert_eq!(fit_to(&[], 2), vec![0, 0]);
}

#[test]
fn width_is_taken_from_the_first_vector() {
    let mut store = VectorIndex::new();
    assert_eq!(store.dim(), 0);
    assert_eq!(store.width_for(3), 3);
    store.add("a", &[1, 2, 3]);
    assert_eq!(store.dim(), 3);
    assert_eq!(store.width_for(5), 3);
    store.add("short", &[4]);
    store.add("long", &[5, 6, 7, 8, 9]);
    assert_eq!(store.dim(), 3);
    assert_eq!(store.len(), 3);
    assert_eq!(store.row(0), vec![1, 2, 3]);
    assert_eq!(store.row(1), vec![4, 0, 0]);
    assert_eq!(store.row(2), vec![5, 6, 7]);
}

#[test]
fn buffer_starts_at_1024_and_doubles() {
    let mut store = VectorIndex::new();
    assert_eq!(store.capacity(), 0);
    let v = vec![1u32; 512];
    store.add("a", &v);
    assert_eq!(store.capacity(), 1024);
    store.add("b", &v);
    assert_eq!(store.capacity(), 1024);
    store.add("c", &v);
    assert_eq!(store.capacity(), 2048);
    store.add("d", &v);
    assert_eq!(store.capacity(), 2048);
    store.add("e", &v);
    assert_eq!(store.capacity(), 4096);
    store.remove("a");
    assert_eq!(store.capacity(), 4096);
}

#[test]
fn buffer_doubles_until_a_wide_first_row_fits() {
    let mut store = VectorIndex::new();
    store.add("a", &vec![3u32; 3000]);
    assert_eq!(store.capacity(), 4096);
    assert_eq!(store.row(0), vec![3u32; 3000]);
}

#[test]
fn remove_moves_the_last_row_into_the_gap() {
    let mut store = VectorIndex::new();
    store.add("a", &[1, 1]);
    store.add("b", &[2, 2]);
    store.add("c", &[3, 3]);
    store.add("d", &[4, 4]);
    store.remove("b");
    assert_eq!(ids(&store), vec!["a", "d", "c"]);
    assert_eq!(store.row(0), vec![1, 1]);
    assert_eq!(store.row(1), vec![4, 4]);
    assert_eq!(store.row(2), vec![3, 3]);
    assert!(!store.contains("b"));
    assert!(store.contains("d"));
    // the moved row is found under its identifier
    store.update("d", &[9, 9]);
    assert_eq!(store.row(1), vec![9, 9]);
}

#[test]
fn remove_of_the_last_row_moves_nothing() {
    let mut store = VectorIndex::new();
    store.add("a", &[1, 1]);
    store.add("b", &[2, 2]);
    store.remove("b");
    assert_eq!(ids(&store), vec!["a"]);
    assert_eq!(store.row(0), vec![1, 1]);
    store.remove("a");
    assert_eq!(store.len(), 0);
    assert_eq!(store.dim(), 2);
}

#[test]
fn remove_unknown_changes_nothing() {
    let mut store = abc();
    store.remove("nobody");
    assert_eq!(ids(&store), vec!["a", "b", "c"]);
}

#[test]
fn remove_twice_is_remove_once() {
    let mut store = abc();
    store.remove("a");
    let rows: Vec<Vec<u32>> = (0..store.len()).map(|r| store.row(r)).collect();
    let order = ids(&store);
    store.remove("a");
    assert_eq!(ids(&store), order);
    assert_eq!((0..store.len()).map(|r| store.row(r)).collect::<Vec<_>>(), rows);
}

#[test]
fn update_overwrites_in_place_or_appends() {
    let mut store = VectorIndex::new();
    store.add("a", &[1, 1]);
    store.add("b", &[2, 2]);
    store.update("a", &[5, 6, 7]);
    assert_eq!(ids(&store), vec!["a", "b"]);
    assert_eq!(store.row(0), vec![5, 6]);
    store.update("c", &[8]);
    assert_eq!(ids(&store), vec!["a", "b", "c"]);
    assert_eq!(store.row(2), vec![8, 0]);
}

#[test]
fn zero_vector_stays_zero() {
    let mut store = VectorIndex::new();
    add(&mut store, "z", &[0.0, 0.0]);
    add(&mut store, "a", &[3.0, 4.0]);
    assert_eq!(store.row(0), vec![0, 0]);
    assert_eq!(floats(&store.row(1)), vec![0.6, 0.8]);
    let top = knn(&store, &[1.0, 0.0], 2);
    assert_eq!(top[0].0, "a");
    assert_eq!(top[1], ("z".to_string(), 0.0));
}

#[test]
fn rows_stored_before_the_width_become_zero_vectors() {
    let mut store = VectorIndex::new();
    store.add("e", &[]);
    assert_eq!(store.dim(), 0);
    assert_eq!(store.len(), 1);
    assert_eq!(store.row(0), Vec::<u32>::new());
    store.add("f", &[1, 2]);
    assert_eq!(store.dim(), 2);
    assert_eq!(store.row(0), vec![0, 0]);
    assert_eq!(store.row(1), vec![1, 2]);
}

#[test]
fn top_k_of_nothing_and_for_k_zero() {
    let empty = VectorIndex::new();
    assert_eq!(empty.top_k(&[], 3), Vec::<PairIdScore>::new());
    let store = abc();
    assert_eq!(knn(&store, &[1.0, 0.0], 0), Vec::<(String, f32)>::new());
    assert_eq!(knn(&store, &[1.0, 0.0], 10).len(), 3);
}

#[test]
fn query_is_padded_and_truncated() {
    let store = abc();
    let short = knn(&store, &[1.0], 1);
    assert_eq!(short[0].0, "a");
    let long = knn(&store, &[0.0, 2.0, 100.0], 1);
    assert_eq!(long[0].0, "b");
    assert!((long[0].1 - 1.0).abs() < 1e-6);
}
