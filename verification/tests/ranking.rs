use searchdb::rank::{score_rank, top_of, top_pairs, top_rows};
use searchdb::PairIdScore;

fn bits(x: f64) -> u64 {
    x.to_bits()
}

fn pair(id: &str, x: f64) -> PairIdScore {
    PairIdScore { id: id.to_string(), s: bits(x) }
}

#[test]
fn rank_of_known_bit_patterns() {
    assert_eq!(score_rank(0), 0x8000_0000_0000_0000);
    assert_eq!(score_rank(1), 0x8000_0000_0000_0001);
    assert_eq!(score_rank(0x7fff_ffff_ffff_ffff), 0xffff_ffff_ffff_ffff);
    assert_eq!(score_rank(0x8000_0000_0000_0000), 0x7fff_ffff_ffff_ffff);
    assert_eq!(score_rank(0xffff_ffff_ffff_ffff), 0);
}

#[test]
fn rank_follows_the_numbers() {
    let xs = [
        f64::NEG_INFINITY,
        -1.0e300,
        -2.5,
        -1.0,
        -1.0e-300,
        -0.0,
        0.0,
        1.0e-300,
        0.7071,
        1.0,
        2.5,
        1.0e300,
        f64::INFINITY,
    ];
    for w in xs.windows(2) {
        assert!(score_rank(bits(w[0])) < score_rank(bits(w[1])), "{} {}", w[0], w[1]);
    }
}

#[test]
fn rank_tells_scores_apart() {
    let xs = [0u64, 1, 42, 0x7fff_ffff_ffff_ffff, 0x8000_0000_0000_0000, u64::MAX];
    for a in xs {
        for b in xs {
            assert_eq!(score_rank(a) == score_rank(b), a == b);
        }
    }
}

#[test]
fn top_rows_takes_the_best_first() {
    let scores: Vec<u64> = [0.5, 0.9, 0.1, 0.7].iter().map(|x| bits(*x)).collect();
    assert_eq!(top_rows(&scores, 2), vec![1, 3]);
    assert_eq!(top_rows(&scores, 4), vec![1, 3, 0, 2]);
}

#[test]
fn top_rows_edges() {
    let scores: Vec<u64> = [0.5, 0.9].iter().map(|x| bits(*x)).collect();
    assert_eq!(top_rows(&scores, 0), Vec::<usize>::new());
    assert_eq!(top_rows(&scores, 10), vec![1, 0]);
    assert_eq!(top_rows(&[], 3), Vec::<usize>::new());
}

#[test]
fn top_rows_with_negative_scores() {
    let scores: Vec<u64> = [-0.5, -0.9, 0.0, -0.1].iter().map(|x| bits(*x)).collect();
    assert_eq!(top_rows(&scores, 3), vec![2, 3, 0]);
}

#[test]
fn top_rows_with_ties_keeps_the_count_and_the_scores() {
    let scores: Vec<u64> = [1.0, 1.0, 1.0, 0.5].iter().map(|x| bits(*x)).collect();
    let picks = top_rows(&scores, 2);
    assert_eq!(picks.len(), 2);
    assert_ne!(picks[0], picks[1]);
    assert!(picks.iter().all(|p| *p < 3));
}

#[test]
fn top_of_ranks_pairs() {
    let items = vec![pair("a", 0.2), pair("b", 0.8), pair("c", 0.5)];
    assert_eq!(top_of(&items, 2), vec![pair("b", 0.8), pair("c", 0.5)]);
    assert_eq!(top_of(&items, 0), Vec::<PairIdScore>::new());
    assert_eq!(top_of(&items, 5), vec![pair("b", 0.8), pair("c", 0.5), pair("a", 0.2)]);
}

#[test]
fn top_pairs_joins_ids_and_scores() {
    let ids = vec!["x".to_string(), "y".to_string(), "z".to_string()];
    let scores = vec![bits(0.1), bits(0.3), bits(0.2)];
    assert_eq!(top_pairs(&ids, &scores, 2), vec![pair("y", 0.3), pair("z", 0.2)]);
}
