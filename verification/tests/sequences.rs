use searchdb::seqs::dedup;

fn strings(v: &[&str]) -> Vec<String> {
    v.iter().map(|s| s.to_string()).collect()
}

#[test]
fn dedup_keeps_first_occurrences_in_order() {
    assert_eq!(dedup(strings(&["b", "a", "b", "c", "a"])), strings(&["b", "a", "c"]));
}

#[test]
fn dedup_of_nothing_is_nothing() {
    assert_eq!(dedup(Vec::new()), Vec::<String>::new());
}

#[test]
fn dedup_leaves_distinct_items_alone() {
    assert_eq!(dedup(strings(&["x", "y", "z"])), strings(&["x", "y", "z"]));
}
