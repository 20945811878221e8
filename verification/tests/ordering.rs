use rapidmesh_tet::ordering::tally_usize_pairs;

#[test]
fn tally_sorts_keys_and_counts_repeats() {
    let keys: Vec<[usize; 2]> = vec![[7, 7], [0, 5], [7, 1], [0, 5], [7, 7], [7, 7]];
    let (k, c) = tally_usize_pairs(&keys);
    assert_eq!(k, vec![[0, 5], [7, 1], [7, 7]]);
    assert_eq!(c, vec![2, 1, 3]);
}

#[test]
fn tally_of_nothing_is_empty() {
    let (k, c) = tally_usize_pairs(&Vec::new());
    assert!(k.is_empty());
    assert!(c.is_empty());
}
