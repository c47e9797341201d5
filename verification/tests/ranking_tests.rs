use zen_engine::ranking::top_positions;

#[test]
fn ascending_top_keeps_ties_in_order() {
    let keys = vec![5u64, 1, 3, 1, 4];
    assert_eq!(top_positions(&keys, 3, false), vec![1, 3, 2]);
    assert_eq!(top_positions(&keys, 10, false), vec![1, 3, 2, 4, 0]);
    assert_eq!(top_positions(&keys, 0, false), Vec::<usize>::new());
}

#[test]
fn descending_top() {
    let keys = vec![5u64, 1, 3, 1, 4];
    assert_eq!(top_positions(&keys, 2, true), vec![0, 4]);
    assert_eq!(top_positions(&vec![2u64, 2, 1], 2, true), vec![0, 1]);
    assert_eq!(top_positions(&vec![0u64, u64::MAX], 1, true), vec![1]);
}

#[test]
fn empty_input_ranks_nothing() {
    assert_eq!(top_positions(&Vec::new(), 3, false), Vec::<usize>::new());
}

#[test]
fn ranking_is_the_stable_sorted_prefix() {
    // Same as sorting by key with a stable sort and keeping the first n.
    let keys = vec![9u64, 2, 7, 2, 2, 8, 1, 7];
    let mut order: Vec<usize> = (0..keys.len()).collect();
    order.sort_by_key(|&i| keys[i]);
    for n in 0..=keys.len() {
        assert_eq!(top_positions(&keys, n, false), order[..n].to_vec());
    }
}
