use median_shape::snap::nearest;

#[test]
fn nothing_is_nearest_among_no_candidates() {
    assert_eq!(nearest(&vec![], 10), None);
}

#[test]
fn least_key_is_nearest() {
    assert_eq!(nearest(&vec![50, 30, 40, 20, 60], 10), Some(3));
    assert_eq!(nearest(&vec![7], 0), Some(0));
}

#[test]
fn first_of_equal_keys_is_nearest() {
    assert_eq!(nearest(&vec![50, 20, 40, 20, 20], 10), Some(1));
    assert_eq!(nearest(&vec![9, 9, 9], 0), Some(0));
}

#[test]
fn first_key_that_is_near_enough_ends_the_search() {
    assert_eq!(nearest(&vec![50, 8, 40, 3, 0], 10), Some(1));
    assert_eq!(nearest(&vec![5, 1, 0], 10), Some(0));
}

#[test]
fn key_at_the_bound_is_not_near_enough() {
    assert_eq!(nearest(&vec![50, 10, 40, 9, 3], 10), Some(3));
    assert_eq!(nearest(&vec![10, 10, 10], 10), Some(0));
}

#[test]
fn keys_of_squared_distances_keep_their_order() {
    let distances = [2.5f64, 0.25, 1.0e-3, 0.5, 1.0e-9, 0.0];
    let keys: Vec<u64> = distances.iter().map(|d| d.to_bits()).collect();
    assert_eq!(nearest(&keys, 1.0e-7f64.to_bits()), Some(4));
    assert_eq!(nearest(&keys[..4].to_vec(), 1.0e-7f64.to_bits()), Some(2));
}
