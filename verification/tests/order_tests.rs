use tunerfish::order::{lower_bound, max_key, nearest_below, stable_order};

/// The key whose unsigned order is `f32::total_cmp` order.
fn key(x: f32) -> u32 {
    let b = x.to_bits();
    if b >> 31 == 1 {
        !b
    } else {
        b | 0x8000_0000
    }
}

#[test]
fn stable_order_ascending_keeps_ties_in_place() {
    let keys = vec![5, 1, 5, 0, 1];
    assert_eq!(stable_order(&keys, false), vec![3, 1, 4, 0, 2]);
}

#[test]
fn stable_order_descending_keeps_ties_in_place() {
    let keys = vec![5, 1, 5, 0, 1];
    assert_eq!(stable_order(&keys, true), vec![0, 2, 1, 4, 3]);
}

#[test]
fn stable_order_empty() {
    assert_eq!(stable_order(&Vec::new(), true), Vec::<usize>::new());
}

#[test]
fn stable_order_matches_total_cmp_sort() {
    let xs = [3.5f32, -1.0, 0.0, -0.0, 2.25, 3.5, f32::INFINITY, -7.0];
    let keys: Vec<u32> = xs.iter().map(|&x| key(x)).collect();
    let mut expected: Vec<usize> = (0..xs.len()).collect();
    expected.sort_by(|&a, &b| xs[a].total_cmp(&xs[b]));
    assert_eq!(stable_order(&keys, false), expected);
    let mut expected_desc: Vec<usize> = (0..xs.len()).collect();
    expected_desc.sort_by(|&a, &b| xs[b].total_cmp(&xs[a]));
    assert_eq!(stable_order(&keys, true), expected_desc);
}

#[test]
fn nearest_below_prefers_smallest_then_earliest() {
    let keys = vec![30, 10, 20, 10];
    let all = vec![true; 4];
    assert_eq!(nearest_below(&keys, &all, 50), Some(1));
    let not_one = vec![true, false, true, true];
    assert_eq!(nearest_below(&keys, &not_one, 50), Some(3));
}

#[test]
fn nearest_below_respects_bound_and_availability() {
    let keys = vec![30, 10, 20];
    assert_eq!(nearest_below(&keys, &vec![true; 3], 10), None);
    assert_eq!(nearest_below(&keys, &vec![true; 3], 11), Some(1));
    assert_eq!(nearest_below(&keys, &vec![false; 3], 100), None);
}

#[test]
fn lower_bound_finds_partition_point() {
    let keys = vec![1, 3, 3, 7, 9];
    assert_eq!(lower_bound(&keys, 0), 0);
    assert_eq!(lower_bound(&keys, 3), 1);
    assert_eq!(lower_bound(&keys, 4), 3);
    assert_eq!(lower_bound(&keys, 10), 5);
    assert_eq!(lower_bound(&Vec::new(), 10), 0);
}

#[test]
fn max_key_with_floor() {
    assert_eq!(max_key(&vec![4, 9, 2], 0), 9);
    assert_eq!(max_key(&vec![4, 9, 2], 12), 12);
    assert_eq!(max_key(&Vec::new(), 7), 7);
}
