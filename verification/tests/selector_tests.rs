use alns_rs::selector::{select_index, select_with_weights, sum_weights};

#[test]
fn sum_of_weights() {
    assert_eq!(sum_weights(&vec![]), 0);
    assert_eq!(sum_weights(&vec![3, 0, 4]), 7);
    assert_eq!(sum_weights(&vec![u64::MAX, u64::MAX]), 2 * (u64::MAX as u128));
}

#[test]
fn first_bucket_is_the_first_weight() {
    let weights = vec![5u64, 3, 2];
    for draw in 0..5u128 {
        assert_eq!(select_index(&weights, draw), 0);
    }
}

#[test]
fn draw_on_a_boundary_goes_to_the_upper_bucket() {
    let weights = vec![5u64, 3, 2];
    assert_eq!(select_index(&weights, 4), 0);
    assert_eq!(select_index(&weights, 5), 1);
    assert_eq!(select_index(&weights, 7), 1);
    assert_eq!(select_index(&weights, 8), 2);
    assert_eq!(select_index(&weights, 9), 2);
}

#[test]
fn empty_buckets_are_skipped() {
    let weights = vec![0u64, 4, 0, 0, 1, 0];
    assert_eq!(select_index(&weights, 0), 1);
    assert_eq!(select_index(&weights, 3), 1);
    assert_eq!(select_index(&weights, 4), 4);
}

#[test]
fn single_weighted_operator_is_always_selected() {
    let weights = vec![10u64, 0, 0];
    for _ in 0..2000 {
        assert_eq!(select_with_weights(&weights), 0);
    }
    let last = vec![0u64, 0, 7];
    for _ in 0..2000 {
        assert_eq!(select_with_weights(&last), 2);
    }
}

#[test]
fn equal_weights_are_selected_equally_often() {
    let weights = vec![1u64, 1, 1];
    let mut hits = [0u32; 3];
    for _ in 0..30_000 {
        hits[select_with_weights(&weights)] += 1;
    }
    for count in hits {
        assert!(count > 9_000 && count < 11_000);
    }
}

#[test]
fn selection_follows_the_weights() {
    let weights = vec![3_000_000u64, 1_000_000];
    let mut hits = [0u32; 2];
    for _ in 0..40_000 {
        hits[select_with_weights(&weights)] += 1;
    }
    assert!(hits[0] > 28_500 && hits[0] < 31_500);
    assert_eq!(hits[0] + hits[1], 40_000);
}

#[test]
fn selection_handles_a_total_beyond_sixty_four_bits() {
    let weights = vec![u64::MAX, u64::MAX, u64::MAX];
    for _ in 0..100 {
        assert!(select_with_weights(&weights) < 3);
    }
    assert_eq!(select_index(&weights, u64::MAX as u128), 1);
    assert_eq!(select_index(&weights, 3 * (u64::MAX as u128) - 1), 2);
}
