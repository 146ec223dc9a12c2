//! Concrete rotation scenarios and the testable laws on chosen values.

use rotate_in_place::dispatch::{choose_strategy, ptr_rotate_opt_for_size, Strategy};
use rotate_in_place::{left_size, right_size, status_quo_left, status_quo_right};

#[test]
fn left_rotate_five_by_two() {
    let mut v = vec![1, 2, 3, 4, 5];
    left_size(&mut v, 2);
    assert_eq!(v, vec![3, 4, 5, 1, 2]);
}

#[test]
fn right_rotate_five_by_two() {
    let mut v = vec![1, 2, 3, 4, 5];
    right_size(&mut v, 2);
    assert_eq!(v, vec![4, 5, 1, 2, 3]);
}

#[test]
fn left_rotate_ten_by_four_two_cycles() {
    // left = 4, right = 6, gcd(10, 6) = 2: the cycle-following strategy
    // walks two disjoint cycles
    let mut v = vec![1, 2, 3, 4, 5, 6, 7, 8, 9, 10];
    left_size(&mut v, 4);
    assert_eq!(v, vec![5, 6, 7, 8, 9, 10, 1, 2, 3, 4]);
}

#[test]
fn empty_sequence_is_untouched() {
    let mut v: Vec<u8> = vec![];
    left_size(&mut v, 0);
    assert_eq!(v, Vec::<u8>::new());
    right_size(&mut v, 0);
    assert_eq!(v, Vec::<u8>::new());
}

#[test]
fn singleton_is_untouched() {
    let mut v = vec![7];
    left_size(&mut v, 0);
    assert_eq!(v, vec![7]);
    left_size(&mut v, 1);
    assert_eq!(v, vec![7]);
    right_size(&mut v, 0);
    assert_eq!(v, vec![7]);
    right_size(&mut v, 1);
    assert_eq!(v, vec![7]);
}

#[test]
fn rotation_by_zero_and_by_length_is_identity() {
    let data = vec![9u8, 8, 7, 6, 5, 4];
    let mut v = data.clone();
    left_size(&mut v, 0);
    assert_eq!(v, data);
    left_size(&mut v, data.len());
    assert_eq!(v, data);
    right_size(&mut v, 0);
    assert_eq!(v, data);
    right_size(&mut v, data.len());
    assert_eq!(v, data);
}

#[test]
fn left_rotation_follows_index_formula() {
    let data: Vec<u32> = (0..97).collect();
    for mid in [0usize, 1, 13, 48, 96, 97] {
        let mut v = data.clone();
        left_size(&mut v, mid);
        for i in 0..data.len() {
            assert_eq!(v[i], data[(i + mid) % data.len()]);
        }
    }
}

#[test]
fn right_rotation_follows_index_formula() {
    let data: Vec<u32> = (0..60).collect();
    for k in [0usize, 1, 12, 30, 59, 60] {
        let mut v = data.clone();
        right_size(&mut v, k);
        for i in 0..data.len() {
            assert_eq!(v[(i + k) % data.len()], data[i]);
        }
    }
}

#[test]
fn left_then_complement_restores() {
    let data: Vec<u16> = (100..180).collect();
    for mid in 0..=data.len() {
        let mut v = data.clone();
        left_size(&mut v, mid);
        left_size(&mut v, data.len() - mid);
        assert_eq!(v, data);
    }
}

#[test]
fn strategies_agree_on_every_split() {
    let data: Vec<u64> = (0..300).map(|x| x * x + 1).collect();
    for mid in [0usize, 1, 2, 7, 31, 150, 256, 299, 300] {
        let mut forced = data.clone();
        ptr_rotate_opt_for_size(&mut forced, mid, mid, data.len() - mid, true);
        let mut general = data.clone();
        ptr_rotate_opt_for_size(&mut general, mid, mid, data.len() - mid, false);
        let mut reference = data.clone();
        status_quo_left(&mut reference, mid);
        assert_eq!(forced, reference);
        assert_eq!(general, reference);
    }
}

#[test]
fn large_elements_take_the_cycle_strategy_and_agree() {
    // elements larger than four machine words force cycle-following even in
    // the general configuration
    let data: Vec<[u64; 5]> = (0..40u64).map(|x| [x, x + 1, x + 2, x + 3, x + 4]).collect();
    assert_eq!(choose_strategy::<[u64; 5]>(3, 37, false), Strategy::Cycle);
    for mid in [0usize, 3, 20, 39, 40] {
        let mut general = data.clone();
        ptr_rotate_opt_for_size(&mut general, mid, mid, data.len() - mid, false);
        let mut reference = data.clone();
        status_quo_left(&mut reference, mid);
        assert_eq!(general, reference);
    }
}

#[test]
fn rotation_of_inner_region_leaves_rest_untouched() {
    let data: Vec<u8> = (0..30).collect();
    let mut v = data.clone();
    // region [4, 14), split at 10: left extent 0..=5, right extent of 4
    ptr_rotate_opt_for_size(&mut v, 6, 10, 4, false);
    assert_eq!(&v[..4], &data[..4]);
    assert_eq!(&v[14..], &data[14..]);
    assert_eq!(&v[4..14], &[10, 11, 12, 13, 4, 5, 6, 7, 8, 9]);
}

#[test]
fn selection_policy_cases() {
    // an empty extent finishes immediately
    assert_eq!(choose_strategy::<u8>(0, 9, false), Strategy::Finished);
    assert_eq!(choose_strategy::<u8>(9, 0, false), Strategy::Finished);
    assert_eq!(choose_strategy::<u8>(0, 0, true), Strategy::Finished);
    // the forced configuration pins every non-trivial split to cycles
    assert_eq!(choose_strategy::<u8>(1000, 1000, true), Strategy::Cycle);
    // short totals go to cycle-following
    assert_eq!(choose_strategy::<u8>(11, 12, false), Strategy::Cycle);
    // a small extent fits the scratch area
    assert_eq!(choose_strategy::<u8>(100, 2000, false), Strategy::Buffer);
    // both extents too large for the scratch area: block swapping, sided by
    // whichever extent is longer
    assert_eq!(choose_strategy::<u8>(3000, 2000, false), Strategy::BlockLeft);
    assert_eq!(choose_strategy::<u8>(2000, 3000, false), Strategy::BlockRight);
}

#[test]
fn reference_rotations_concrete() {
    let mut v = vec![1, 2, 3, 4, 5];
    status_quo_left(&mut v, 2);
    assert_eq!(v, vec![3, 4, 5, 1, 2]);
    let mut w = vec![1, 2, 3, 4, 5];
    status_quo_right(&mut w, 2);
    assert_eq!(w, vec![4, 5, 1, 2, 3]);
}

#[test]
fn block_swap_splits_agree_with_reference() {
    // extents past the scratch capacity on both sides exercise the
    // block-swap rounds of the general configuration
    let data: Vec<u8> = (0..=255).cycle().take(7000).collect();
    for mid in [2600usize, 3500, 4400] {
        let mut general = data.clone();
        ptr_rotate_opt_for_size(&mut general, mid, mid, data.len() - mid, false);
        let mut reference = data.clone();
        status_quo_left(&mut reference, mid);
        assert_eq!(general, reference);
    }
}

#[test]
fn zero_sized_elements_rotate_trivially() {
    let mut v: Vec<()> = vec![(); 100];
    left_size(&mut v, 37);
    assert_eq!(v.len(), 100);
    ptr_rotate_opt_for_size(&mut v, 40, 40, 60, false);
    assert_eq!(v.len(), 100);
}

#[test]
fn forced_cycle_handles_many_cycles() {
    // n = 1000, right = 750, gcd(1000, 750) = 250 disjoint cycles
    let data: Vec<u16> = (0..1000).collect();
    let mut v = data.clone();
    left_size(&mut v, 250);
    for i in 0..1000 {
        assert_eq!(v[i], data[(i + 250) % 1000]);
    }
}
