//! Differential testing against the standard library's rotations on
//! randomly generated sequences and offsets.

fn rotate_case(data: Vec<u8>, mid: usize) -> bool {
    if data.is_empty() {
        return true;
    }

    let mid = mid % data.len();

    {
        let mut a = data.clone();
        let mut b = data.clone();
        assert_eq!(a.rotate_left(mid), rotate_in_place::left_size(&mut b, mid));
    }

    {
        let mut a = data.clone();
        let mut b = data.clone();
        assert_eq!(a.rotate_right(mid), rotate_in_place::right_size(&mut b, mid));
    }

    true
}

#[test]
fn runner() {
    quickcheck::quickcheck(rotate_case as fn(Vec<u8>, usize) -> bool);
}

fn oracle_case(data: Vec<u8>, mid: usize) -> bool {
    if data.is_empty() {
        return true;
    }

    let mid = mid % data.len();

    let mut via_std = data.clone();
    via_std.rotate_left(mid);

    let mut via_dispatch = data.clone();
    rotate_in_place::dispatch::ptr_rotate_opt_for_size(&mut via_dispatch, mid, mid, data.len() - mid, false);

    let mut via_forced_cycle = data.clone();
    rotate_in_place::left_size(&mut via_forced_cycle, mid);

    let mut via_reference = data.clone();
    rotate_in_place::status_quo_left(&mut via_reference, mid);

    via_std == via_dispatch && via_std == via_forced_cycle && via_std == via_reference
}

#[test]
fn oracle_matches_on_random_inputs() {
    quickcheck::quickcheck(oracle_case as fn(Vec<u8>, usize) -> bool);
}

fn oracle_case_right(data: Vec<u8>, k: usize) -> bool {
    if data.is_empty() {
        return true;
    }

    let k = k % data.len();

    let mut via_std = data.clone();
    via_std.rotate_right(k);

    let mut via_size = data.clone();
    rotate_in_place::right_size(&mut via_size, k);

    let mut via_reference = data.clone();
    rotate_in_place::status_quo_right(&mut via_reference, k);

    via_std == via_size && via_std == via_reference
}

#[test]
fn oracle_matches_on_random_inputs_right() {
    quickcheck::quickcheck(oracle_case_right as fn(Vec<u8>, usize) -> bool);
}
