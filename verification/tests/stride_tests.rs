use strided_blas::stride::{check_inc, get_first_index, next_index, stride_gap};

#[test]
fn gap_is_the_absolute_stride() {
    assert_eq!(stride_gap(0), 0);
    assert_eq!(stride_gap(1), 1);
    assert_eq!(stride_gap(-1), 1);
    assert_eq!(stride_gap(7), 7);
    assert_eq!(stride_gap(-7), 7);
    assert_eq!(stride_gap(isize::MAX), isize::MAX as usize);
    assert_eq!(stride_gap(isize::MIN), (isize::MAX as usize) + 1);
}

#[test]
fn empty_view_is_always_valid() {
    let none: [u8; 0] = [];
    let some = [1u8, 2, 3];
    for inc in [-3isize, -1, 0, 1, 3, isize::MIN, isize::MAX] {
        assert!(check_inc(0, &none, inc));
        assert!(check_inc(0, &some, inc));
        assert!(check_inc(-1, &none, inc));
        assert!(check_inc(isize::MIN, &some, inc));
    }
}

#[test]
fn unit_stride_needs_n_elements() {
    let buf = [0i32; 5];
    assert!(check_inc(1, &buf, 1));
    assert!(check_inc(5, &buf, 1));
    assert!(!check_inc(6, &buf, 1));
    assert!(check_inc(5, &buf, -1));
    assert!(!check_inc(6, &buf, -1));
}

#[test]
fn wide_stride_needs_one_plus_gaps() {
    // 1 + (n - 1) * |inc| = 1 + 3 * 3 = 10
    let ten = [0u16; 10];
    let nine = [0u16; 9];
    assert!(check_inc(4, &ten, 3));
    assert!(check_inc(4, &ten, -3));
    assert!(!check_inc(4, &nine, 3));
    assert!(!check_inc(4, &nine, -3));
    // 1 + 4 * 3 = 13
    assert!(!check_inc(5, &ten, 3));
    // 1 + 3 * 4 = 13
    assert!(!check_inc(4, &ten, 4));
    // 1 + 1 * 9 = 10
    assert!(check_inc(2, &ten, 9));
    assert!(!check_inc(2, &ten, 10));
}

#[test]
fn zero_stride_needs_one_element() {
    let none: [u64; 0] = [];
    let one = [42u64];
    assert!(!check_inc(1, &none, 0));
    assert!(!check_inc(1000, &none, 0));
    assert!(check_inc(1, &one, 0));
    assert!(check_inc(1000, &one, 0));
    assert!(check_inc(isize::MAX, &one, 0));
}

#[test]
fn single_element_view_ignores_the_stride() {
    let none: [u8; 0] = [];
    let one = [1u8];
    for inc in [-9isize, -1, 0, 1, 9, isize::MIN, isize::MAX] {
        assert!(check_inc(1, &one, inc));
        assert!(!check_inc(1, &none, inc));
    }
}

#[test]
fn extreme_counts_and_strides_are_rejected_without_overflow() {
    let buf = [0u8; 16];
    assert!(!check_inc(isize::MAX, &buf, isize::MAX));
    assert!(!check_inc(isize::MAX, &buf, isize::MIN));
    assert!(!check_inc(2, &buf, isize::MIN));
    assert!(!check_inc(2, &buf, isize::MAX));
    assert!(!check_inc(isize::MAX, &buf, 1));
    assert!(!check_inc(isize::MAX, &buf, -1));
}

#[test]
fn first_index_of_single_element_is_zero() {
    assert_eq!(get_first_index(1, 1), 0);
    assert_eq!(get_first_index(1, -1), 0);
    assert_eq!(get_first_index(1, 0), 0);
    assert_eq!(get_first_index(1, 5), 0);
    assert_eq!(get_first_index(1, -5), 0);
    assert_eq!(get_first_index(1, isize::MIN), 0);
}

#[test]
fn first_index_of_forward_walk_is_zero() {
    assert_eq!(get_first_index(2, 1), 0);
    assert_eq!(get_first_index(10, 3), 0);
    assert_eq!(get_first_index(10, 0), 0);
    assert_eq!(get_first_index(usize::MAX, isize::MAX), 0);
}

#[test]
fn first_index_of_backward_walk_is_last_position() {
    // (n - 1) * |inc|
    assert_eq!(get_first_index(2, -1), 1);
    assert_eq!(get_first_index(5, -1), 4);
    assert_eq!(get_first_index(4, -3), 9);
    assert_eq!(get_first_index(2, -9), 9);
    assert_eq!(get_first_index(3, isize::MIN / 4), 2 * ((isize::MAX as usize + 1) / 4));
}

#[test]
fn first_index_of_empty_view_is_zero() {
    assert_eq!(get_first_index(0, -1), 0);
    assert_eq!(get_first_index(0, -7), 0);
    assert_eq!(get_first_index(0, 0), 0);
    assert_eq!(get_first_index(0, 7), 0);
}

#[test]
fn first_index_is_the_last_element_a_valid_view_needs() {
    // A buffer that is just long enough ends at the first index of the
    // backward walk.
    let buf = [0u8; 10];
    assert!(check_inc(4, &buf, -3));
    assert_eq!(get_first_index(4, -3), buf.len() - 1);
}

#[test]
fn next_index_moves_by_one_stride() {
    assert_eq!(next_index(0, 1), 1);
    assert_eq!(next_index(0, 3), 3);
    assert_eq!(next_index(9, -3), 6);
    assert_eq!(next_index(3, -3), 0);
    assert_eq!(next_index(5, 0), 5);
    assert_eq!(next_index(usize::MAX, isize::MIN), (isize::MAX as usize));
    assert_eq!(next_index(0, isize::MAX), isize::MAX as usize);
}

#[test]
fn walk_from_first_index_visits_the_view_in_logical_order() {
    // A backward view of 4 elements with gap 3 lives at 9, 6, 3, 0.
    let mut at = get_first_index(4, -3);
    let mut seen = vec![at];
    for _ in 1..4 {
        at = next_index(at, -3);
        seen.push(at);
    }
    assert_eq!(seen, vec![9, 6, 3, 0]);
    // The forward view lives at 0, 3, 6, 9.
    let mut at = get_first_index(4, 3);
    let mut seen = vec![at];
    for _ in 1..4 {
        at = next_index(at, 3);
        seen.push(at);
    }
    assert_eq!(seen, vec![0, 3, 6, 9]);
}
