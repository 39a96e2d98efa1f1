use i_triangle::bits::Bit;

#[test]
fn test_ones_start_to_index_0() {
    assert_eq!(u64::ones_start_to_index(1), 1);
    assert_eq!(u64::ones_start_to_index(64), u64::MAX);
}

#[test]
fn test_ones_index_to_end_0() {
    assert_eq!(u64::ones_index_to_end(0), u64::MAX);
    assert_eq!(u64::ones_index_to_end(1), u64::MAX - 1);
}

#[test]
fn test_ones_in_sorted_closed_range_0() {
    assert_eq!(u64::ones_in_sorted_closed_range(0, 63), u64::MAX);
    assert_eq!(u64::ones_in_sorted_closed_range(1, 63), u64::MAX << 1);
    assert_eq!(u64::ones_in_sorted_closed_range(2, 63), u64::MAX << 2);

    assert_eq!(u64::ones_in_sorted_closed_range(0, 62), u64::MAX >> 1);
    assert_eq!(u64::ones_in_sorted_closed_range(0, 61), u64::MAX >> 2);
    assert_eq!(u64::ones_in_sorted_closed_range(0, 60), u64::MAX >> 3);

    // overflow
    assert_eq!(u64::ones_in_sorted_closed_range(0, 64), u64::MAX);
    assert_eq!(u64::ones_in_sorted_closed_range(1, 64), u64::MAX << 1);
    assert_eq!(u64::ones_in_sorted_closed_range(2, 64), u64::MAX << 2);
}

#[test]
fn test_ones_in_range_include_0() {
    // sorted order
    assert_eq!(u64::ones_in_range_include(0, 63), u64::MAX);
    assert_eq!(u64::ones_in_range_include(1, 63), u64::MAX << 1);
    assert_eq!(u64::ones_in_range_include(2, 63), u64::MAX << 2);

    assert_eq!(u64::ones_in_range_include(0, 62), u64::MAX >> 1);
    assert_eq!(u64::ones_in_range_include(0, 61), u64::MAX >> 2);
    assert_eq!(u64::ones_in_range_include(0, 60), u64::MAX >> 3);

    // overflow
    assert_eq!(u64::ones_in_range_include(0, 64), u64::MAX);
    assert_eq!(u64::ones_in_range_include(1, 64), u64::MAX << 1);
    assert_eq!(u64::ones_in_range_include(2, 64), u64::MAX << 2);

    // reversed order
    assert_eq!(u64::ones_in_range_include(63, 0), !u64::ones_in_range_include(1, 62));
    assert_eq!(u64::ones_in_range_include(63, 1), !u64::ones_in_range_include(2, 62));
    assert_eq!(u64::ones_in_range_include(63, 2), !u64::ones_in_range_include(3, 62));

    assert_eq!(u64::ones_in_range_include(62, 0), !u64::ones_in_range_include(1, 61));
    assert_eq!(u64::ones_in_range_include(61, 0), !u64::ones_in_range_include(1, 60));
    assert_eq!(u64::ones_in_range_include(60, 0), !u64::ones_in_range_include(1, 59));
}

#[test]
fn test_next_wrapped_index_0() {
    assert_eq!(0b11_u64.next_wrapped_index(0), 1);
    assert_eq!(0b11_u64.next_wrapped_index(1), 0);

    assert_eq!(0b110_u64.next_wrapped_index(1), 2);
    assert_eq!(0b110_u64.next_wrapped_index(2), 1);
}

#[test]
fn test_prev_wrapped_index_0() {
    assert_eq!(0b011_u64.prev_wrapped_index(0), 1);
    assert_eq!(0b011_u64.prev_wrapped_index(1), 0);
    assert_eq!(0b111_u64.prev_wrapped_index(2), 1);

    assert_eq!(0b0110_u64.prev_wrapped_index(1), 2);
    assert_eq!(0b0110_u64.prev_wrapped_index(2), 1);
    assert_eq!(0b1110_u64.prev_wrapped_index(3), 2);
}

#[test]
fn ones_start_to_index_zero_gives_all() {
    assert_eq!(u64::ones_start_to_index(0), u64::MAX);
    assert_eq!(u64::ones_start_to_index(5), 0b11111);
}

#[test]
fn ones_index_to_end_full_gives_all() {
    assert_eq!(u64::ones_index_to_end(64), u64::MAX);
    assert_eq!(u64::ones_index_to_end(60), 0b1111 << 60);
}

#[test]
fn ones_in_range_include_same_start_and_end_gives_all() {
    assert_eq!(u64::ones_in_range_include(5, 5), u64::MAX);
}

#[test]
fn next_wrapped_index_empty_mask() {
    assert_eq!(0u64.next_wrapped_index(3), 64);
}

#[test]
fn next_and_prev_single_member() {
    assert_eq!(0b1000_u64.next_wrapped_index(3), 3);
    assert_eq!(0b1000_u64.prev_wrapped_index(3), 3);
    assert_eq!((1u64 << 63).next_wrapped_index(63), 63);
    assert_eq!(1u64.prev_wrapped_index(0), 0);
}

#[test]
fn count_ones_counts_members() {
    assert_eq!(i_triangle::bits::count_ones(0b1011), 3);
    assert_eq!(i_triangle::bits::count_ones(u64::MAX), 64);
}
