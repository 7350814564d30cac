//! Unit tests for the size-class arithmetic.

use tlsf::function::{
    calculate_allocation_searching_size, calculate_allocation_size, calculate_index,
    calculate_lsb, calculate_mapping_indices, calculate_msb, gigabytes_of, is_aligned,
    kilobytes_of, megabytes_of, next_chunk_size, round_down_block, round_up_block,
};

#[test]
fn msb_of_zero_is_none() {
    assert_eq!(calculate_msb(0), None);
}

#[test]
fn msb_exact_values() {
    assert_eq!(calculate_msb(1), Some(0));
    assert_eq!(calculate_msb(2), Some(1));
    assert_eq!(calculate_msb(3), Some(1));
    assert_eq!(calculate_msb(128), Some(7));
    assert_eq!(calculate_msb(255), Some(7));
    assert_eq!(calculate_msb(256), Some(8));
    assert_eq!(calculate_msb(200000), Some(17));
    assert_eq!(calculate_msb(1 << 35), Some(35));
    assert_eq!(calculate_msb(u64::MAX), Some(63));
}

#[test]
fn lsb_exact_values() {
    assert_eq!(calculate_lsb(0), Some(0));
    assert_eq!(calculate_lsb(1), Some(0));
    assert_eq!(calculate_lsb(6), Some(1));
    assert_eq!(calculate_lsb(64), Some(6));
    assert_eq!(calculate_lsb(1 << 35), Some(35));
}

#[test]
fn rounding_and_alignment() {
    assert_eq!(round_up_block(0), 0);
    assert_eq!(round_up_block(1), 16);
    assert_eq!(round_up_block(16), 16);
    assert_eq!(round_up_block(17), 32);
    assert_eq!(round_down_block(31), 16);
    assert_eq!(round_down_block(32), 32);
    assert!(is_aligned(0));
    assert!(is_aligned(48));
    assert!(!is_aligned(24));
}

#[test]
fn allocation_size_has_a_floor() {
    assert_eq!(calculate_allocation_size(0), 16);
    assert_eq!(calculate_allocation_size(1), 16);
    assert_eq!(calculate_allocation_size(16), 16);
    assert_eq!(calculate_allocation_size(24), 32);
    assert_eq!(calculate_allocation_size(100), 112);
}

#[test]
fn searching_size_rounds_within_row() {
    // below the small cutoff the searching size is the allocation size
    assert_eq!(calculate_allocation_searching_size(24), 32);
    assert_eq!(calculate_allocation_searching_size(100), 112);
    // at 200 the allocation size is 208 and the step is 4
    assert_eq!(calculate_allocation_searching_size(200), 208);
    // 200000 rounds up to the next multiple of 4096
    assert_eq!(calculate_allocation_searching_size(200000), 200704);
    // just below a power of two the searching size reaches that power
    assert_eq!(calculate_allocation_searching_size(255), 256);
}

#[test]
fn mapping_indices_small_and_large() {
    assert_eq!(calculate_mapping_indices(64), (0, 16));
    assert_eq!(calculate_mapping_indices(32), (0, 8));
    assert_eq!(calculate_mapping_indices(127), (0, 31));
    assert_eq!(calculate_mapping_indices(128), (1, 0));
    assert_eq!(calculate_mapping_indices(192), (1, 16));
    assert_eq!(calculate_mapping_indices(208), (1, 20));
    assert_eq!(calculate_mapping_indices(256), (2, 0));
}

#[test]
fn flat_index_of_class() {
    assert_eq!(calculate_index((0, 0)), 0);
    assert_eq!(calculate_index((0, 16)), 16);
    assert_eq!(calculate_index((1, 20)), 52);
    assert_eq!(calculate_index((29, 31)), 959);
}

#[test]
fn byte_unit_helpers() {
    assert_eq!(kilobytes_of(3), 3072);
    assert_eq!(megabytes_of(2), 2097152);
    assert_eq!(gigabytes_of(1), 1073741824);
}

#[test]
fn next_chunk_size_policy() {
    // nothing allocated yet: the initial chunk is 2 MiB for small requests
    assert_eq!(next_chunk_size(0, 0, 64), 2097152);
    assert_eq!(next_chunk_size(0, 0, 0), 2097152);
    // a huge first request rounds 4 * 2^(msb+1) up to an 8 MiB multiple
    assert_eq!(next_chunk_size(0, 0, 3000000), 16777216);
    // afterwards the pool doubles the last chunk when that is enough
    assert_eq!(next_chunk_size(2097152, 2097152, 64), 4194304);
    // otherwise it rounds 4 * 2^(msb+1) up to a last-chunk multiple
    assert_eq!(next_chunk_size(2097152, 2097152, 3000000), 16777216);
}
