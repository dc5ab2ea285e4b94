use baby_mimalloc::constants::{MI_LARGE_SIZE_MAX, MI_SMALL_SIZE_MAX};
use baby_mimalloc::utils::{
    bin_for_size, bin_for_wsize, block_size_for_bin, wsize_from_size, wsize_range_in_same_small_bin,
};

#[test]
fn word_size_rounds_up() {
    assert_eq!(wsize_from_size(0), 0);
    assert_eq!(wsize_from_size(1), 1);
    assert_eq!(wsize_from_size(8), 1);
    assert_eq!(wsize_from_size(9), 2);
    assert_eq!(wsize_from_size(1024), 128);
    assert_eq!(wsize_from_size(usize::MAX), usize::MAX / 8 + 1);
}

#[test]
fn small_bins() {
    assert_eq!(bin_for_wsize(0), 1);
    assert_eq!(bin_for_wsize(1), 1);
    assert_eq!(bin_for_wsize(2), 2);
    assert_eq!(bin_for_wsize(3), 4);
    assert_eq!(bin_for_wsize(4), 4);
    assert_eq!(bin_for_wsize(5), 6);
    assert_eq!(bin_for_wsize(7), 8);
    assert_eq!(bin_for_wsize(8), 8);
}

#[test]
fn quasi_logarithmic_bins() {
    // w = wsize - 1, b = floor(log2 w): bin = 4b + ((w >> (b - 2)) & 3) - 3
    assert_eq!(bin_for_wsize(9), 9);
    assert_eq!(bin_for_wsize(10), 9);
    assert_eq!(bin_for_wsize(11), 10);
    assert_eq!(bin_for_wsize(17), 13);
    assert_eq!(bin_for_wsize(128), 24);
    assert_eq!(bin_for_wsize(129), 25);
    assert_eq!(bin_for_wsize(65536), 60);
    assert_eq!(bin_for_wsize(65537), 64);
}

#[test]
fn bins_by_byte_size() {
    assert_eq!(bin_for_size(0), 1);
    assert_eq!(bin_for_size(8), 1);
    assert_eq!(bin_for_size(9), 2);
    assert_eq!(bin_for_size(MI_SMALL_SIZE_MAX), 24);
    assert_eq!(bin_for_size(MI_SMALL_SIZE_MAX + 1), 25);
    assert_eq!(bin_for_size(MI_LARGE_SIZE_MAX), 60);
    assert_eq!(bin_for_size(MI_LARGE_SIZE_MAX + 1), 64);
}

#[test]
fn runs_of_word_sizes_sharing_a_bin() {
    let t = wsize_range_in_same_small_bin();
    assert_eq!(t.len(), 129);
    assert_eq!(t[0], (0, 2));
    assert_eq!(t[1], (0, 2));
    assert_eq!(t[2], (2, 3));
    assert_eq!(t[3], (3, 5));
    assert_eq!(t[4], (3, 5));
    assert_eq!(t[9], (9, 11));
    assert_eq!(t[128], (113, 129));
}

#[test]
fn representative_block_sizes() {
    let t = block_size_for_bin();
    assert_eq!(t.len(), 64);
    assert_eq!(t[1], 8);
    assert_eq!(t[2], 16);
    assert_eq!(t[3], 1);
    assert_eq!(t[4], 32);
    assert_eq!(t[9], 80);
    assert_eq!(t[24], 1024);
    assert_eq!(t[60], MI_LARGE_SIZE_MAX);
    assert_eq!(t[61], 1);
}
