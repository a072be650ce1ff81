use prime_ledger::centroid::{centroid_now, flip_digit};

#[test]
fn centroid_is_the_low_bit_of_the_timestamp() {
    assert_eq!(centroid_now(0), 0);
    assert_eq!(centroid_now(1), 1);
    assert_eq!(centroid_now(1_700_000_000_000), 0);
    assert_eq!(centroid_now(1_700_000_000_001), 1);
    assert_eq!(centroid_now(u64::MAX), 1);
}

#[test]
fn flip_swaps_the_two_digits() {
    assert_eq!(flip_digit(0), 1);
    assert_eq!(flip_digit(1), 0);
}

#[test]
fn flip_twice_is_identity() {
    for b in [0u8, 1u8] {
        assert_eq!(flip_digit(flip_digit(b)), b);
    }
}
