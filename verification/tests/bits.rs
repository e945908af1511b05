use split_ordered_map::bits::{entry_key_of, parent_bucket, reverse_bits, sentinel_key_of};

#[test]
fn reverse_bits_values() {
    assert_eq!(reverse_bits(0), 0);
    assert_eq!(reverse_bits(1), 0x8000_0000_0000_0000);
    assert_eq!(reverse_bits(2), 0x4000_0000_0000_0000);
    assert_eq!(reverse_bits(3), 0xC000_0000_0000_0000);
    assert_eq!(reverse_bits(u64::MAX), u64::MAX);
    assert_eq!(reverse_bits(0x8000_0000_0000_0000), 1);
    assert_eq!(reverse_bits(reverse_bits(0x0123_4567_89AB_CDEF)), 0x0123_4567_89AB_CDEF);
}

#[test]
fn transformed_keys() {
    // A real entry's key is the reversal with the low bit forced on; a
    // sentinel's is the plain reversal.
    assert_eq!(entry_key_of(0), 1);
    assert_eq!(entry_key_of(1), 0x8000_0000_0000_0001);
    assert_eq!(sentinel_key_of(0), 0);
    assert_eq!(sentinel_key_of(1), 0x8000_0000_0000_0000);
    assert_eq!(sentinel_key_of(2), 0x4000_0000_0000_0000);
    // Sentinel keys are even, entry keys odd.
    assert_eq!(sentinel_key_of(6) % 2, 0);
    assert_eq!(entry_key_of(6) % 2, 1);
}

#[test]
fn parent_clears_top_bit() {
    assert_eq!(parent_bucket(1), 0);
    assert_eq!(parent_bucket(2), 0);
    assert_eq!(parent_bucket(3), 1);
    assert_eq!(parent_bucket(6), 2);
    assert_eq!(parent_bucket(0b1101_0000), 0b0101_0000);
    assert_eq!(parent_bucket(1u64 << 62), 0);
}
