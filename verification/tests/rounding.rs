use alloc_system::math::round_up;

#[test]
fn round_up_exact_values() {
    assert_eq!(round_up(1, 16), Some(16));
    assert_eq!(round_up(16, 16), Some(16));
    assert_eq!(round_up(17, 16), Some(32));
    assert_eq!(round_up(0, 8), Some(0));
    assert_eq!(round_up(5, 1), Some(5));
    assert_eq!(round_up(4095, 4096), Some(4096));
    assert_eq!(round_up(4097, 4096), Some(8192));
}

#[test]
fn round_up_at_the_top_of_the_address_space() {
    assert_eq!(round_up(usize::MAX, 2), None);
    // usize::MAX is odd, so the next even value below it rounds to itself.
    assert_eq!(round_up(usize::MAX - 1, 2), Some(usize::MAX - 1));
    assert_eq!(round_up(usize::MAX, 1), Some(usize::MAX));
}
