use ttfhe::utils::{decode, decode_bootstrapped, decode_modswitched, encode};

#[test]
fn encode_puts_the_message_in_the_top_bits() {
    assert_eq!(encode(0), 0);
    assert_eq!(encode(1), 1u64 << 60);
    assert_eq!(encode(15), 15u64 << 60);
    assert_eq!(encode(16), 0);
}

#[test]
fn decode_rounds_to_nearest() {
    for m in 0..16u8 {
        assert_eq!(decode(encode(m)), m);
        assert_eq!(decode(encode(m).wrapping_add((1u64 << 59) - 1)), m);
        assert_eq!(decode(encode(m).wrapping_sub(1u64 << 59)), m);
    }
    assert_eq!(decode(1u64 << 59), 1);
    assert_eq!(decode(u64::MAX), 0);
}

#[test]
fn decode_modswitched_rounds_to_nearest() {
    assert_eq!(decode_modswitched(0), 0);
    assert_eq!(decode_modswitched(128), 1);
    assert_eq!(decode_modswitched(63), 0);
    assert_eq!(decode_modswitched(64), 1);
    assert_eq!(decode_modswitched(2047), 0);
    assert_eq!(decode_modswitched(15 * 128), 15);
}

#[test]
fn decode_bootstrapped_folds_the_upper_half() {
    assert_eq!(decode_bootstrapped(encode(3)), 3);
    assert_eq!(decode_bootstrapped(encode(7)), 7);
    // the complement of encode(12) rounds to encode(4)
    assert_eq!(decode_bootstrapped(encode(12)), 4);
    assert_eq!(decode_bootstrapped(u64::MAX), 0);
}
