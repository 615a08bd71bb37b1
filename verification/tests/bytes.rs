use gmimc_rust_test::bits::count_ones_u8;
use gmimc_rust_test::bytes::{u128_from_le_bytes, u128_to_le_bytes};

#[test]
fn byte_one_bits() {
    assert_eq!(count_ones_u8(0), 0);
    assert_eq!(count_ones_u8(0b1010_0101), 4);
    assert_eq!(count_ones_u8(255), 8);
    for x in 0..=255u8 {
        assert_eq!(count_ones_u8(x), x.count_ones());
    }
}

#[test]
fn word_bytes_round_trip() {
    let x: u128 = 0x0f0e0d0c0b0a09080706050403020100;
    let b = u128_to_le_bytes(x);
    assert_eq!(b, [0, 1, 2, 3, 4, 5, 6, 7, 8, 9, 10, 11, 12, 13, 14, 15]);
    let mut buf = vec![0xaau8; 3];
    buf.extend_from_slice(&b);
    assert_eq!(u128_from_le_bytes(&buf, 3), x);
    assert_eq!(u128_from_le_bytes(&u128_to_le_bytes(u128::MAX), 0), u128::MAX);
}
