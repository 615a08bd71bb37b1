use gmimc_rust_test::avalanche::{
    array_u128_to_u8, calculate_avalanche_coefficient, input_value_changes, one_bit_changes,
    xor_u8_16, xor_u8_array, MASK,
};
use gmimc_rust_test::field::FieldParams;
use gmimc_rust_test::gmimc::gmimc_erf;
use num_bigint::BigUint;

const M: u128 = 340282366920938463463374557953744961537;

/// Iterations of the random-input run: each coefficient hashes 513 inputs
/// through 166 rounds (about a fifth of a second here), so a test run takes
/// fifty of them rather than the thousand of a long measurement.
const RAND_INPUT_ITERATIONS: usize = 50;

/// Deterministic pseudo-random values below `m` (a 128-bit multiply-xorshift sequence).
fn pseudo_random(seed: u128, count: usize, m: u128) -> Vec<u128> {
    let mut x = seed;
    let mut out = Vec::new();
    for _ in 0..count {
        x = x.wrapping_mul(0x2360ed051fc65da44385df649fccf645).wrapping_add(0x5851f42d4c957f2d14057b7ef767814f);
        let y = x ^ (x >> 67);
        out.push(y % m);
    }
    out
}

#[test]
fn diff_bit_1() {
    let a = [0b0000_0001u8, 0b0000_0011];
    let b = [0b0010_0001u8, 0b0000_0011];

    // only one difference between a and b
    let difference = xor_u8_array(&a, &b);
    assert_eq!(difference, BigUint::from(1u8));
}

#[test]
fn avalanche_bit_changes() {
    // MIN & MAX
    assert_eq!([1u8, 2, 4, 8, 16, 32, 64, 128], one_bit_changes(&0u8));
    assert_eq!(
        [254u8, 253, 251, 247, 239, 223, 191, 127],
        one_bit_changes(&255u8)
    );
    assert_eq!(
        [
            0b0101_1011,
            0b0101_1000,
            0b0101_1110,
            0b0101_0010,
            0b0100_1010,
            0b0111_1010,
            0b0001_1010,
            0b1101_1010
        ],
        one_bit_changes(&90u8)
    );
    // 0b1010_0101 (165)
    assert_eq!(
        [
            0b1010_0100,
            0b1010_0111,
            0b1010_0001,
            0b1010_1101,
            0b1011_0101,
            0b1000_0101,
            0b1110_0101,
            0b0010_0101
        ],
        one_bit_changes(&165u8)
    );
}

#[test]
fn avalanche_changed_input_group() {
    // the value array [0, 1, 2, 3] has four ones,
    let value = [0b000u128, 0b001, 0b0010, 0b0011];
    let input_values = array_u128_to_u8(&value);
    let changed_values = input_value_changes(&input_values);

    // Checking duplicates
    let mut has_duplicated = false;
    for p in changed_values {
        let mut du_counter = 0;
        for c in changed_values {
            if p == c {
                du_counter += 1
            }
        }
        if du_counter > 1 {
            has_duplicated = true;
            println!("Found duplicates: {:?}", p);
        }
    }
    assert_eq!(has_duplicated, false);
}

#[test]
fn avalanche_calculation() {
    let gmimc = gmimc_erf::<6> {
        capacity: 5,
        words: 4,
        round: 166,
        field: FieldParams { modulus: M, repr_len: 24 },
        ark: pseudo_random(7, 166, M),
    };

    let r = pseudo_random(99, 4, M);
    let value = [r[0], r[1], r[2], r[3]];
    let result = calculate_avalanche_coefficient(&value, &gmimc);
    println!("average diffs: {:?}", result);

    assert_eq!(result >= BigUint::from(128u128), true);
}

#[test]
fn avalanche_rand_input() {
    let gmimc = gmimc_erf::<6> {
        capacity: 5,
        words: 4,
        round: 166,
        field: FieldParams { modulus: M, repr_len: 24 },
        ark: pseudo_random(7, 166, M),
    };

    let mut total_sum_of_average = BigUint::from(0u128);

    let inputs = pseudo_random(2024, 4 * RAND_INPUT_ITERATIONS, M);
    for i in 0..RAND_INPUT_ITERATIONS {
        let value = [inputs[4 * i], inputs[4 * i + 1], inputs[4 * i + 2], inputs[4 * i + 3]];
        let result = calculate_avalanche_coefficient(&value, &gmimc);
        total_sum_of_average += result
    }
    println!("total_sum_of_average: {:?}", total_sum_of_average);
}

#[test]
fn mask_holds_single_bits() {
    for i in 0..8 {
        assert_eq!(MASK[i], 1u8 << i);
    }
}

#[test]
fn array_u128_to_u8_is_big_endian() {
    let bytes = array_u128_to_u8(&[0, 1, 0x0102, u128::MAX]);
    let mut expected = [0u8; 64];
    expected[31] = 1;
    expected[46] = 1;
    expected[47] = 2;
    for k in 48..64 {
        expected[k] = 0xff;
    }
    assert_eq!(bytes, expected);
}

#[test]
fn one_bit_changes_undone_by_second_flip() {
    for v in [0u8, 1, 90, 165, 255] {
        let once = one_bit_changes(&v);
        for i in 0..8 {
            assert_eq!(one_bit_changes(&once[i])[i], v);
            assert_eq!((once[i] ^ v).count_ones(), 1);
        }
    }
}

#[test]
fn input_value_changes_flip_bits_msb_first() {
    let input = array_u128_to_u8(&[5, 6, 7, 8]);
    let changed = input_value_changes(&input);
    // variant 0 flips the most significant bit of byte 0
    assert_eq!(changed[0][0], 0x80);
    assert_eq!(&changed[0][1..], &input[1..]);
    // variant 511 flips the least significant bit of byte 63
    assert_eq!(changed[511][63], input[63] ^ 1);
    // variant 13 flips bit 2 of byte 1
    assert_eq!(changed[13][1], input[1] ^ 0b0000_0100);
    for t in 0..512 {
        assert_eq!(xor_u8_array(&changed[t], &input), BigUint::from(1u8));
        assert_ne!(changed[t], input);
    }
}

#[test]
fn xor_u8_16_counts_differing_bits() {
    let a = [0u8; 16];
    let mut b = [0u8; 16];
    assert_eq!(xor_u8_16(&a, &b), 0);
    b[0] = 0xff;
    b[15] = 0b1010_0000;
    assert_eq!(xor_u8_16(&a, &b), 10);
    assert_eq!(xor_u8_16(&b, &a), 10);
    assert_eq!(xor_u8_16(&[0xff; 16], &[0u8; 16]), 128);
    assert_eq!(xor_u8_16(&b, &b), 0);
}

#[test]
fn xor_u8_array_counts_differing_bits() {
    let a = [0xffu8; 100];
    let b = [0x0fu8; 100];
    assert_eq!(xor_u8_array(&a, &b), BigUint::from(400u32));
    assert_eq!(xor_u8_array(&b, &a), BigUint::from(400u32));
    assert_eq!(xor_u8_array(&a, &a), BigUint::from(0u32));
    assert_eq!(xor_u8_array(&[], &[]), BigUint::from(0u32));
    let c: [u8; 16] = [3; 16];
    let d: [u8; 16] = [5; 16];
    assert_eq!(xor_u8_array(&c, &d), BigUint::from(xor_u8_16(&c, &d)));
}

/// The 64 bytes of the first four output words (little-endian) for 64 input
/// bytes read as four little-endian words.
fn hash64<const N: usize>(h: &gmimc_erf<N>, v: &[u8]) -> [u8; 64] {
    let mut words = [0u128; 4];
    for w in 0..4 {
        let mut block = [0u8; 16];
        block.copy_from_slice(&v[16 * w..16 * w + 16]);
        words[w] = u128::from_le_bytes(block);
    }
    let out = h.get_hash_output(&words);
    let mut bytes = [0u8; 64];
    for w in 0..4 {
        bytes[16 * w..16 * w + 16].copy_from_slice(&out[w].to_le_bytes());
    }
    bytes
}

/// The coefficient counted directly: each variant's hash against the hash of
/// the input's little-endian bytes.
fn direct_coefficient<const N: usize>(h: &gmimc_erf<N>, value: &[u128; 4]) -> u64 {
    let input = array_u128_to_u8(value);
    let mut le = [0u8; 64];
    for w in 0..4 {
        le[16 * w..16 * w + 16].copy_from_slice(&value[w].to_le_bytes());
    }
    let origin = hash64(h, &le);
    let mut total = 0u64;
    for v in input_value_changes(&input).iter() {
        let bytes = hash64(h, v);
        for k in 0..64 {
            total += (bytes[k] ^ origin[k]).count_ones() as u64;
        }
    }
    total / 512
}

#[test]
fn identity_permutation_coefficient() {
    // no rounds: each variant hashes to itself and the input to its own
    // little-endian bytes; with words whose bytes read the same both ways,
    // every variant is one bit away
    let gmimc = gmimc_erf::<4> {
        capacity: 2,
        words: 4,
        round: 0,
        field: FieldParams { modulus: 23, repr_len: 16 },
        ark: vec![],
    };
    let symmetric = [0u128, u128::MAX, 0x0101_0101_0101_0101_0101_0101_0101_0101, 0];
    assert_eq!(calculate_avalanche_coefficient(&symmetric, &gmimc), BigUint::from(1u8));

    // otherwise the big-endian variants sit further from the little-endian input
    let value = [1u128, 2, 3, 4];
    let expected = direct_coefficient(&gmimc, &value);
    assert_eq!(expected, 10);
    assert_eq!(calculate_avalanche_coefficient(&value, &gmimc), BigUint::from(expected));

    // no branches: the same as no rounds
    let gmimc = gmimc_erf::<5> {
        capacity: 0,
        words: 2,
        round: 9,
        field: FieldParams { modulus: M, repr_len: 24 },
        ark: pseudo_random(3, 9, M),
    };
    assert_eq!(calculate_avalanche_coefficient(&symmetric, &gmimc), BigUint::from(1u8));
}

#[test]
fn avalanche_coefficient_matches_direct_count() {
    let gmimc = gmimc_erf::<4> {
        capacity: 2,
        words: 4,
        round: 3,
        field: FieldParams { modulus: 23, repr_len: 16 },
        ark: vec![5, 7, 11],
    };
    let value = [3u128, 4, 5, 6];
    let result = calculate_avalanche_coefficient(&value, &gmimc);
    assert_eq!(result, BigUint::from(direct_coefficient(&gmimc, &value)));
    assert!(result <= BigUint::from(512u32));

    let gmimc = gmimc_erf::<6> {
        capacity: 5,
        words: 4,
        round: 20,
        field: FieldParams { modulus: M, repr_len: 24 },
        ark: pseudo_random(11, 20, M),
    };
    let r = pseudo_random(5, 4, M);
    let value = [r[0], r[1], r[2], r[3]];
    let result = calculate_avalanche_coefficient(&value, &gmimc);
    assert_eq!(result, BigUint::from(direct_coefficient(&gmimc, &value)));
}

#[test]
fn big_endian_layout_round_trip() {
    let data = [0u128, 1, 0x0102_0304_0506_0708_090a_0b0c_0d0e_0f10, u128::MAX - 5];
    let bytes = array_u128_to_u8(&data);
    for i in 0..4 {
        let block: [u8; 16] = bytes[16 * i..16 * i + 16].try_into().unwrap();
        assert_eq!(u128::from_be_bytes(block), data[i]);
    }
}

#[test]
fn big_endian_layout_of_xor() {
    let a = [7u128, 1 << 100, u128::MAX, 12345];
    let b = [3u128, 99, 1 << 64, u128::MAX];
    let ab = [a[0] ^ b[0], a[1] ^ b[1], a[2] ^ b[2], a[3] ^ b[3]];
    let (xa, xb, xab) = (array_u128_to_u8(&a), array_u128_to_u8(&b), array_u128_to_u8(&ab));
    for k in 0..64 {
        assert_eq!(xab[k], xa[k] ^ xb[k]);
    }
    assert_eq!(array_u128_to_u8(&[0u128; 4]), [0u8; 64]);
}

#[test]
fn variant_is_word_with_bit_flipped() {
    let d = [5u128, 6, 7, 8];
    let changed = input_value_changes(&array_u128_to_u8(&d));
    for n in 0..512 {
        let mut e = d;
        e[n / 128] ^= 1u128 << (127 - n % 128);
        assert_eq!(changed[n], array_u128_to_u8(&e));
    }
}

#[test]
fn bit_differences_triangle() {
    let a = [0x0fu8; 16];
    let b = [0x3cu8; 16];
    let c = [0xf0u8; 16];
    assert!(xor_u8_16(&a, &c) <= xor_u8_16(&a, &b) + xor_u8_16(&b, &c));
    assert_eq!(xor_u8_16(&a, &c), 128);
    assert_eq!(xor_u8_16(&a, &b) + xor_u8_16(&b, &c), 128);
}

#[test]
fn bit_differences_add_over_concatenation() {
    let a1 = [1u8, 2, 3];
    let b1 = [1u8, 0, 0];
    let a2 = [0xffu8, 0];
    let b2 = [0u8, 0x81];
    let a = [&a1[..], &a2[..]].concat();
    let b = [&b1[..], &b2[..]].concat();
    assert_eq!(xor_u8_array(&a, &b), xor_u8_array(&a1, &b1) + xor_u8_array(&a2, &b2));
    assert_eq!(xor_u8_array(&a, &b), BigUint::from(13u32));
}
