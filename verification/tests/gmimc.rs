use gmimc_rust_test::field::FieldParams;
use gmimc_rust_test::gmimc::{as_bytes, gmimc_erf};
use gmimc_rust_test::points::sequential_points;
use num_bigint::BigUint;

const M: u128 = 340282366920938463463374557953744961537;

fn small(capacity: u8, words: u8, round: u16, ark: Vec<u128>) -> gmimc_erf<4> {
    gmimc_erf::<4> {
        capacity,
        words,
        round,
        field: FieldParams { modulus: 23, repr_len: 32 },
        ark,
    }
}

#[test]
fn one_round_by_hand() {
    // s0 = 3, mask = (3 + 5)^3 mod 23 = 6, new first word = 6 + 4 = 10
    let h = small(1, 2, 1, vec![5]);
    assert_eq!(h.get_hash_output(&[3, 4]), [10, 3, 0, 0]);
}

#[test]
fn high_bytes_of_first_word_are_kept() {
    // only the 8 low bytes of the field element reach the state
    let h = small(1, 2, 1, vec![5]);
    let s0 = (1u128 << 64) + 3;
    assert_eq!(h.get_hash_output(&[s0, 4]), [(1u128 << 64) + 11, s0, 0, 0]);
}

#[test]
fn several_rounds_and_wide_words() {
    let h = small(2, 4, 3, vec![5, 7, 11]);
    assert_eq!(h.get_hash_output(&[3, 4, 5, 6]), [6, 22, 2, 6]);
    // more than four words write the whole 16 bytes, like four
    let h = small(2, 8, 3, vec![5, 7, 11]);
    assert_eq!(h.get_hash_output(&[3, 4, 5, 6]), [6, 22, 2, 6]);
}

#[test]
fn long_representations_zero_following_bytes() {
    // 36 bytes written from the start of word 0: word 1 is then overwritten,
    // and the 4 low bytes of word 2 become zero
    let h = gmimc_erf::<6> {
        capacity: 1,
        words: 9,
        round: 1,
        field: FieldParams { modulus: 23, repr_len: 40 },
        ark: vec![5],
    };
    assert_eq!(
        h.get_hash_output(&[3, 4, (1u128 << 40) + 0x01020304, 7]),
        [10, 3, 1u128 << 40, 7, 0, 0]
    );
    // 48 bytes: each branch zeroes the whole word that the next branch reads
    let h = gmimc_erf::<6> {
        capacity: 2,
        words: 12,
        round: 2,
        field: FieldParams { modulus: 23, repr_len: 48 },
        ark: vec![5, 9],
    };
    assert_eq!(
        h.get_hash_output(&[3, (1u128 << 70) + 4, (1u128 << 40) + 0x01020304, (1u128 << 100) + 77, 5]),
        [9, 3, 3, 0, 5, 0]
    );
}

#[test]
fn composite_modulus() {
    let h = gmimc_erf::<4> {
        capacity: 1,
        words: 2,
        round: 5,
        field: FieldParams { modulus: 27, repr_len: 8 },
        ark: vec![1, 2, 3, 4, 5],
    };
    assert_eq!(h.get_hash_output(&[0, 0, 0, 1]), [11, 17, 0, 1]);
}

#[test]
fn large_field() {
    let h = gmimc_erf::<6> {
        capacity: 3,
        words: 4,
        round: 4,
        field: FieldParams { modulus: M, repr_len: 24 },
        ark: vec![11, 22, 33, 44],
    };
    assert_eq!(
        h.get_hash_output(&[1, 2, 3, 4]),
        [
            311223257081652198083847326510216864482,
            311223257081652198083847326504839095203,
            311223256926124643366075927556609822564,
            155527554717771398958984816388,
            0,
            0
        ]
    );
    let h = gmimc_erf::<6> {
        capacity: 3,
        words: 2,
        round: 4,
        field: FieldParams { modulus: M, repr_len: 24 },
        ark: vec![11, 22, 33, 44],
    };
    assert_eq!(
        h.get_hash_output(&[(1u128 << 127) + 5, 2, 3, 4]),
        [
            170141183460469231744890765587754366719,
            170141183460469231747980337777992831143,
            170141183460469231749359699020005171984,
            170141183460469231742635546639800739174,
            0,
            0
        ]
    );
}

#[test]
fn words_past_capacity_untouched() {
    let h = gmimc_erf::<6> {
        capacity: 2,
        words: 4,
        round: 20,
        field: FieldParams { modulus: M, repr_len: 24 },
        ark: (1..=20).map(|i| i * 1_000_003).collect(),
    };
    let out = h.get_hash_output(&[9, 8, 7, 6, 5]);
    assert_eq!(out[3], 6);
    assert_eq!(out[4], 5);
    assert_eq!(out[5], 0);
}

#[test]
fn no_capacity_is_identity() {
    let h = small(0, 4, 7, vec![1, 2, 3, 4, 5, 6, 7]);
    assert_eq!(h.get_hash_output(&[1, 2, 3]), [1, 2, 3, 0]);
    let h = small(3, 4, 0, vec![]);
    assert_eq!(h.get_hash_output(&[4, 3, 2, 1]), [4, 3, 2, 1]);
}

#[test]
fn field_operations() {
    let f = FieldParams { modulus: 23, repr_len: 8 };
    assert_eq!(f.from_u128(100), 8);
    assert_eq!(f.add(20, 5), 2);
    assert_eq!(f.mul(5, 6), 7);
    assert_eq!(f.cube(4), 18);
    let g = FieldParams { modulus: M, repr_len: 24 };
    let a = M - 1;
    let b = M - 2;
    let expected = (BigUint::from(a) * BigUint::from(b)) % BigUint::from(M);
    assert_eq!(BigUint::from(g.mul(a, b)), expected);
    let cube = (BigUint::from(a) * BigUint::from(a) * BigUint::from(a)) % BigUint::from(M);
    assert_eq!(BigUint::from(g.cube(a)), cube);
    assert_eq!(g.from_u128(u128::MAX), u128::MAX - M);
    assert_eq!(g.add(a, 1), 0);
}

#[test]
fn hex_strings() {
    assert_eq!(gmimc_erf::<4>::convert_hex_strin(&[0, 255, 16]), "0ff10");
    assert_eq!(gmimc_erf::<4>::convert_hex_strin(&[]), "");
    assert_eq!(
        gmimc_erf::<4>::convert_hex_strin(&[u128::MAX, 0xabc]),
        "ffffffffffffffffffffffffffffffffabc"
    );
}

#[test]
fn little_endian_bytes() {
    let bytes = as_bytes(&[1, 0x0102]);
    let mut expected = vec![0u8; 32];
    expected[0] = 1;
    expected[16] = 2;
    expected[17] = 1;
    assert_eq!(bytes, expected);
    assert_eq!(as_bytes(&[]), Vec::<u8>::new());
}

#[test]
fn scatter_points() {
    let h = small(1, 2, 1, vec![5]);
    let points = sequential_points(&h, 3, 23);
    // x = 0: mask = 5^3 mod 23 = 10, output [10, 0, 0, 0]
    // x = 1: mask = 6^3 mod 23 = 9, output [9, 1, 0, 0]
    // x = 2: mask = 7^3 mod 23 = 21, output [21, 2, 0, 0] -> 23 mod 23 = 0
    assert_eq!(points, vec![(0, 10), (1, 10), (2, 0)]);
}

#[test]
fn hex_of_concatenation() {
    let a = [1u128, 0xbeef];
    let b = [0u128, 1 << 120];
    let ab = [&a[..], &b[..]].concat();
    assert_eq!(
        gmimc_erf::<4>::convert_hex_strin(&ab),
        gmimc_erf::<4>::convert_hex_strin(&a) + &gmimc_erf::<4>::convert_hex_strin(&b)
    );
    assert_eq!(gmimc_erf::<4>::convert_hex_strin(&ab), "1beef01000000000000000000000000000000");
}
