//! Single-bit input mutations, bit-difference counts, and the avalanche
//! coefficient of the GMiMC permutation built from them.

use vstd::prelude::*;
use num_bigint::BigUint;
use crate::bits::{
    flip_bit, ones, hamming, hamming_prefix, count_ones_u8, lemma_hamming_one_position,
    lemma_hamming_symmetric, lemma_hamming_bound,
};
use crate::bytes::{
    le_byte, le_words, words_le_bytes, u128_to_le_bytes, u128_from_le_bytes, pow256,
    lemma_pow256_positive, lemma_pow256_16, lemma_le_byte_xor, lemma_le_byte_single_bit,
};
use crate::bignum::{biguint_value, biguint_from_u128, biguint_add_assign_u32, biguint_add_assign, biguint_div};
use crate::gmimc::{gmimc_erf, as_bytes};

verus! {

/// The one-bit masks, least significant bit first.
pub const MASK: [u8; 8] = [
    0b0000_0001,
    0b0000_0010,
    0b0000_0100,
    0b0000_1000,
    0b0001_0000,
    0b0010_0000,
    0b0100_0000,
    0b1000_0000,
];

/// The bytes of the words `ws`, each word big-endian, in order.
pub open spec fn words_be_bytes(ws: Seq<u128>) -> Seq<u8> {
    Seq::new(16 * ws.len(), |i: int| le_byte(ws[i / 16] as nat, (15 - i % 16) as nat))
}

/// The bytes `s` with bit `t` inverted, where bits are numbered from the most
/// significant bit of the first byte: byte `t / 8`, bit `7 - t % 8`.
pub open spec fn bit_variant(s: Seq<u8>, t: int) -> Seq<u8> {
    s.update(t / 8, flip_bit(s[t / 8], 7 - t % 8))
}

/// The four words, big-endian, one after the other.
pub fn array_u128_to_u8(data: &[u128; 4]) -> (res: [u8; 64])
    ensures
        res@ == words_be_bytes(data@),
{
    let mut res: [u8; 64] = [0u8; 64];
    for i in 0..4usize
        invariant
            forall|k: int| 0 <= k < 16 * i ==> #[trigger] res@[k] == words_be_bytes(data@)[k],
    {
        let le = u128_to_le_bytes(data[i]);
        for k in 0..16usize
            invariant
                i < 4,
                forall|j: int| 0 <= j < 16 ==> #[trigger] le@[j] == le_byte(data@[i as int] as nat, j as nat),
                forall|j: int| 0 <= j < 16 * i + k ==> #[trigger] res@[j] == words_be_bytes(data@)[j],
        {
            res[16 * i + k] = le[15 - k];
            proof {
                let j = 16 * i + k;
                assert(j / 16 == i && j % 16 == k) by (nonlinear_arith)
                    requires j == 16 * i + k, k < 16;
            }
        }
    }
    assert(res@ =~= words_be_bytes(data@));
    res
}

/// The eight bytes obtained from `value` by inverting one bit each:
/// entry `i` has bit `i` inverted.
pub fn one_bit_changes(value: &u8) -> (shifted: [u8; 8])
    ensures
        forall|i: int| 0 <= i < 8 ==> #[trigger] shifted@[i] == flip_bit(*value, i),
{
    let mut shifted_values: [u8; 8] = [0u8, 0, 0, 0, 0, 0, 0, 0];
    for i in 0..8usize
        invariant
            forall|k: int| 0 <= k < i ==> #[trigger] shifted_values@[k] == flip_bit(*value, k),
    {
        let bit: u8 = 1u8 << (i as u8);
        shifted_values[i] = *value ^ bit;
    }
    shifted_values
}

/// The 512 single-bit variants of `input_value`: variant `t` has bit `t`
/// inverted, bits being numbered from the most significant bit of byte 0.
pub fn input_value_changes(input_value: &[u8; 64]) -> (mutated: [[u8; 64]; 512])
    ensures
        forall|t: int| 0 <= t < 512 ==> #[trigger] mutated@[t]@ == bit_variant(input_value@, t),
{
    let mut mutated_values: [[u8; 64]; 512] = [*input_value; 512];
    let mut idx: usize = 512;
    let mut i: usize = 0;
    while i <= 64
        invariant_except_break
            i <= 64,
            idx == 512 - 8 * i,
        invariant
            forall|t: int| idx <= t < 512 ==> #[trigger] mutated_values@[t]@ == bit_variant(input_value@, t),
            forall|t: int| 0 <= t < idx ==> #[trigger] mutated_values@[t] == *input_value,
        ensures
            idx == 0,
        decreases 65 - i,
    {
        if idx == 0 {
            break;
        } else {
            let byte_pos: usize = 63 - i;
            let bit_changes = one_bit_changes(&input_value[byte_pos]);
            for c_i in 0..8usize
                invariant
                    i < 64,
                    byte_pos == 63 - i,
                    idx == 512 - 8 * i - c_i,
                    forall|k: int| 0 <= k < 8 ==> #[trigger] bit_changes@[k] == flip_bit(input_value@[byte_pos as int], k),
                    forall|t: int| idx <= t < 512 ==> #[trigger] mutated_values@[t]@ == bit_variant(input_value@, t),
                    forall|t: int| 0 <= t < idx ==> #[trigger] mutated_values@[t] == *input_value,
            {
                idx = idx - 1;
                let mut row: [u8; 64] = mutated_values[idx];
                row[byte_pos] = bit_changes[c_i];
                mutated_values[idx] = row;
                proof {
                    let t = idx as int;
                    assert(t / 8 == byte_pos && t % 8 == 7 - c_i) by (nonlinear_arith)
                        requires t == 511 - 8 * i - c_i, c_i < 8, byte_pos == 63 - i;
                    assert(row@ =~= bit_variant(input_value@, t));
                }
            }
            i = i + 1;
        }
    }
    mutated_values
}

/// The number of bit positions in which the two 16-byte arrays differ.
pub fn xor_u8_16(a: &[u8; 16], b: &[u8; 16]) -> (diff: u128)
    ensures
        diff == hamming(a@, b@),
{
    let mut diff_counter: u128 = 0;
    for i in 0..16usize
        invariant
            diff_counter == hamming_prefix(a@, b@, i as int),
            diff_counter <= 8 * i,
    {
        let xor = a[i] ^ b[i];
        diff_counter = diff_counter + count_ones_u8(xor) as u128;
    }
    diff_counter
}

/// The number of bit positions in which the two byte strings differ.
pub fn xor_u8_array(a: &[u8], b: &[u8]) -> (diff: BigUint)
    requires
        a@.len() == b@.len(),
    ensures
        biguint_value(diff) == hamming(a@, b@),
{
    let mut diff_counter = biguint_from_u128(0u128);
    let n = a.len();
    for i in 0..n
        invariant
            n == a@.len(),
            a@.len() == b@.len(),
            biguint_value(diff_counter) == hamming_prefix(a@, b@, i as int),
    {
        let xor = a[i] ^ b[i];
        biguint_add_assign_u32(&mut diff_counter, count_ones_u8(xor));
    }
    diff_counter
}


/// The 64 bytes that the permutation makes of 64 input bytes: the input is
/// read as four little-endian words, and the first four output words are
/// written back little-endian.
pub open spec fn hash_bytes<const N: usize>(h: gmimc_erf<N>, v: Seq<u8>) -> Seq<u8> {
    words_le_bytes(h.hash(le_words(v)).take(4))
}

/// The sum, over the first `n` single-bit variants of `inb`, of the number of
/// bits in which the hash of the variant differs from `origin`, the hash of
/// the unmodified input.
pub open spec fn avalanche_sum<const N: usize>(
    h: gmimc_erf<N>,
    inb: Seq<u8>,
    origin: Seq<u8>,
    n: int,
) -> nat
    decreases n,
{
    if n <= 0 {
        0
    } else {
        avalanche_sum(h, inb, origin, n - 1) + hamming(hash_bytes(h, bit_variant(inb, n - 1)), origin)
    }
}

/// Hashes 64 bytes, read as four little-endian words, and returns the first
/// four output words as 64 little-endian bytes.
fn hash_variant<const N: usize>(h: &gmimc_erf<N>, v: &[u8]) -> (out: [u8; 64])
    requires
        v@.len() == 64,
        N >= 4,
        h.accepts(4),
    ensures
        out@ == hash_bytes(*h, v@),
{
    let mut words: [u128; 4] = [0u128; 4];
    for w in 0..4usize
        invariant
            v@.len() == 64,
            forall|j: int| 0 <= j < w ==> #[trigger] words@[j] == le_words(v@)[j],
    {
        words[w] = u128_from_le_bytes(v, 16 * w);
    }
    assert(words@ =~= le_words(v@));
    let hashed = h.get_hash_output(words.as_slice());
    let ghost out_words = h.hash(le_words(v@)).take(4);
    let mut res: [u8; 64] = [0u8; 64];
    for w in 0..4usize
        invariant
            N >= 4,
            hashed@ == h.hash(le_words(v@)),
            hashed@.len() == N,
            out_words == h.hash(le_words(v@)).take(4),
            forall|j: int| 0 <= j < 16 * w ==> #[trigger] res@[j] == words_le_bytes(out_words)[j],
    {
        let le = u128_to_le_bytes(hashed[w]);
        for k in 0..16usize
            invariant
                w < 4,
                N >= 4,
                hashed@ == h.hash(le_words(v@)),
                hashed@.len() == N,
                out_words == h.hash(le_words(v@)).take(4),
                forall|j: int| 0 <= j < 16 ==> #[trigger] le@[j] == le_byte(hashed@[w as int] as nat, j as nat),
                forall|j: int| 0 <= j < 16 * w + k ==> #[trigger] res@[j] == words_le_bytes(out_words)[j],
        {
            res[16 * w + k] = le[k];
            proof {
                let j = 16 * w + k;
                assert(j / 16 == w && j % 16 == k) by (nonlinear_arith)
                    requires j == 16 * w + k, k < 16;
            }
        }
    }
    assert(res@ =~= hash_bytes(*h, v@));
    res
}

/// The avalanche coefficient of `hash_function` at `input_value`: the mean,
/// over the 512 single-bit variants of the big-endian bytes of `input_value`,
/// of the number of bits in which the hash of the variant differs from the
/// hash of the input itself (its little-endian bytes), rounded down.
pub fn calculate_avalanche_coefficient<const N: usize>(
    input_value: &[u128; 4],
    hash_function: &gmimc_erf<N>,
) -> (coefficient: BigUint)
    requires
        N >= 4,
        hash_function.accepts(4),
    ensures
        biguint_value(coefficient) == avalanche_sum(
            *hash_function,
            words_be_bytes(input_value@),
            hash_bytes(*hash_function, words_le_bytes(input_value@)),
            512,
        ) / 512,
{
    let input_values = array_u128_to_u8(input_value);
    let input_variants = input_value_changes(&input_values);
    let origin_bytes = as_bytes(input_value.as_slice());
    let origin_hash_output = hash_variant(hash_function, origin_bytes.as_slice());
    let ghost origin = hash_bytes(*hash_function, words_le_bytes(input_value@));
    let mut total_different_count = biguint_from_u128(0u128);
    for t in 0..512usize
        invariant
            N >= 4,
            hash_function.accepts(4),
            input_values@ == words_be_bytes(input_value@),
            origin_hash_output@ == origin,
            forall|u: int| 0 <= u < 512 ==> #[trigger] input_variants@[u]@ == bit_variant(input_values@, u),
            biguint_value(total_different_count) == avalanche_sum(*hash_function, input_values@, origin, t as int),
    {
        let variant = input_variants[t];
        let hash_output = hash_variant(hash_function, variant.as_slice());
        let diff_count = xor_u8_array(hash_output.as_slice(), origin_hash_output.as_slice());
        biguint_add_assign(&mut total_different_count, diff_count);
    }
    biguint_div(total_different_count, biguint_from_u128(512u128))
}

/// Inverting the same bit twice gives back the byte.
pub proof fn lemma_flip_bit_twice(v: u8, i: int)
    requires
        0 <= i < 8,
    ensures
        flip_bit(flip_bit(v, i), i) == v,
{
    let b = i as u8;
    assert((v ^ (1u8 << b)) ^ (1u8 << b) == v) by (bit_vector);
}

proof fn lemma_ones_single_bit(i: int)
    requires
        0 <= i < 8,
    ensures
        ones((1u8 << (i as u8)) as nat) == 1,
{
    reveal_with_fuel(ones, 9);
    let b = i as u8;
    if b == 0 {
        assert(1u8 << 0u8 == 1u8) by (bit_vector);
    } else if b == 1 {
        assert(1u8 << 1u8 == 2u8) by (bit_vector);
    } else if b == 2 {
        assert(1u8 << 2u8 == 4u8) by (bit_vector);
    } else if b == 3 {
        assert(1u8 << 3u8 == 8u8) by (bit_vector);
    } else if b == 4 {
        assert(1u8 << 4u8 == 16u8) by (bit_vector);
    } else if b == 5 {
        assert(1u8 << 5u8 == 32u8) by (bit_vector);
    } else if b == 6 {
        assert(1u8 << 6u8 == 64u8) by (bit_vector);
    } else {
        assert(1u8 << 7u8 == 128u8) by (bit_vector);
    }
}

/// Inverting bit `i` changes exactly one bit of the byte.
pub proof fn lemma_flip_bit_one_difference(v: u8, i: int)
    requires
        0 <= i < 8,
    ensures
        ones((v ^ flip_bit(v, i)) as nat) == 1,
        flip_bit(v, i) != v,
{
    let b = i as u8;
    assert(v ^ (v ^ (1u8 << b)) == (1u8 << b)) by (bit_vector);
    assert(b < 8 ==> (v ^ (1u8 << b)) != v) by (bit_vector);
    lemma_ones_single_bit(i);
}

/// Each single-bit variant of 64 bytes differs from them in exactly one bit.
pub proof fn lemma_variant_distance_one(s: Seq<u8>, t: int)
    requires
        s.len() == 64,
        0 <= t < 512,
    ensures
        hamming(bit_variant(s, t), s) == 1,
        hamming(s, bit_variant(s, t)) == 1,
        bit_variant(s, t) != s,
{
    let p = t / 8;
    let v = bit_variant(s, t);
    lemma_flip_bit_one_difference(s[p], 7 - t % 8);
    let x = v[p];
    let y = s[p];
    assert(x ^ y == y ^ x) by (bit_vector);
    lemma_hamming_one_position(v, s, p);
    lemma_hamming_symmetric(v, s);
    assert(v[p] != s[p]);
}

/// The 512 single-bit variants of 64 bytes are pairwise distinct.
pub proof fn lemma_variants_distinct(s: Seq<u8>, t: int, u: int)
    requires
        s.len() == 64,
        0 <= t < 512,
        0 <= u < 512,
        t != u,
    ensures
        bit_variant(s, t) != bit_variant(s, u),
{
    let vt = bit_variant(s, t);
    let vu = bit_variant(s, u);
    let p = t / 8;
    lemma_flip_bit_one_difference(s[p], 7 - t % 8);
    if t / 8 != u / 8 {
        assert(vu[p] == s[p]);
        assert(vt[p] != vu[p]);
    } else {
        let x = s[p];
        let a = (7 - t % 8) as u8;
        let c = (7 - u % 8) as u8;
        assert(t % 8 != u % 8);
        assert(a < 8 && c < 8 && a != c ==> (x ^ (1u8 << a)) != (x ^ (1u8 << c))) by (bit_vector);
        assert(vt[p] != vu[p]);
    }
}


/// The hashed bytes of any 64 input bytes are 64 bytes long.
proof fn lemma_hash_bytes_len<const N: usize>(h: gmimc_erf<N>, v: Seq<u8>)
    requires
        N >= 4,
    ensures
        hash_bytes(h, v).len() == 64,
{
    h.lemma_rounds_len(crate::gmimc::initial_state(le_words(v), N as nat), h.round as nat);
}

proof fn lemma_avalanche_sum_bound<const N: usize>(h: gmimc_erf<N>, inb: Seq<u8>, origin: Seq<u8>, n: int)
    requires
        N >= 4,
        0 <= n,
    ensures
        avalanche_sum(h, inb, origin, n) <= 512 * n,
    decreases n,
{
    if n > 0 {
        lemma_avalanche_sum_bound(h, inb, origin, n - 1);
        let hb = hash_bytes(h, bit_variant(inb, n - 1));
        lemma_hash_bytes_len(h, bit_variant(inb, n - 1));
        lemma_hamming_bound(hb, origin);
    }
}

/// The avalanche coefficient is at most 512: no variant's hash can differ from
/// the 512 bits of the input's hash in more than 512 bits.
pub proof fn lemma_avalanche_coefficient_bound<const N: usize>(h: gmimc_erf<N>, input_value: Seq<u128>)
    requires
        N >= 4,
    ensures
        avalanche_sum(
            h,
            words_be_bytes(input_value),
            hash_bytes(h, words_le_bytes(input_value)),
            512,
        ) / 512 <= 512,
{
    lemma_avalanche_sum_bound(h, words_be_bytes(input_value), hash_bytes(h, words_le_bytes(input_value)), 512);
}


/// The number whose big-endian bytes are `s`.
pub open spec fn be_value(s: Seq<u8>) -> nat
    decreases s.len(),
{
    if s.len() == 0 {
        0
    } else {
        be_value(s.drop_last()) * 256 + s.last() as nat
    }
}

proof fn lemma_le_byte_succ(x: nat, m: nat)
    ensures
        le_byte(x, m + 1) == le_byte(x / 256, m),
{
    lemma_pow256_positive(m);
    vstd::arithmetic::div_mod::lemma_div_denominator(x as int, 256, pow256(m) as int);
    assert(pow256(m + 1) == 256 * pow256(m));
}

/// The `n` low bytes of `x`, most significant first, read big-endian give `x`
/// modulo `256^n`.
proof fn lemma_be_value_of_bytes(x: nat, n: nat)
    ensures
        be_value(Seq::new(n, |k: int| le_byte(x, (n - 1 - k) as nat))) == x % pow256(n),
    decreases n,
{
    let s = Seq::new(n, |k: int| le_byte(x, (n - 1 - k) as nat));
    if n == 0 {
        assert(pow256(0) == 1);
        assert(x % 1 == 0);
    } else {
        let n1 = (n - 1) as nat;
        let t = Seq::new(n1, |k: int| le_byte(x / 256, (n1 - 1 - k) as nat));
        lemma_be_value_of_bytes(x / 256, n1);
        assert forall|k: int| 0 <= k < n1 implies #[trigger] s.drop_last()[k] == t[k] by {
            lemma_le_byte_succ(x, (n1 - 1 - k) as nat);
        }
        assert(s.drop_last() =~= t);
        assert(pow256(0) == 1);
        assert(x / 1 == x);
        assert(s.last() == (x % 256) as u8);
        lemma_pow256_positive(n1);
        vstd::arithmetic::div_mod::lemma_mod_breakdown(x as int, 256, pow256(n1) as int);
        assert(pow256(n) == 256 * pow256(n1));
    }
}

/// Reading back each 16-byte block of the big-endian layout gives its word:
/// the layout loses nothing.
pub proof fn lemma_be_bytes_roundtrip(data: Seq<u128>, i: int)
    requires
        0 <= i < data.len(),
    ensures
        be_value(words_be_bytes(data).subrange(16 * i, 16 * i + 16)) == data[i],
{
    let sub = words_be_bytes(data).subrange(16 * i, 16 * i + 16);
    let x = data[i] as nat;
    assert(16 * i + 16 <= 16 * data.len()) by (nonlinear_arith)
        requires 0 <= i < data.len();
    assert forall|k: int| 0 <= k < 16 implies #[trigger] sub[k] == le_byte(x, (16 - 1 - k) as nat) by {
        let j = 16 * i + k;
        assert(j / 16 == i && j % 16 == k) by (nonlinear_arith)
            requires j == 16 * i + k, 0 <= k < 16;
    }
    assert(sub =~= Seq::new(16, |k: int| le_byte(x, (16 - 1 - k) as nat)));
    lemma_be_value_of_bytes(x, 16);
    lemma_pow256_16();
    vstd::arithmetic::div_mod::lemma_small_mod(x, pow256(16));
}

/// The big-endian layout of word-wise exclusive or is the byte-wise exclusive
/// or of the layouts, and zero words lay out as zero bytes.
pub proof fn lemma_be_bytes_xor(a: Seq<u128>, b: Seq<u128>)
    requires
        a.len() == b.len(),
    ensures
        words_be_bytes(Seq::new(a.len(), |i: int| a[i] ^ b[i])) == Seq::new(
            16 * a.len(),
            |k: int| words_be_bytes(a)[k] ^ words_be_bytes(b)[k],
        ),
        words_be_bytes(Seq::new(a.len(), |i: int| 0u128)) == Seq::new(16 * a.len(), |k: int| 0u8),
{
    let ab = Seq::new(a.len(), |i: int| a[i] ^ b[i]);
    let zs = Seq::new(a.len(), |i: int| 0u128);
    assert forall|k: int| 0 <= k < 16 * a.len() implies #[trigger] words_be_bytes(zs)[k] == 0u8 by {
        let i = k / 16;
        assert(0 <= i < a.len() && 0 <= k % 16 < 16) by (nonlinear_arith)
            requires 0 <= k < 16 * a.len(), i == k / 16;
        lemma_pow256_positive((15 - k % 16) as nat);
        assert(0nat / pow256((15 - k % 16) as nat) == 0);
    }
    assert forall|k: int| 0 <= k < 16 * a.len() implies #[trigger] words_be_bytes(ab)[k] == words_be_bytes(a)[k]
        ^ words_be_bytes(b)[k] by {
        let i = k / 16;
        assert(0 <= i < a.len() && 0 <= k % 16 < 16) by (nonlinear_arith)
            requires 0 <= k < 16 * a.len(), i == k / 16;
        lemma_le_byte_xor(a[i], b[i], (15 - k % 16) as nat);
    }
    assert(words_be_bytes(ab) =~= Seq::new(16 * a.len(), |k: int| words_be_bytes(a)[k] ^ words_be_bytes(b)[k]));
    assert(words_be_bytes(zs) =~= Seq::new(16 * a.len(), |k: int| 0u8));
}

/// Single-bit variant `n` of the big-endian layout of four words is the layout
/// of the words with bit `127 - n % 128` of word `n / 128` inverted.
pub proof fn lemma_variant_flips_word_bit(d: Seq<u128>, n: int)
    requires
        d.len() == 4,
        0 <= n < 512,
    ensures
        bit_variant(words_be_bytes(d), n) == words_be_bytes(
            d.update(n / 128, d[n / 128] ^ (1u128 << ((127 - n % 128) as u128))),
        ),
{
    let w = n / 128;
    let e = (127 - n % 128) as u128;
    let m = 1u128 << e;
    let d2 = d.update(w, d[w] ^ m);
    let lhs = bit_variant(words_be_bytes(d), n);
    let rhs = words_be_bytes(d2);
    assert forall|k: int| 0 <= k < 64 implies #[trigger] lhs[k] == rhs[k] by {
        let i = k / 16;
        let b = k % 16;
        assert(0 <= i < 4 && 0 <= b < 16 && k == 16 * i + b) by (nonlinear_arith)
            requires 0 <= k < 64, i == k / 16, b == k % 16;
        assert(0 <= w < 4 && e / 8 == 15 - (n / 8) % 16 && e % 8 == 7 - n % 8 && (n / 8) / 16 == w
            && n / 8 == 16 * w + (n / 8) % 16 && e < 128) by (nonlinear_arith)
            requires 0 <= n < 512, w == n / 128, e == 127 - n % 128;
        if i == w {
            lemma_le_byte_xor(d[w], m, (15 - b) as nat);
            lemma_le_byte_single_bit(e, (15 - b) as nat);
            if k == n / 8 {
                assert(b == (n / 8) % 16);
            } else {
                assert(b != (n / 8) % 16);
                let v = le_byte(d[w] as nat, (15 - b) as nat);
                assert(v ^ 0u8 == v) by (bit_vector);
            }
        } else {
            assert(k != n / 8);
        }
    }
    assert(lhs =~= rhs);
}

} // verus!
