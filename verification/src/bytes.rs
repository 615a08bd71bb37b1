//! Little-endian byte layout of 128-bit words.

use vstd::prelude::*;
use vstd::arithmetic::div_mod::{
    lemma_div_denominator, lemma_mod_pos_bound, lemma_fundamental_div_mod_converse,
};

verus! {

/// `256` raised to the power `w`.
pub open spec fn pow256(w: nat) -> nat
    decreases w,
{
    if w == 0 {
        1
    } else {
        256 * pow256((w - 1) as nat)
    }
}

pub proof fn lemma_pow256_positive(w: nat)
    ensures
        pow256(w) > 0,
    decreases w,
{
    if w > 0 {
        lemma_pow256_positive((w - 1) as nat);
    }
}

pub proof fn lemma_pow256_adds(a: nat, b: nat)
    ensures
        pow256(a + b) == pow256(a) * pow256(b),
    decreases a,
{
    if a == 0 {
        assert(pow256(a) == 1);
        assert(pow256(a + b) == pow256(b));
    } else {
        let a1 = (a - 1) as nat;
        lemma_pow256_adds(a1, b);
        assert((a1 + b) as nat == (a + b - 1) as nat);
        assert(pow256(a + b) == 256 * pow256(a1 + b));
        vstd::arithmetic::mul::lemma_mul_is_associative(256, pow256(a1) as int, pow256(b) as int);
    }
}

pub proof fn lemma_pow256_monotone(a: nat, b: nat)
    requires
        a <= b,
    ensures
        pow256(a) <= pow256(b),
    decreases b,
{
    if a < b {
        lemma_pow256_monotone(a, (b - 1) as nat);
        lemma_pow256_positive((b - 1) as nat);
    }
}

pub proof fn lemma_pow256_16()
    ensures
        pow256(16) == 0x1_0000_0000_0000_0000_0000_0000_0000_0000,
{
    reveal_with_fuel(pow256, 17);
}

/// Byte `k` (little-endian, counting from 0) of the number `x`.
pub open spec fn le_byte(x: nat, k: nat) -> u8 {
    ((x / pow256(k)) % 256) as u8
}

/// The number whose little-endian bytes are `s`.
pub open spec fn le_value(s: Seq<u8>) -> nat
    decreases s.len(),
{
    if s.len() == 0 {
        0
    } else {
        le_value(s.drop_first()) * 256 + s[0] as nat
    }
}

/// The bytes of the words `ws`, each word little-endian, in order.
pub open spec fn words_le_bytes(ws: Seq<u128>) -> Seq<u8> {
    Seq::new(16 * ws.len(), |i: int| le_byte(ws[i / 16] as nat, (i % 16) as nat))
}

/// The words whose little-endian bytes are the successive 16-byte blocks of `bs`.
pub open spec fn le_words(bs: Seq<u8>) -> Seq<u128> {
    Seq::new(bs.len() / 16, |i: int| le_value(bs.subrange(16 * i, 16 * i + 16)) as u128)
}

/// The sixteen little-endian bytes of `x`.
pub fn u128_to_le_bytes(x: u128) -> (r: [u8; 16])
    ensures
        forall|k: int| 0 <= k < 16 ==> #[trigger] r@[k] == le_byte(x as nat, k as nat),
{
    let mut r: [u8; 16] = [0u8; 16];
    let mut q: u128 = x;
    assert(pow256(0) == 1);
    assert(x as nat / 1 == x);
    for t in 0..16usize
        invariant
            q == x as nat / pow256(t as nat),
            forall|k: int| 0 <= k < t ==> #[trigger] r@[k] == le_byte(x as nat, k as nat),
    {
        proof {
            lemma_pow256_positive(t as nat);
            lemma_div_denominator(x as int, pow256(t as nat) as int, 256);
            vstd::arithmetic::mul::lemma_mul_is_commutative(pow256(t as nat) as int, 256);
            lemma_mod_pos_bound(q as int, 256);
        }
        r[t] = (q % 256) as u8;
        q = q / 256;
    }
    r
}

/// The number whose little-endian bytes are `b[off..off + 16]`.
pub fn u128_from_le_bytes(b: &[u8], off: usize) -> (r: u128)
    requires
        off + 16 <= b@.len(),
    ensures
        r == le_value(b@.subrange(off as int, off + 16)),
{
    let mut acc: u128 = 0;
    let mut k: usize = 16;
    let len = b.len();
    while k > 0
        invariant
            len == b@.len(),
            k <= 16,
            off + 16 <= b@.len(),
            acc == le_value(b@.subrange(off + k, off + 16)),
            acc < pow256((16 - k) as nat),
        decreases k,
    {
        let ghost tail = b@.subrange(off + k, off + 16);
        let ghost longer = b@.subrange(off + k - 1, off + 16);
        assert(longer.drop_first() =~= tail);
        proof {
            lemma_le_value_step_bound(acc as nat, b@[off + k - 1], (16 - k) as nat);
        }
        let idx: usize = off + (k - 1);
        acc = acc * 256 + b[idx] as u128;
        k = k - 1;
    }
    acc
}

proof fn lemma_le_value_step_bound(acc: nat, byte: u8, n: nat)
    requires
        acc < pow256(n),
        n < 16,
    ensures
        acc * 256 + byte < pow256(n + 1),
        acc * 256 + byte <= u128::MAX,
{
    assert(pow256(n + 1) == 256 * pow256(n));
    assert(acc * 256 + byte < 256 * pow256(n)) by (nonlinear_arith)
        requires
            acc < pow256(n),
            byte < 256,
    ;
    lemma_pow256_le_16((n + 1) as nat);
}

/// `256^w` is at most `2^128` for `w <= 16`.
pub proof fn lemma_pow256_le_16(w: nat)
    requires
        w <= 16,
    ensures
        pow256(w) <= 0x1_0000_0000_0000_0000_0000_0000_0000_0000,
    decreases w,
{
    reveal_with_fuel(pow256, 17);
    if w < 16 {
        lemma_pow256_monotone(w, 16);
    }
}


/// The number read from `s` is below `256^len`.
pub proof fn lemma_le_value_bound(s: Seq<u8>)
    ensures
        le_value(s) < pow256(s.len()),
    decreases s.len(),
{
    if s.len() > 0 {
        let t = s.drop_first();
        lemma_le_value_bound(t);
        assert(pow256(s.len()) == 256 * pow256(t.len()));
        assert(le_value(t) * 256 + s[0] < 256 * pow256(t.len())) by (nonlinear_arith)
            requires
                le_value(t) < pow256(t.len()),
                s[0] < 256,
        ;
    }
}

/// Byte `k` of the number read from `s` is `s[k]`.
pub proof fn lemma_le_byte_of_value(s: Seq<u8>, k: nat)
    requires
        k < s.len(),
    ensures
        le_byte(le_value(s), k) == s[k as int],
    decreases k,
{
    let t = s.drop_first();
    let v = le_value(s);
    lemma_fundamental_div_mod_converse(v as int, 256, le_value(t) as int, s[0] as int);
    if k == 0 {
        assert(pow256(0) == 1);
        assert(v / 1 == v);
    } else {
        lemma_le_byte_of_value(t, (k - 1) as nat);
        lemma_pow256_positive((k - 1) as nat);
        lemma_div_denominator(v as int, 256, pow256((k - 1) as nat) as int);
        assert(pow256(k) == 256 * pow256((k - 1) as nat));
    }
}

/// Reading 16-byte blocks as little-endian words and writing the words back
/// gives the same bytes.
pub proof fn lemma_le_words_roundtrip(bs: Seq<u8>)
    requires
        bs.len() % 16 == 0,
    ensures
        words_le_bytes(le_words(bs)) == bs,
{
    let ws = le_words(bs);
    assert forall|i: int| 0 <= i < bs.len() implies #[trigger] words_le_bytes(ws)[i] == bs[i] by {
        let w = i / 16;
        let k = i % 16;
        assert(0 <= w < bs.len() / 16 && 16 * w + k == i && 16 * w + 16 <= bs.len()) by (nonlinear_arith)
            requires 0 <= i < bs.len(), bs.len() % 16 == 0, w == i / 16, k == i % 16;
        let block = bs.subrange(16 * w, 16 * w + 16);
        lemma_le_value_bound(block);
        lemma_pow256_le_16(16);
        lemma_pow256_16();
        lemma_le_byte_of_value(block, k as nat);
    }
    assert(16 * (bs.len() / 16) == bs.len()) by (nonlinear_arith)
        requires bs.len() % 16 == 0;
    assert(words_le_bytes(ws) =~= bs);
}


/// `256^j == 2^(8 j)`.
proof fn lemma_pow256_pow2(j: nat)
    ensures
        pow256(j) == vstd::arithmetic::power2::pow2(8 * j),
    decreases j,
{
    vstd::arithmetic::power2::lemma2_to64();
    if j > 0 {
        lemma_pow256_pow2((j - 1) as nat);
        vstd::arithmetic::power2::lemma_pow2_adds(8, (8 * (j - 1)) as nat);
        assert(8 + 8 * (j - 1) == 8 * j);
    }
}

/// Byte `j` of a word is the low byte of the word shifted right by `8 j` bits.
pub proof fn lemma_le_byte_shr(x: u128, j: nat)
    requires
        j < 16,
    ensures
        le_byte(x as nat, j) == ((x >> ((8 * j) as u128)) & 0xff) as u8,
{
    let s = (8 * j) as u128;
    lemma_pow256_pow2(j);
    vstd::bits::lemma_u128_shr_is_div(x, s);
    let z = x >> s;
    assert(z & 0xff == z % 256) by (bit_vector);
}

/// Each byte of `x ^ y` is the exclusive or of the bytes of `x` and `y`.
pub proof fn lemma_le_byte_xor(x: u128, y: u128, j: nat)
    requires
        j < 16,
    ensures
        le_byte((x ^ y) as nat, j) == le_byte(x as nat, j) ^ le_byte(y as nat, j),
{
    lemma_le_byte_shr(x ^ y, j);
    lemma_le_byte_shr(x, j);
    lemma_le_byte_shr(y, j);
    let s = (8 * j) as u128;
    assert((((x ^ y) >> s) & 0xff) as u8 == (((x >> s) & 0xff) as u8) ^ (((y >> s) & 0xff) as u8))
        by (bit_vector);
}

/// Byte `j` of the word with only bit `e` set.
pub proof fn lemma_le_byte_single_bit(e: u128, j: nat)
    requires
        e < 128,
        j < 16,
    ensures
        le_byte((1u128 << e) as nat, j) == (if e / 8 == j { 1u8 << ((e % 8) as u8) } else { 0u8 }),
{
    lemma_le_byte_shr(1u128 << e, j);
    let s = (8 * j) as u128;
    assert(s == 8 * j);
    if e / 8 == j {
        assert(e < 128 && s < 128 && s % 8 == 0 && e / 8 == s / 8 ==> (((1u128 << e) >> s) & 0xff) as u8 == 1u8 << ((e % 8) as u8))
            by (bit_vector);
    } else {
        assert(e < 128 && s < 128 && s % 8 == 0 && e / 8 != s / 8 ==> (((1u128 << e) >> s) & 0xff) as u8 == 0u8)
            by (bit_vector);
    }
}

} // verus!
