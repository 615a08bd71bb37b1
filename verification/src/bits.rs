//! Bit counting and Hamming distance over bytes.

use vstd::prelude::*;

verus! {

/// The number of one bits in the binary expansion of `x`.
pub open spec fn ones(x: nat) -> nat
    decreases x,
{
    if x == 0 {
        0
    } else {
        x % 2 + ones(x / 2)
    }
}

/// The byte `v` with bit `i` (counted from the least significant bit) inverted.
pub open spec fn flip_bit(v: u8, i: int) -> u8 {
    v ^ (1u8 << (i as u8))
}

/// The number of bit positions in which the first `n` bytes of `a` and `b` differ.
pub open spec fn hamming_prefix(a: Seq<u8>, b: Seq<u8>, n: int) -> nat
    decreases n,
{
    if n <= 0 {
        0
    } else {
        hamming_prefix(a, b, n - 1) + ones((a[n - 1] ^ b[n - 1]) as nat)
    }
}

/// The number of bit positions in which `a` and `b` differ, over the length of `a`.
pub open spec fn hamming(a: Seq<u8>, b: Seq<u8>) -> nat {
    hamming_prefix(a, b, a.len() as int)
}

/// Counts the one bits of a byte.
pub fn count_ones_u8(x: u8) -> (r: u32)
    ensures
        r == ones(x as nat),
        r <= 8,
{
    proof {
        lemma_ones_byte(x);
    }
    let mut rest: u8 = x;
    let mut count: u32 = 0;
    while rest != 0
        invariant
            count + ones(rest as nat) == ones(x as nat),
            ones(x as nat) <= 8,
        decreases rest,
    {
        count = count + (rest % 2) as u32;
        rest = rest / 2;
    }
    count
}

/// `2` raised to the power `k`.
pub open spec fn two_pow(k: nat) -> nat
    decreases k,
{
    if k == 0 {
        1
    } else {
        2 * two_pow((k - 1) as nat)
    }
}

/// A number below `2^k` has at most `k` one bits.
pub proof fn lemma_ones_bound(x: nat, k: nat)
    requires
        x < two_pow(k),
    ensures
        ones(x) <= k,
    decreases k,
{
    if k > 0 && x > 0 {
        lemma_ones_bound(x / 2, (k - 1) as nat);
    }
}

/// A byte has at most eight one bits.
pub proof fn lemma_ones_byte(x: u8)
    ensures
        ones(x as nat) <= 8,
{
    reveal_with_fuel(two_pow, 9);
    lemma_ones_bound(x as nat, 8);
}

/// Only zero has no one bits.
pub proof fn lemma_ones_zero(x: nat)
    ensures
        ones(x) == 0 <==> x == 0,
    decreases x,
{
    if x > 0 {
        lemma_ones_zero(x / 2);
    }
}

/// The first `n` bytes differ in at most `8 n` bits.
pub proof fn lemma_hamming_prefix_bound(a: Seq<u8>, b: Seq<u8>, n: int)
    requires
        0 <= n,
    ensures
        hamming_prefix(a, b, n) <= 8 * n,
    decreases n,
{
    if n > 0 {
        lemma_hamming_prefix_bound(a, b, n - 1);
        lemma_ones_byte(a[n - 1] ^ b[n - 1]);
    }
}

/// Two byte strings of length `n` differ in at most `8 n` bits.
pub proof fn lemma_hamming_bound(a: Seq<u8>, b: Seq<u8>)
    ensures
        hamming(a, b) <= 8 * a.len(),
{
    lemma_hamming_prefix_bound(a, b, a.len() as int);
}

/// A byte string differs from itself in no bit.
pub proof fn lemma_hamming_self(a: Seq<u8>)
    ensures
        hamming(a, a) == 0,
{
    lemma_hamming_prefix_self(a, a.len() as int);
}

proof fn lemma_hamming_prefix_self(a: Seq<u8>, n: int)
    ensures
        hamming_prefix(a, a, n) == 0,
    decreases n,
{
    if n > 0 {
        lemma_hamming_prefix_self(a, n - 1);
        let x = a[n - 1];
        assert(x ^ x == 0) by (bit_vector);
    }
}

/// The number of differing bits does not depend on the order of the arguments.
pub proof fn lemma_hamming_symmetric(a: Seq<u8>, b: Seq<u8>)
    requires
        a.len() == b.len(),
    ensures
        hamming(a, b) == hamming(b, a),
{
    lemma_hamming_prefix_symmetric(a, b, a.len() as int);
}

proof fn lemma_hamming_prefix_symmetric(a: Seq<u8>, b: Seq<u8>, n: int)
    ensures
        hamming_prefix(a, b, n) == hamming_prefix(b, a, n),
    decreases n,
{
    if n > 0 {
        lemma_hamming_prefix_symmetric(a, b, n - 1);
        let x = a[n - 1];
        let y = b[n - 1];
        assert(x ^ y == y ^ x) by (bit_vector);
    }
}

/// Byte strings of equal length that differ in no bit are equal.
pub proof fn lemma_hamming_zero_equal(a: Seq<u8>, b: Seq<u8>)
    requires
        a.len() == b.len(),
        hamming(a, b) == 0,
    ensures
        a == b,
{
    lemma_hamming_prefix_zero(a, b, a.len() as int);
    assert(a =~= b);
}

proof fn lemma_hamming_prefix_zero(a: Seq<u8>, b: Seq<u8>, n: int)
    requires
        hamming_prefix(a, b, n) == 0,
    ensures
        forall|i: int| 0 <= i < n ==> #[trigger] a[i] == b[i],
    decreases n,
{
    if n > 0 {
        lemma_hamming_prefix_zero(a, b, n - 1);
        let x = a[n - 1];
        let y = b[n - 1];
        lemma_ones_zero((x ^ y) as nat);
        assert(x ^ y == 0 ==> x == y) by (bit_vector);
    }
}

/// Byte strings that differ only at position `p` differ in as many bits as
/// their bytes at `p` do.
pub proof fn lemma_hamming_one_position(a: Seq<u8>, b: Seq<u8>, p: int)
    requires
        a.len() == b.len(),
        0 <= p < a.len(),
        forall|i: int| 0 <= i < a.len() && i != p ==> #[trigger] a[i] == b[i],
    ensures
        hamming(a, b) == ones((a[p] ^ b[p]) as nat),
{
    lemma_hamming_prefix_one_position(a, b, p, a.len() as int);
}

proof fn lemma_hamming_prefix_one_position(a: Seq<u8>, b: Seq<u8>, p: int, n: int)
    requires
        0 <= p,
        n <= a.len(),
        forall|i: int| 0 <= i < a.len() && i != p ==> #[trigger] a[i] == b[i],
    ensures
        hamming_prefix(a, b, n) == (if p < n { ones((a[p] ^ b[p]) as nat) } else { 0 }),
    decreases n,
{
    if n > 0 {
        lemma_hamming_prefix_one_position(a, b, p, n - 1);
        if n - 1 != p {
            let x = a[n - 1];
            assert(x ^ x == 0) by (bit_vector);
        }
    }
}

/// The one bits of `a ^ c` are at most those of `a ^ b` and `b ^ c` together.
pub proof fn lemma_ones_xor_triangle(a: u8, b: u8, c: u8)
    ensures
        ones((a ^ c) as nat) <= ones((a ^ b) as nat) + ones((b ^ c) as nat),
    decreases a as int + b as int + c as int,
{
    let x = a ^ c;
    let y = a ^ b;
    let z = b ^ c;
    assert(x % 2 <= y % 2 + z % 2) by (bit_vector)
        requires x == a ^ c, y == a ^ b, z == b ^ c;
    assert(x / 2 == (a / 2) ^ (c / 2) && y / 2 == (a / 2) ^ (b / 2) && z / 2 == (b / 2) ^ (c / 2))
        by (bit_vector)
        requires x == a ^ c, y == a ^ b, z == b ^ c;
    lemma_ones_unfold(x as nat);
    lemma_ones_unfold(y as nat);
    lemma_ones_unfold(z as nat);
    if a != 0 || b != 0 || c != 0 {
        lemma_ones_xor_triangle(a / 2, b / 2, c / 2);
    } else {
        assert(x == 0 && y == 0 && z == 0) by (bit_vector)
            requires x == a ^ c, y == a ^ b, z == b ^ c, a == 0, b == 0, c == 0;
    }
}

/// `ones(x) == x % 2 + ones(x / 2)`, for zero too.
proof fn lemma_ones_unfold(x: nat)
    ensures
        ones(x) == x % 2 + ones(x / 2),
{
    if x == 0 {
        assert(ones(0) == 0);
    }
}

/// The number of differing bits obeys the triangle inequality.
pub proof fn lemma_hamming_triangle(a: Seq<u8>, b: Seq<u8>, c: Seq<u8>)
    requires
        a.len() == b.len(),
        b.len() == c.len(),
    ensures
        hamming(a, c) <= hamming(a, b) + hamming(b, c),
{
    lemma_hamming_prefix_triangle(a, b, c, a.len() as int);
}

proof fn lemma_hamming_prefix_triangle(a: Seq<u8>, b: Seq<u8>, c: Seq<u8>, n: int)
    ensures
        hamming_prefix(a, c, n) <= hamming_prefix(a, b, n) + hamming_prefix(b, c, n),
    decreases n,
{
    if n > 0 {
        lemma_hamming_prefix_triangle(a, b, c, n - 1);
        lemma_ones_xor_triangle(a[n - 1], b[n - 1], c[n - 1]);
    }
}

/// Counting differing bits over two concatenated pairs of equal-length byte
/// strings adds the counts of the pairs.
pub proof fn lemma_hamming_concat(a1: Seq<u8>, a2: Seq<u8>, b1: Seq<u8>, b2: Seq<u8>)
    requires
        a1.len() == b1.len(),
        a2.len() == b2.len(),
    ensures
        hamming(a1 + a2, b1 + b2) == hamming(a1, b1) + hamming(a2, b2),
{
    lemma_hamming_prefix_concat_low(a1, a2, b1, b2, a1.len() as int);
    lemma_hamming_prefix_concat_high(a1, a2, b1, b2, a2.len() as int);
}

proof fn lemma_hamming_prefix_concat_low(a1: Seq<u8>, a2: Seq<u8>, b1: Seq<u8>, b2: Seq<u8>, n: int)
    requires
        a1.len() == b1.len(),
        n <= a1.len(),
    ensures
        hamming_prefix(a1 + a2, b1 + b2, n) == hamming_prefix(a1, b1, n),
    decreases n,
{
    if n > 0 {
        lemma_hamming_prefix_concat_low(a1, a2, b1, b2, n - 1);
        assert((a1 + a2)[n - 1] == a1[n - 1]);
        assert((b1 + b2)[n - 1] == b1[n - 1]);
    }
}

proof fn lemma_hamming_prefix_concat_high(a1: Seq<u8>, a2: Seq<u8>, b1: Seq<u8>, b2: Seq<u8>, n: int)
    requires
        a1.len() == b1.len(),
        0 <= n <= a2.len(),
        a2.len() == b2.len(),
    ensures
        hamming_prefix(a1 + a2, b1 + b2, a1.len() + n) == hamming_prefix(a1, b1, a1.len() as int)
            + hamming_prefix(a2, b2, n),
    decreases n,
{
    if n == 0 {
        lemma_hamming_prefix_concat_low(a1, a2, b1, b2, a1.len() as int);
    } else {
        lemma_hamming_prefix_concat_high(a1, a2, b1, b2, n - 1);
        assert((a1 + a2)[a1.len() + n - 1] == a2[n - 1]);
        assert((b1 + b2)[a1.len() + n - 1] == b2[n - 1]);
    }
}

} // verus!
