//! The points of the scatter plot of hash outputs: for each small input, the
//! sum of the output words reduced modulo a chosen number.

use vstd::prelude::*;
use crate::gmimc::gmimc_erf;

verus! {

/// The sum of the words of `s`.
pub open spec fn sum_words(s: Seq<u128>) -> nat
    decreases s.len(),
{
    if s.len() == 0 {
        0
    } else {
        sum_words(s.drop_last()) + s.last() as nat
    }
}

/// The height of the point for input `x`: the words of the hash of
/// `[x, 0, 0, 0]`, summed, modulo `m`.
pub open spec fn point_height<const N: usize>(h: gmimc_erf<N>, x: u128, m: nat) -> nat {
    sum_words(h.hash(seq![x, 0u128, 0u128, 0u128])) % m
}

/// `(a + b) % m` for `a, b < m`, without overflow.
fn add_mod(a: u128, b: u128, m: u128) -> (r: u128)
    requires
        a < m,
        b < m,
    ensures
        r == (a + b) % (m as int),
        r < m,
{
    if a >= m - b {
        proof {
            vstd::arithmetic::div_mod::lemma_small_mod((a + b - m) as nat, m as nat);
            vstd::arithmetic::div_mod::lemma_mod_add_multiples_vanish(a + b - m, m as int);
        }
        a - (m - b)
    } else {
        proof {
            vstd::arithmetic::div_mod::lemma_small_mod((a + b) as nat, m as nat);
        }
        a + b
    }
}

/// The points `(x, y)` for `x` in `0..count`, with `y` the sum of the words of
/// the hash of `[x, 0, 0, 0]` modulo `m` (as a 64-bit number).
pub fn sequential_points<const N: usize>(gmimc: &gmimc_erf<N>, count: u64, m: u128) -> (points: Vec<(u64, u64)>)
    requires
        gmimc.accepts(4),
        m > 0,
    ensures
        points@.len() == count,
        forall|x: int| 0 <= x < count ==> #[trigger] points@[x] == (x as u64, point_height(*gmimc, x as u128, m as nat) as u64),
{
    let mut points: Vec<(u64, u64)> = Vec::new();
    for x in 0..count
        invariant
            gmimc.accepts(4),
            m > 0,
            points@.len() == x,
            forall|k: int| 0 <= k < x ==> #[trigger] points@[k] == (k as u64, point_height(*gmimc, k as u128, m as nat) as u64),
    {
        let input: [u128; 4] = [x as u128, 0, 0, 0];
        assert(input@ =~= seq![x as u128, 0u128, 0u128, 0u128]);
        let out = gmimc.get_hash_output(input.as_slice());
        let mut acc: u128 = 0;
        let mut j: usize = 0;
        proof {
            vstd::arithmetic::div_mod::lemma_small_mod(0, m as nat);
        }
        while j < N
            invariant
                j <= N,
                m > 0,
                out@.len() == N,
                acc < m,
                acc == sum_words(out@.take(j as int)) % (m as nat),
            decreases N - j,
        {
            proof {
                assert(out@.take(j + 1).drop_last() =~= out@.take(j as int));
                vstd::arithmetic::div_mod::lemma_add_mod_noop(sum_words(out@.take(j as int)) as int, out@[j as int] as int, m as int);
                vstd::arithmetic::div_mod::lemma_mod_twice(out@[j as int] as int, m as int);
                vstd::arithmetic::div_mod::lemma_mod_pos_bound(out@[j as int] as int, m as int);
            }
            acc = add_mod(acc, out[j] % m, m);
            j = j + 1;
        }
        assert(out@.take(N as int) =~= out@);
        points.push((x, acc as u64));
    }
    points
}


/// The sum of a concatenation is the sum of the sums; no words sum to zero and
/// a single word sums to itself.
pub proof fn lemma_sum_words_append(s: Seq<u128>, t: Seq<u128>)
    ensures
        sum_words(s + t) == sum_words(s) + sum_words(t),
        sum_words(Seq::empty()) == 0,
        forall|a: u128| #[trigger] sum_words(seq![a]) == a,
    decreases t.len(),
{
    assert forall|a: u128| #[trigger] sum_words(seq![a]) == a by {
        assert(seq![a].drop_last() =~= Seq::<u128>::empty());
        assert(sum_words(Seq::<u128>::empty()) == 0);
        assert(seq![a].last() == a);
        assert(sum_words(seq![a]) == sum_words(seq![a].drop_last()) + a);
    }
    if t.len() == 0 {
        assert(s + t =~= s);
    } else {
        lemma_sum_words_append(s, t.drop_last());
        assert((s + t).drop_last() =~= s + t.drop_last());
    }
}

/// The height of a point counts every word of the hash of `[x, 0, 0, 0]`: it
/// is the sum of all `N` words, the last one included, modulo `m` (for four
/// words, `(h0 + h1 + h2 + h3) % m`).
pub proof fn lemma_point_height_sums_every_word<const N: usize>(h: gmimc_erf<N>, x: u128, m: nat)
    requires
        N >= 1,
    ensures
        h.hash(seq![x, 0u128, 0u128, 0u128]).len() == N,
        point_height(h, x, m) == (sum_words(h.hash(seq![x, 0u128, 0u128, 0u128]).take(N - 1))
            + h.hash(seq![x, 0u128, 0u128, 0u128])[N - 1]) % (m as int),
        N == 4 ==> point_height(h, x, m) == ({
            let hw = h.hash(seq![x, 0u128, 0u128, 0u128]);
            (hw[0] + hw[1] + hw[2] + hw[3]) % (m as int)
        }),
{
    let hw = h.hash(seq![x, 0u128, 0u128, 0u128]);
    h.lemma_rounds_len(crate::gmimc::initial_state(seq![x, 0u128, 0u128, 0u128], N as nat), h.round as nat);
    assert(hw.drop_last() =~= hw.take(N - 1));
    if N == 4 {
        let s3 = hw.take(3);
        assert(s3.drop_last() =~= hw.take(2));
        assert(hw.take(2).drop_last() =~= hw.take(1));
        assert(hw.take(1).drop_last() =~= hw.take(0));
        assert(sum_words(hw.take(0)) == 0);
        assert(hw.take(1).last() == hw[0]);
        assert(hw.take(2).last() == hw[1]);
        assert(hw.take(3).last() == hw[2]);
        assert(sum_words(hw.take(1)) == hw[0]);
        assert(sum_words(hw.take(2)) == hw[0] + hw[1]);
        assert(sum_words(hw.take(3)) == hw[0] + hw[1] + hw[2]);
        assert(sum_words(hw) == hw[0] + hw[1] + hw[2] + hw[3]);
    }
}

} // verus!
