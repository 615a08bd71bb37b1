//! Arithmetic in a prime field whose modulus fits in 128 bits.
//!
//! Elements are kept as their canonical representatives, integers below the
//! modulus; every operation returns the canonical representative of its result.

use vstd::prelude::*;
use vstd::arithmetic::div_mod::{
    lemma_add_mod_noop, lemma_fundamental_div_mod, lemma_mod_add_multiples_vanish,
    lemma_mod_twice, lemma_mul_mod_noop_left, lemma_small_mod, lemma_mod_pos_bound,
};

verus! {

/// A prime field described by plain values: its modulus and the length in
/// bytes of the little-endian representation of its elements.
pub struct FieldParams {
    pub modulus: u128,
    pub repr_len: usize,
}

impl FieldParams {
    /// The modulus can describe a field: it is at least 2.
    pub open spec fn wf(&self) -> bool {
        self.modulus >= 2
    }

    /// The field element that an integer maps to.
    pub open spec fn elem(&self, v: int) -> nat {
        (v % (self.modulus as int)) as nat
    }

    /// Maps an integer to the field: its residue modulo the modulus.
    pub fn from_u128(&self, v: u128) -> (r: u128)
        requires
            self.wf(),
        ensures
            r == self.elem(v as int),
            r < self.modulus,
    {
        v % self.modulus
    }

    /// Field addition of two canonical elements.
    pub fn add(&self, a: u128, b: u128) -> (r: u128)
        requires
            self.wf(),
            a < self.modulus,
            b < self.modulus,
        ensures
            r == self.elem(a + b),
            r < self.modulus,
    {
        let p = self.modulus;
        proof {
            lemma_mod_pos_bound(a + b, p as int);
        }
        if a >= p - b {
            proof {
                lemma_small_mod((a + b - p) as nat, p as nat);
                lemma_mod_add_multiples_vanish(a + b - p, p as int);
            }
            a - (p - b)
        } else {
            proof {
                lemma_small_mod((a + b) as nat, p as nat);
            }
            a + b
        }
    }

    /// Field multiplication of two canonical elements.
    pub fn mul(&self, a: u128, b: u128) -> (r: u128)
        requires
            self.wf(),
            a < self.modulus,
            b < self.modulus,
        ensures
            r == self.elem(a * b),
            r < self.modulus,
    {
        let p = self.modulus;
        let mut acc: u128 = 0;
        let mut base: u128 = a;
        let mut rest: u128 = b;
        proof {
            lemma_small_mod(0, p as nat);
        }
        while rest > 0
            invariant
                self.wf(),
                p == self.modulus,
                acc < p,
                base < p,
                (acc + base * rest) % (p as int) == (a * b) % (p as int),
            decreases rest,
        {
            let ghost acc0 = acc;
            let ghost base0 = base;
            let ghost rest0 = rest;
            if rest % 2 == 1 {
                acc = self.add(acc, base);
            } else {
                proof {
                    lemma_small_mod(acc as nat, p as nat);
                }
            }
            base = self.add(base, base);
            rest = rest / 2;
            proof {
                lemma_double_and_add_step(acc0 as int, base0 as int, rest0 as int, p as int,
                    acc as int, base as int, rest0 % 2 == 1);
            }
        }
        proof {
            lemma_small_mod(acc as nat, p as nat);
        }
        acc
    }

    /// The cube of a canonical element.
    pub fn cube(&self, a: u128) -> (r: u128)
        requires
            self.wf(),
            a < self.modulus,
        ensures
            r == self.elem(a * a * a),
            r < self.modulus,
    {
        let sq = self.mul(a, a);
        let r = self.mul(sq, a);
        proof {
            lemma_mul_mod_noop_left(a * a, a as int, self.modulus as int);
        }
        r
    }
}

/// One step of double-and-add multiplication keeps `acc + base * rest` fixed modulo `p`.
proof fn lemma_double_and_add_step(
    acc: int,
    base: int,
    rest: int,
    p: int,
    acc2: int,
    base2: int,
    odd: bool,
)
    requires
        p > 0,
        rest >= 0,
        odd == (rest % 2 == 1),
        acc2 == (if odd { (acc + base) % p } else { acc % p }),
        base2 == (base + base) % p,
    ensures
        (acc2 + base2 * (rest / 2)) % p == (acc + base * rest) % p,
{
    let q = rest / 2;
    let m = rest % 2;
    lemma_fundamental_div_mod(rest, 2);
    assert(m * base == (if odd { base } else { 0 })) by (nonlinear_arith)
        requires
            odd == (m == 1),
            0 <= m < 2,
    ;
    lemma_add_mod_noop(acc2, base2 * q, p);
    lemma_mod_twice(acc + m * base, p);
    lemma_mul_mod_noop_left(base + base, q, p);
    lemma_add_mod_noop(acc + m * base, (base + base) * q, p);
    assert(acc + m * base + (base + base) * q == acc + base * rest) by (nonlinear_arith)
        requires
            rest == 2 * q + m,
    ;
}

} // verus!
