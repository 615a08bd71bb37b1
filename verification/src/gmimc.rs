//! The GMiMC permutation with an expanding round function (ERF).

use vstd::prelude::*;
use vstd::arithmetic::div_mod::{lemma_fundamental_div_mod, lemma_mod_pos_bound, lemma_div_pos_is_pos};
use vstd::arithmetic::mul::{lemma_mul_strict_inequality_converse, lemma_mul_inequality, lemma_mul_is_commutative};
use crate::field::FieldParams;
use crate::bytes::{
    words_le_bytes, le_byte, u128_to_le_bytes, pow256, lemma_pow256_positive, lemma_pow256_adds,
    lemma_pow256_monotone, lemma_pow256_16,
};

verus! {

/// The round mask is the cube of the first word plus the whole round constant,
/// reduced modulo the field's modulus.
pub proof fn lemma_round_mask_value(f: FieldParams, s0: u128, c: u128)
    requires
        f.wf(),
    ensures
        round_mask(f, s0, c) == ((s0 + c) * (s0 + c) * (s0 + c)) % (f.modulus as int),
{
    let p = f.modulus as int;
    let t = s0 + c;
    let e: int = f.elem((f.elem(s0 as int) + f.elem(c as int)) as int) as int;
    vstd::arithmetic::div_mod::lemma_add_mod_noop(s0 as int, c as int, p);
    assert(e == t % p);
    vstd::arithmetic::div_mod::lemma_mul_mod_noop(t, t, p);
    vstd::arithmetic::div_mod::lemma_mul_mod_noop_left(e * e, e, p);
    vstd::arithmetic::div_mod::lemma_mul_mod_noop(t * t, t, p);
    vstd::arithmetic::div_mod::lemma_mod_twice(t * t, p);
    vstd::arithmetic::div_mod::lemma_mod_twice(t, p);
    assert(((e * e) % p * e) % p == (((t * t) % p) * (t % p)) % p);
}

/// `hi` with its `w` low bytes (little-endian) replaced by the `w` low bytes of `lo`.
pub open spec fn splice_low_bytes(hi: u128, lo: nat, w: nat) -> nat {
    (hi as nat / pow256(w)) * pow256(w) + lo % pow256(w)
}

/// Computes `256^w` for `w < 16`.
fn pow256_exec(w: usize) -> (r: u128)
    requires
        w < 16,
    ensures
        r == pow256(w as nat),
{
    let mut r: u128 = 1;
    let mut k: usize = 0;
    while k < w
        invariant
            k <= w < 16,
            r == pow256(k as nat),
        decreases w - k,
    {
        proof {
            lemma_pow256_monotone((k + 1) as nat, 15);
            reveal_with_fuel(pow256, 16);
            assert(pow256((k + 1) as nat) == 256 * pow256(k as nat));
        }
        r = r * 256;
        k = k + 1;
    }
    r
}

/// Replaces the `w` low bytes of `hi` by those of `lo`.
fn splice_low_bytes_exec(hi: u128, lo: u128, w: usize) -> (r: u128)
    requires
        w <= 16,
    ensures
        r == splice_low_bytes(hi, lo as nat, w as nat),
{
    if w == 16 {
        proof {
            lemma_pow256_16();
            vstd::arithmetic::div_mod::lemma_small_mod(lo as nat, pow256(16));
            vstd::arithmetic::div_mod::lemma_basic_div(hi as int, pow256(16) as int);
        }
        lo
    } else {
        let m = pow256_exec(w);
        proof {
            lemma_pow256_positive(w as nat);
            lemma_pow256_positive((16 - w) as nat);
            lemma_pow256_adds(w as nat, (16 - w) as nat);
            lemma_pow256_16();
            let q = hi as int / m as int;
            let t = pow256((16 - w) as nat) as int;
            lemma_fundamental_div_mod(hi as int, m as int);
            lemma_mod_pos_bound(hi as int, m as int);
            lemma_mod_pos_bound(lo as int, m as int);
            lemma_div_pos_is_pos(hi as int, m as int);
            lemma_mul_is_commutative(q, m as int);
            assert(q * m < t * m) by (nonlinear_arith)
                requires
                    q * m <= hi,
                    hi < 0x1_0000_0000_0000_0000_0000_0000_0000_0000,
                    m * t == 0x1_0000_0000_0000_0000_0000_0000_0000_0000,
            ;
            lemma_mul_strict_inequality_converse(q, t, m as int);
            lemma_mul_inequality(q + 1, t, m as int);
            assert((q + 1) * m == q * m + m) by (nonlinear_arith);
        }
        (hi / m) * m + lo % m
    }
}


/// A GMiMC instance with an expanding round function over `N` state words.
///
/// Each round feeds the first word through `x -> (x + c)^3` in the field, with
/// `c` the round constant, adds the result to the next `capacity` words, moves
/// those words down by one place and puts the first word after them. Each new
/// field element is written little-endian over `4 * words` bytes of the state
/// from the start of its word: a word takes at most the sixteen low bytes of
/// it, keeping those of the first word above them, and the bytes past the
/// sixteenth, zero, land in the words that follow.
#[allow(non_camel_case_types)]
pub struct gmimc_erf<const N: usize> {
    pub capacity: u8,
    pub words: u8,
    pub round: u16,
    pub field: FieldParams,
    /// The round constants, one for each round.
    pub ark: Vec<u128>,
}

/// The state before the first round: the input words, then zeros.
pub open spec fn initial_state(value: Seq<u128>, n: nat) -> Seq<u128> {
    Seq::new(n, |i: int| if i < value.len() { value[i] } else { 0u128 })
}

/// `(s0 + c)^3` in the field.
pub open spec fn round_mask(f: FieldParams, s0: u128, c: u128) -> nat {
    let e = f.elem((f.elem(s0 as int) + f.elem(c as int)) as int);
    f.elem((e * e * e) as int)
}

/// Of the `w` bytes written from the start of word `j`, the number that land in
/// word `j + d`.
pub open spec fn spill(w: nat, d: nat) -> nat {
    if w <= 16 * d {
        0
    } else if w >= 16 * d + 16 {
        16
    } else {
        (w - 16 * d) as nat
    }
}

/// `x` with its `c` low bytes set to zero.
pub open spec fn clear_low_bytes(x: u128, c: nat) -> u128 {
    splice_low_bytes(x, 0, c) as u128
}

/// The word that branch `e` reads during a round: word `e` of the state, whose
/// low bytes the writes of branch `e - 1` have already zeroed when they spill
/// past the word after the one written.
pub open spec fn branch_input(st: Seq<u128>, w: nat, e: int) -> u128 {
    if e >= 2 {
        clear_low_bytes(st[e], spill(w, 2))
    } else {
        st[e]
    }
}

/// The state after one round with round constant `c`, for `cap` branches and
/// `w` bytes written from each new field element (little-endian, the bytes past
/// the sixteenth being zero).
pub open spec fn feistel_round(f: FieldParams, cap: nat, w: nat, st: Seq<u128>, c: u128) -> Seq<u128> {
    let s0 = st[0];
    let mask = round_mask(f, s0, c);
    Seq::new(
        st.len(),
        |i: int|
            if i < cap {
                splice_low_bytes(
                    s0,
                    f.elem((mask + f.elem(branch_input(st, w, i + 1) as int)) as int),
                    spill(w, 0),
                ) as u128
            } else if i == cap {
                s0
            } else if cap > 0 {
                clear_low_bytes(st[i], spill(w, (i - cap + 1) as nat))
            } else {
                st[i]
            },
    )
}

/// Zeroing `a` and then `b` low bytes zeroes the larger number of them.
proof fn lemma_clear_low_twice(x: u128, a: nat, b: nat)
    requires
        a <= 16,
        b <= 16,
    ensures
        clear_low_bytes(clear_low_bytes(x, a), b) == clear_low_bytes(x, if a >= b { a } else { b }),
{
    let pa = pow256(a) as int;
    let pb = pow256(b) as int;
    lemma_pow256_positive(a);
    lemma_pow256_positive(b);
    let y = clear_low_bytes(x, a);
    lemma_clear_low_bound(x, a);
    lemma_clear_low_bound(y, b);
    let q = x as int / pa;
    lemma_div_pos_is_pos(x as int, pa);
    lemma_mul_is_commutative(q, pa);
    vstd::arithmetic::div_mod::lemma_div_multiples_vanish(q, pa);
    assert(y as int == q * pa);
    if b >= a {
        let r = pow256((b - a) as nat) as int;
        lemma_pow256_positive((b - a) as nat);
        lemma_pow256_adds(a, (b - a) as nat);
        assert(pb == pa * r);
        vstd::arithmetic::div_mod::lemma_div_denominator(y as int, pa, r);
        vstd::arithmetic::div_mod::lemma_div_denominator(x as int, pa, r);
    } else {
        let r = pow256((a - b) as nat) as int;
        lemma_pow256_positive((a - b) as nat);
        lemma_pow256_adds(b, (a - b) as nat);
        assert(pa == pb * r);
        vstd::arithmetic::mul::lemma_mul_is_associative(q, pb, r);
        assert(y as int == (q * r) * pb) by (nonlinear_arith)
            requires
                y as int == q * pa,
                pa == pb * r,
        ;
        lemma_mul_is_commutative(q * r, pb);
        vstd::arithmetic::div_mod::lemma_div_multiples_vanish(q * r, pb);
    }
}

/// Zeroing low bytes gives a number no larger than the original.
proof fn lemma_clear_low_bound(x: u128, c: nat)
    ensures
        splice_low_bytes(x, 0, c) <= x,
{
    let p = pow256(c) as int;
    lemma_pow256_positive(c);
    lemma_fundamental_div_mod(x as int, p);
    lemma_mod_pos_bound(x as int, p);
    lemma_div_pos_is_pos(x as int, p);
    lemma_mul_is_commutative(x as int / p, p);
    vstd::arithmetic::div_mod::lemma_small_mod(0, pow256(c));
}

/// Zeroing no bytes leaves the number as it is.
proof fn lemma_clear_low_none(x: u128)
    ensures
        clear_low_bytes(x, 0) == x,
{
    assert(pow256(0) == 1);
    assert(x as nat / 1 == x);
    assert(0nat % 1 == 0);
}

impl<const N: usize> gmimc_erf<N> {
    /// The number of bytes written from each new field element.
    pub open spec fn byte_width(&self) -> nat {
        (self.words * 4) as nat
    }

    /// The state after the first `r` rounds, starting from `st`.
    pub open spec fn rounds(&self, st: Seq<u128>, r: nat) -> Seq<u128>
        decreases r,
    {
        if r == 0 {
            st
        } else {
            feistel_round(
                self.field,
                self.capacity as nat,
                self.byte_width(),
                self.rounds(st, (r - 1) as nat),
                self.ark@[r - 1],
            )
        }
    }

    /// The hash of `value`: all rounds applied to the initial state.
    pub open spec fn hash(&self, value: Seq<u128>) -> Seq<u128> {
        self.rounds(initial_state(value, N as nat), self.round as nat)
    }

    /// The inputs on which the permutation runs to completion: the field is a
    /// field, the input fits the state (and the first 128 bytes of it), there is
    /// a constant for each round, and every byte written lies inside the state,
    /// its first 128 bytes and the field's representation.
    pub open spec fn accepts(&self, value_len: nat) -> bool {
        &&& self.field.wf()
        &&& value_len <= N
        &&& value_len <= 8
        &&& self.round <= self.ark.len()
        &&& self.round > 0 ==> N >= 1
        &&& (self.round > 0 && self.capacity > 0) ==> {
            &&& self.capacity < N
            &&& self.words * 4 <= self.field.repr_len
            &&& (self.capacity - 1) * 16 + self.words * 4 <= 128
            &&& (self.capacity - 1) * 16 + self.words * 4 <= 16 * N
        }
    }

    /// Applies the permutation to `value`, padded with zeros to `N` words.
    pub fn get_hash_output(&self, value: &[u128]) -> (out: [u128; N])
        requires
            self.accepts(value@.len()),
        ensures
            out@ == self.hash(value@),
    {
        let mut state: [u128; N] = [0u128; N];
        let n = value.len();
        for i in 0..n
            invariant
                n == value@.len(),
                n <= N,
                forall|k: int| 0 <= k < i ==> #[trigger] state@[k] == value@[k],
                forall|k: int| i <= k < N ==> #[trigger] state@[k] == 0,
        {
            state[i] = value[i];
        }
        assert(state@ =~= initial_state(value@, N as nat));
        let cap = self.capacity as usize;
        let w: usize = (self.words as usize) * 4;
        let first_w: usize = if w > 16 { 16 } else { w };
        let mut i: u16 = 0;
        while i < self.round
            invariant
                self.accepts(value@.len()),
                cap == self.capacity,
                w == self.byte_width(),
                first_w == spill(w as nat, 0),
                i <= self.round,
                state@ == self.rounds(initial_state(value@, N as nat), i as nat),
            decreases self.round - i,
        {
            let ghost old_state = state@;
            let s0 = state[0];
            let a = self.field.from_u128(s0);
            let b = self.field.from_u128(self.ark[i as usize]);
            let mask = self.field.cube(self.field.add(a, b));
            let ghost next = feistel_round(self.field, cap as nat, w as nat, old_state, self.ark@[i as int]);
            let mut j: usize = 1;
            while j <= cap
                invariant
                    self.accepts(value@.len()),
                    self.round > 0,
                    cap == self.capacity,
                    w == self.byte_width(),
                    first_w == spill(w as nat, 0),
                    1 <= j <= cap + 1,
                    cap > 0 ==> cap < N,
                    cap > 0 ==> (cap - 1) * 16 + w <= 16 * N,
                    cap > 0 ==> (cap - 1) * 16 + w <= 128,
                    s0 == old_state[0],
                    mask == round_mask(self.field, s0, self.ark@[i as int]),
                    old_state.len() == N,
                    next == feistel_round(self.field, cap as nat, w as nat, old_state, self.ark@[i as int]),
                    forall|k: int| 0 <= k < j - 1 ==> #[trigger] state@[k] == next[k],
                    state@[j - 1] == s0,
                    forall|k: int| j <= k < N ==> #[trigger] state@[k] == (if j >= 2 {
                        clear_low_bytes(old_state[k], spill(w as nat, (k - j + 2) as nat))
                    } else {
                        old_state[k]
                    }),
                decreases cap + 1 - j,
            {
                let ghost pre = state@;
                assert(pre[j as int] == branch_input(old_state, w as nat, j as int));
                let masked = self.field.add(mask, self.field.from_u128(state[j]));
                let prev = state[j - 1];
                state[j - 1] = splice_low_bytes_exec(prev, masked, first_w);
                let ghost spliced = state@[j - 1];
                assert(spliced == next[j - 1]);
                let mut d: usize = 1;
                while 16 * d < w
                    invariant
                        1 <= j <= cap,
                        cap < N,
                        (cap - 1) * 16 + w <= 16 * N,
                        w <= 128,
                        1 <= d <= 8,
                        d == 1 || 16 * (d - 1) < w,
                        pre.len() == N,
                        state@.len() == N,
                        state@[j - 1] == spliced,
                        forall|k: int| 0 <= k < j - 1 ==> #[trigger] state@[k] == pre[k],
                        forall|e: int| 1 <= e < d ==> #[trigger] state@[j - 1 + e] == clear_low_bytes(pre[j - 1 + e], spill(w as nat, e as nat)),
                        forall|k: int| j - 1 + d <= k < N ==> #[trigger] state@[k] == pre[k],
                    decreases 9 - d,
                {
                    let c: usize = if w - 16 * d >= 16 { 16 } else { w - 16 * d };
                    let idx: usize = j - 1 + d;
                    let cur = state[idx];
                    state[idx] = splice_low_bytes_exec(cur, 0, c);
                    d = d + 1;
                }
                proof {
                    assert forall|k: int| j <= k < N implies #[trigger] state@[k] == clear_low_bytes(
                        old_state[k],
                        spill(w as nat, (k - j + 1) as nat),
                    ) by {
                        let e = k - j + 1;
                        if e < d {
                            assert(state@[j - 1 + e] == clear_low_bytes(pre[j - 1 + e], spill(w as nat, e as nat)));
                        } else {
                            assert(spill(w as nat, e as nat) == 0);
                            lemma_clear_low_none(pre[k]);
                        }
                        if j >= 2 {
                            lemma_clear_low_twice(old_state[k], spill(w as nat, (k - j + 2) as nat), spill(w as nat, e as nat));
                        } else {
                            assert(pre[k] == old_state[k]);
                        }
                    }
                }
                state[j] = s0;
                j = j + 1;
            }
            proof {
                if cap == 0 {
                    assert forall|k: int| 0 <= k < N implies #[trigger] state@[k] == next[k] by {}
                }
            }
            assert(state@ =~= next);
            i = i + 1;
        }
        state
    }
}


/// The bytes of `values`, each word little-endian, in order.
pub fn as_bytes(values: &[u128]) -> (bytes: Vec<u8>)
    requires
        values@.len() * 16 <= usize::MAX,
    ensures
        bytes@ == words_le_bytes(values@),
{
    let mut bytes: Vec<u8> = Vec::new();
    let n = values.len();
    for i in 0..n
        invariant
            n == values@.len(),
            n * 16 <= usize::MAX,
            bytes@.len() == 16 * i,
            forall|j: int| 0 <= j < 16 * i ==> #[trigger] bytes@[j] == words_le_bytes(values@)[j],
    {
        let le = u128_to_le_bytes(values[i]);
        for k in 0..16usize
            invariant
                i < n,
                n == values@.len(),
                bytes@.len() == 16 * i + k,
                forall|j: int| 0 <= j < 16 ==> #[trigger] le@[j] == le_byte(values@[i as int] as nat, j as nat),
                forall|j: int| 0 <= j < 16 * i + k ==> #[trigger] bytes@[j] == words_le_bytes(values@)[j],
        {
            bytes.push(le[k]);
            proof {
                let j = 16 * i + k;
                assert(j / 16 == i && j % 16 == k) by (nonlinear_arith)
                    requires j == 16 * i + k, k < 16;
            }
        }
    }
    assert(bytes@ =~= words_le_bytes(values@));
    bytes
}

/// The lower-case hexadecimal digit for `d < 16`.
pub open spec fn hex_char(d: nat) -> char {
    seq!['0', '1', '2', '3', '4', '5', '6', '7', '8', '9', 'a', 'b', 'c', 'd', 'e', 'f'][d as int]
}

/// The lower-case hexadecimal numeral of `x`, without leading zeros ("0" for zero).
pub open spec fn hex_digits(x: nat) -> Seq<char>
    decreases x,
{
    if x < 16 {
        seq![hex_char(x)]
    } else {
        hex_digits(x / 16).push(hex_char(x % 16))
    }
}

/// The hexadecimal numerals of the words of `s`, one after the other.
pub open spec fn hex_concat(s: Seq<u128>) -> Seq<char>
    decreases s.len(),
{
    if s.len() == 0 {
        Seq::empty()
    } else {
        hex_concat(s.drop_last()) + hex_digits(s.last() as nat)
    }
}

fn hex_digit_str(d: u8) -> (s: &'static str)
    requires
        d < 16,
    ensures
        s@ == seq![hex_char(d as nat)],
{
    match d {
        0 => { proof { reveal_strlit("0"); } "0" },
        1 => { proof { reveal_strlit("1"); } "1" },
        2 => { proof { reveal_strlit("2"); } "2" },
        3 => { proof { reveal_strlit("3"); } "3" },
        4 => { proof { reveal_strlit("4"); } "4" },
        5 => { proof { reveal_strlit("5"); } "5" },
        6 => { proof { reveal_strlit("6"); } "6" },
        7 => { proof { reveal_strlit("7"); } "7" },
        8 => { proof { reveal_strlit("8"); } "8" },
        9 => { proof { reveal_strlit("9"); } "9" },
        10 => { proof { reveal_strlit("a"); } "a" },
        11 => { proof { reveal_strlit("b"); } "b" },
        12 => { proof { reveal_strlit("c"); } "c" },
        13 => { proof { reveal_strlit("d"); } "d" },
        14 => { proof { reveal_strlit("e"); } "e" },
        _ => { proof { reveal_strlit("f"); } "f" },
    }
}

fn push_hex(s: &mut String, x: u128)
    ensures
        final(s)@ == old(s)@ + hex_digits(x as nat),
    decreases x,
{
    if x >= 16 {
        push_hex(s, x / 16);
    }
    s.append(hex_digit_str((x % 16) as u8));
    proof {
        if x >= 16 {
            assert(old(s)@ + hex_digits(x as nat) =~= old(s)@ + hex_digits((x / 16) as nat) + seq![hex_char((x % 16) as nat)]);
        }
    }
}

/// The value of a lower-case hexadecimal digit character, or 16 for any other
/// character.
pub open spec fn hex_digit_value(c: char) -> nat {
    let v = c as u32;
    if ('0' as u32) <= v && v <= ('9' as u32) {
        (v - ('0' as u32)) as nat
    } else if ('a' as u32) <= v && v <= ('f' as u32) {
        (v - ('a' as u32) + 10) as nat
    } else {
        16
    }
}

/// The number that a string of hexadecimal digits denotes, most significant first.
pub open spec fn hex_value(s: Seq<char>) -> nat
    decreases s.len(),
{
    if s.len() == 0 {
        0
    } else {
        hex_value(s.drop_last()) * 16 + hex_digit_value(s.last())
    }
}

/// The numeral of `x` is the standard one: it is made of lower-case
/// hexadecimal digits, reads back as `x`, and has no leading zero.
pub proof fn lemma_hex_digits_standard(x: nat)
    ensures
        hex_value(hex_digits(x)) == x,
        hex_digits(x).len() >= 1,
        forall|i: int| 0 <= i < hex_digits(x).len() ==> #[trigger] hex_digit_value(hex_digits(x)[i]) < 16,
        x > 0 ==> hex_digits(x)[0] != '0',
    decreases x,
{
    lemma_hex_char_value(x % 16);
    if x >= 16 {
        lemma_hex_digits_standard(x / 16);
        let s = hex_digits(x);
        assert(s.drop_last() =~= hex_digits(x / 16));
        assert(s.last() == hex_char(x % 16));
        assert(s[0] == hex_digits(x / 16)[0]);
        vstd::arithmetic::div_mod::lemma_fundamental_div_mod(x as int, 16);
        assert(hex_value(s) == hex_value(hex_digits(x / 16)) * 16 + x % 16);
    } else {
        assert(hex_digits(x) =~= seq![hex_char(x)]);
        assert(hex_digits(x).drop_last() =~= Seq::<char>::empty());
        assert(hex_value(hex_digits(x)) == hex_value(Seq::<char>::empty()) * 16 + hex_digit_value(hex_char(x)));
        if x > 0 {
            assert(hex_digit_value(hex_char(x)) != 0);
        }
    }
}

/// The digit character for `d < 16` has value `d`.
proof fn lemma_hex_char_value(d: nat)
    requires
        d < 16,
    ensures
        hex_digit_value(hex_char(d)) == d,
{
}

/// Rendering a concatenation gives the concatenation of the renderings, and
/// nothing renders as the empty string.
pub proof fn lemma_hex_concat_append(a: Seq<u128>, b: Seq<u128>)
    ensures
        hex_concat(a + b) == hex_concat(a) + hex_concat(b),
        hex_concat(Seq::empty()) == Seq::<char>::empty(),
    decreases b.len(),
{
    if b.len() == 0 {
        assert(a + b =~= a);
        assert(hex_concat(a) + hex_concat(b) =~= hex_concat(a));
    } else {
        lemma_hex_concat_append(a, b.drop_last());
        assert((a + b).drop_last() =~= a + b.drop_last());
        assert((a + b).last() == b.last());
        assert(hex_concat(a + b) =~= hex_concat(a) + hex_concat(b));
    }
}

impl<const N: usize> gmimc_erf<N> {
    /// The lower-case hexadecimal numerals of the words of `input`, concatenated.
    pub fn convert_hex_strin(input: &[u128]) -> (byte_string: String)
        ensures
            byte_string@ == hex_concat(input@),
    {
        let mut byte_string = String::new();
        let n = input.len();
        for i in 0..n
            invariant
                n == input@.len(),
                byte_string@ == hex_concat(input@.take(i as int)),
        {
            push_hex(&mut byte_string, input[i]);
            assert(input@.take(i + 1).drop_last() =~= input@.take(i as int));
        }
        assert(input@.take(n as int) =~= input@);
        byte_string
    }
}


impl<const N: usize> gmimc_erf<N> {
    /// Round constants matter only modulo the field's modulus: two instances
    /// that differ only in round constants congruent modulo it give the same
    /// hash.
    pub proof fn lemma_hash_congruent_constants(&self, other: &Self, value: Seq<u128>)
        requires
            self.field.wf(),
            other.field == self.field,
            other.capacity == self.capacity,
            other.words == self.words,
            other.round == self.round,
            forall|i: int| 0 <= i < self.round ==> #[trigger] self.ark@[i] % self.field.modulus
                == other.ark@[i] % self.field.modulus,
        ensures
            self.hash(value) == other.hash(value),
    {
        self.lemma_rounds_congruent_constants(other, initial_state(value, N as nat), self.round as nat);
    }

    proof fn lemma_rounds_congruent_constants(&self, other: &Self, st: Seq<u128>, r: nat)
        requires
            self.field.wf(),
            other.field == self.field,
            other.capacity == self.capacity,
            other.words == self.words,
            r <= self.round,
            forall|i: int| 0 <= i < self.round ==> #[trigger] self.ark@[i] % self.field.modulus
                == other.ark@[i] % self.field.modulus,
        ensures
            self.rounds(st, r) == other.rounds(st, r),
        decreases r,
    {
        if r > 0 {
            self.lemma_rounds_congruent_constants(other, st, (r - 1) as nat);
            assert(self.ark@[r - 1] % self.field.modulus == other.ark@[r - 1] % self.field.modulus);
        }
    }

    /// Rounds keep the number of state words.
    pub proof fn lemma_rounds_len(&self, st: Seq<u128>, r: nat)
        ensures
            self.rounds(st, r).len() == st.len(),
        decreases r,
    {
        if r > 0 {
            self.lemma_rounds_len(st, (r - 1) as nat);
        }
    }

    /// When each new field element is written over at most 32 bytes, rounds
    /// never touch the words past the first `capacity + 1`.
    pub proof fn lemma_rounds_keep_tail(&self, st: Seq<u128>, r: nat, k: int)
        requires
            self.capacity < k < st.len(),
            self.words * 4 <= 32,
        ensures
            self.rounds(st, r)[k] == st[k],
        decreases r,
    {
        if r > 0 {
            self.lemma_rounds_keep_tail(st, (r - 1) as nat, k);
            self.lemma_rounds_len(st, (r - 1) as nat);
            lemma_clear_low_none(self.rounds(st, (r - 1) as nat)[k]);
        }
    }

    /// The hash is `N` words long and, when each new field element is written
    /// over at most 32 bytes, its words past the first `capacity + 1` are those
    /// of the zero-padded input.
    pub proof fn lemma_hash_keeps_tail(&self, value: Seq<u128>, k: int)
        requires
            self.capacity < k < N,
            self.words * 4 <= 32,
        ensures
            self.hash(value).len() == N,
            self.hash(value)[k] == (if k < value.len() { value[k] } else { 0u128 }),
    {
        self.lemma_rounds_len(initial_state(value, N as nat), self.round as nat);
        self.lemma_rounds_keep_tail(initial_state(value, N as nat), self.round as nat, k);
    }

    /// With no branches (`capacity == 0`) every round leaves the state as it is,
    /// so the hash is the zero-padded input.
    pub proof fn lemma_no_capacity_identity(&self, value: Seq<u128>)
        requires
            self.capacity == 0,
        ensures
            self.hash(value) == initial_state(value, N as nat),
    {
        self.lemma_rounds_identity(initial_state(value, N as nat), self.round as nat);
    }

    proof fn lemma_rounds_identity(&self, st: Seq<u128>, r: nat)
        requires
            self.capacity == 0,
        ensures
            self.rounds(st, r) == st,
        decreases r,
    {
        if r > 0 {
            self.lemma_rounds_identity(st, (r - 1) as nat);
            let c = self.ark@[r - 1];
            assert(feistel_round(self.field, 0, self.byte_width(), st, c) =~= st);
        }
    }
}

} // verus!
