//! Arbitrary-precision counters, through `num_bigint::BigUint`.

use vstd::prelude::*;
use num_bigint::BigUint;

verus! {

#[verifier::external_type_specification]
#[verifier::external_body]
pub struct ExBigUint(BigUint);

/// The non-negative integer that a `BigUint` holds.
pub uninterp spec fn biguint_value(b: BigUint) -> nat;

/// `BigUint::from(u128)`: num_bigint builds the number `v` (its `From<u128>`
/// pushes the machine-word digits of `v`, least significant first).
#[verifier::external_body]
pub(crate) fn biguint_from_u128(v: u128) -> (r: BigUint)
    ensures
        biguint_value(r) == v,
{
    BigUint::from(v)
}

/// `BigUint += u32`: num_bigint adds `v` to the number, carrying into a new
/// digit where needed.
#[verifier::external_body]
pub(crate) fn biguint_add_assign_u32(b: &mut BigUint, v: u32)
    ensures
        biguint_value(*final(b)) == biguint_value(*old(b)) + v,
{
    *b += v;
}

/// `BigUint += BigUint`: num_bigint adds the two numbers.
#[verifier::external_body]
pub(crate) fn biguint_add_assign(b: &mut BigUint, other: BigUint)
    ensures
        biguint_value(*final(b)) == biguint_value(*old(b)) + biguint_value(other),
{
    *b += other;
}

/// `BigUint / BigUint`: num_bigint's quotient of the division, rounded down; it
/// panics on a zero divisor, which `requires` rules out.
#[verifier::external_body]
pub(crate) fn biguint_div(a: BigUint, d: BigUint) -> (r: BigUint)
    requires
        biguint_value(d) != 0,
    ensures
        biguint_value(r) == biguint_value(a) / biguint_value(d),
{
    a / d
}

} // verus!
