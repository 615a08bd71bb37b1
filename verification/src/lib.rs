//! GMiMC hashing with an expanding round function, and the bit-flip
//! measurements used to study its avalanche behaviour.
//!
//! - `field`: arithmetic modulo a prime below `2^128`;
//! - `gmimc`: the permutation, its byte helpers and its hexadecimal rendering;
//! - `avalanche`: single-bit input variants, bit-difference counts and the
//!   avalanche coefficient;
//! - `points`: the data of the scatter plot of hash outputs;
//! - `bits`, `bytes`, `bignum`: bit counting, byte layout and the big-number
//!   counters that the measurements accumulate in.

pub mod bits;
pub mod bytes;
pub mod bignum;
pub mod field;
pub mod gmimc;
pub mod avalanche;
pub mod points;
