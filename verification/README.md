# gmimc_rust_test

GMiMC (a Feistel-style permutation with an expanding round function, over a
prime field) and the tools used to measure its avalanche behaviour: the 512
single-bit variants of a 512-bit input, bit-difference counts, and the average
number of bits by which the hash of a variant differs from the hash of the input.

- `src/` is the library: every public function states in its contract what it
  returns, over spec functions in the same modules, and the contracts are proved.
- `tests/` holds the tests.
- `app/main.rs` is the plotting program: it reads the round constants from a
  file, computes the scatter points with the library and draws them with
  `plotters`.

The field is described by plain values (`FieldParams`: the modulus and the
length of the element representation); the app derives it from an
`ff::PrimeField` type.
