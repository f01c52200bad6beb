# cdm_oprf

A verified library for the arithmetic behind an oblivious PRF built from the
"crypto dark matter" weak PRF `F_K(x) = B * (K * x)`: `K * x` is a product in
GF(2^256), its bits are read as ternary values and multiplied by a public
matrix `B` over GF(3).

Every function in `src/` is checked by Verus against its `requires`/`ensures`
contract; the contracts are stated over mathematical models (coefficient
sequences of polynomials, integers modulo a prime, sequences of values).

Layout of `src/`:

- Fields: `f3` (GF(3)), `f61p` (integers modulo 2^61 - 1), `f64t` and `f82t`
  (GF(3^64), GF(3^82), bit-sliced), `f256b` (GF(2^256)), with the polynomial
  models in `gf3poly` and `gf2poly`; byte encodings in `bytes`, packing of GF(3)
  elements in `f3_serialize`.
- Authenticated values: `poly61` and `hd_quicksilver` (higher-degree MACs and
  the QuickSilver zero check), `qs_range` (range checks), `vole_util` (lifting,
  batched opening, weak equality test), `oprf_types`.
- Preprocessing: `cut_and_choose` (opening flags and bucketing), `f3_triples`
  (GF(3) multiplication triples from hashed MAC masks, sacrifice and bucket
  combination), `habits` and `d_bits` (bits shared over GF(2) and GF(3)),
  `codes` (parity-check consistency of doubly-authenticated bits), `digest`
  (BLAKE3 digests, masks and commitments), `preprocessing` (commitment counts,
  choice of consistency check, chunking, grouping of bits, key correction).
- Evaluation: `input_encoding` (the input code), `matrix_util` (`B`, its lookup
  tables and the weak PRF in the clear), `convert` (conversion of a masked value
  into GF(3) shares and MACs with doubly-authenticated bits, and `B` applied to
  them), `semi` and `c_wprf` (the same with plain shared bits, for the
  semi-honest protocol and the one with a malicious client).
- Outside crates: `rng` (`rand`), `ct` (`subtle`), `digest` (`blake3`), each call
  behind a small trusted wrapper whose contract is stated next to it.

`tests/` exercises the library on concrete values.
