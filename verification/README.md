# fixed_biguint

Fixed-width unsigned big integers, `BigUint<N>`: `N` little-endian 64-bit limbs,
with addition (`+` by a `BigUint`, a `u32` or a `u64`), subtraction, comparison,
checked subtraction and a schoolbook multiplication into a double-width
`DoubleBigUint<N>`. `BigUint256` is `BigUint<4>`.

Every function is verified with Verus against the value that the limbs stand for
(`limbs_value`, the view `x@`):

- `src/biguint/limbs.rs` — the value of a limb sequence and the facts about it
  (bounds, splitting, single-limb updates, uniqueness of the representation).
- `src/biguint.rs` — the types, `new`, `zero`, `one`, `cmp`, and the proofs that
  every value below `2^(64 N)` has exactly one representation.
- `src/biguint/add.rs`, `sub.rs`, `mul.rs` — the arithmetic on slices and the
  operator impls.
- `src/biguint/laws.rs` — laws across operations (commutativity, identities,
  subtraction undoing addition, exactness of the double-width product).
