# halo2_core

Verified building blocks of the halo2 proof system, written in Verus:

- `field`: the prime field interface `FieldExt`, stated over the integers
  modulo the field's characteristic, and `Fp`, the Pallas base field, which
  calls `pasta_curves` for its arithmetic.
- `poseidon`: the Poseidon permutation, the sponge, and the constant-length
  hash built on it.
- `sha256`: the initial subregion of the Table16 SHA-256 compression gadget,
  over a model of a circuit region that records its assigned cells.
- `arithmetic`, `msm`, `multiopen`, `shplonk`: polynomial evaluation,
  multiscalar multiplications kept as terms, the grouping of queries into
  rotation sets, and the SHPLONK multi-opening verifier.

`app/` formats the parameters of a Poseidon hasher for debugging.
