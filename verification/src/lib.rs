//! Poseidon sponge hashing, the initial SHA-256 compression subregion and the
//! SHPLONK multi-opening verifier, over a prime field model.

pub mod arithmetic;
pub mod field;
pub mod msm;
pub mod multiopen;
pub mod poseidon;
pub mod sha256;
pub mod shplonk;
