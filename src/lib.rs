//! The Poseidon permutation over the Ristretto scalar field, a 2:1 hash built
//! on it, and their encoding as rank-1 constraints, with the native and the
//! circuit engine proved to agree.
use vstd::prelude::*;

pub mod field;
pub mod sbox;
pub mod params;
pub mod permutation;
pub mod lc;
pub mod circuit;
pub mod gadget;

pub use field::Fe;
pub use sbox::SboxType;
pub use params::{PoseidonParams, ParamsError};
pub use permutation::{Poseidon_permutation, Poseidon_hash_2};
pub use circuit::{Circuit, CircuitError};
pub use gadget::{
    Poseidon_permutation_constraints, Poseidon_permutation_gadget, Poseidon_hash_2_constraints,
    Poseidon_hash_2_gadget,
};

verus! {

} // verus!
