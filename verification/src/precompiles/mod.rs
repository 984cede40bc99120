//! Circuits of the Keccak permutation.
pub mod bitwise_keccakf;
pub mod bitwise_laws;
pub mod bitwise_witness;
pub mod keccak;
pub mod lookup_keccakf;
pub mod lookup_layer_laws;
pub mod lookup_laws;
pub mod lookup_run;
pub mod lookup_witness;
pub mod permutation;
pub mod system;
pub mod utils;
pub mod words;
