//! The proving scheme: towers over the records of a circuit.
pub mod cpu;
pub mod main_sumcheck;
pub mod round_laws;
pub mod structs;
pub mod tower_laws;
pub mod tower_output_laws;
pub mod tower_prover;
pub mod utils;
