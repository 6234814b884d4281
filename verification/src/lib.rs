//! Groth16 proving parameters: reading them from a stream or a mapped file,
//! writing them, recording where their points lie in a file, and handing them
//! to a prover.

mod accepting;
pub mod bls12;
pub mod engine;
pub mod fault_laws;
mod faults;
pub mod format;
pub mod group_laws;
pub mod laws;
mod lemmas;
pub mod map_laws;
pub mod mapped;
pub mod params;
pub mod place_laws;
mod placing;
pub mod points;
pub mod reader;
pub mod stream_laws;
pub mod value_laws;
pub mod verifying_key;
pub mod wire;
pub mod writer;
