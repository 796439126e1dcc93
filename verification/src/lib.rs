//! A STARK prover over an abstract accelerator, and the word-oriented
//! serialization used to pass data in and out of a virtual machine.
pub mod baby_bear;
pub mod baby_bear_field;
pub mod circuit;
pub mod cpu;
pub mod deep;
pub mod entry_map;
pub mod exactness;
pub mod field;
pub mod fri;
pub mod hal;
pub mod host_laws;
pub mod iop;
pub mod laws;
pub mod merkle;
pub mod opening_laws;
pub mod poly;
pub mod poly_group;
pub mod prover;
pub mod roots;
pub mod serde;
pub mod serde_laws;
pub mod sha;
pub mod sha256;
pub mod taps;
pub mod transcript_laws;
pub mod transform;
