//! A verified virtual machine for a 15-bit-word, register-based bytecode,
//! together with the transports it reads from and writes to, a binary
//! snapshot codec for stopping and resuming a run, and the helpers that
//! external tooling builds on top of the machine's public contract.

pub mod driver;
pub mod error;
pub mod laws;
pub mod permutation;
pub mod room;
pub mod snapshot;
pub mod state;
pub mod teleporter;
pub mod transport;
pub mod vault;
pub mod vm;
