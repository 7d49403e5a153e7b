//! Proofs of space: scanning stored labels for the ones that a challenge makes good,
//! and packing the indexes that were found into a proof.

pub mod batches;
pub mod bytes;
pub mod cipher;
pub mod compression;
pub mod config;
pub mod difficulty;
pub mod guarantees;
pub mod hit_log;
pub mod metadata;
pub mod nonce;
pub mod params;
pub mod pow;
pub mod prove;
pub mod prover;
pub mod scan;
pub mod sink;
