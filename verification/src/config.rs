//! Settings of the protocol.

use vstd::prelude::*;

verus! {

/// What a proof is asked for.
#[derive(Debug, Clone, Copy, PartialEq, Eq)]
pub struct ProofConfig {
    /// How many labels are expected to be good for a nonce.
    pub k1: u32,
    /// How many good labels a proof holds.
    pub k2: u32,
    /// How many labels of a proof are checked.
    pub k3: u32,
    /// The threshold for the proof of work of one unit of space, most significant byte first.
    pub pow_difficulty: [u8; 32],
}

} // verus!
