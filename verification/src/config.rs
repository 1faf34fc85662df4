//! The parameters of proof generation.

use vstd::prelude::*;

verus! {

/// The parameters that a proof is generated and verified under.
#[derive(Debug, Clone, Copy, PartialEq, Eq, Default)]
pub struct Config {
    /// The number of labels that are expected to pass for a nonce over the
    /// whole data. It sets the proving difficulty.
    pub k1: u32,
    /// The number of indices of passing labels that make a proof.
    pub k2: u32,
    /// The number of indices that a verifier checks.
    pub k3: u32,
    /// The threshold of the proof of work for a single unit of storage.
    pub pow_difficulty: [u8; 32],
}

} // verus!
