//! The interface to the proof of work that binds each nonce group.

use vstd::prelude::*;

verus! {

/// Why no proof of work was obtained.
#[derive(Debug, Clone, Copy, PartialEq, Eq, Structural)]
pub enum Error {
    /// No value under the difficulty threshold exists.
    PoWNotFound,
    /// The machinery that computes the proof of work failed.
    Internal,
}

/// A source of proofs of work.
///
/// Implementations are expected to answer deterministically: the same nonce
/// group, challenge prefix and difficulty give the same result every time.
pub trait Prover {
    /// Finds the proof of work for `nonce_group` under `difficulty`.
    fn prove(&self, nonce_group: u32, challenge: &[u8; 8], difficulty: &[u8; 32]) -> Result<
        u64,
        Error,
    >;
}

} // verus!
