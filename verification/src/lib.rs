//! Proof generation for Proof of Space: searching initialized label data for
//! a nonce and a set of label indices that satisfy a challenge.

pub mod cipher;
pub mod compression;
pub mod config;
pub mod difficulty;
pub mod metadata;
pub mod pow;
pub mod prove;
pub mod search;
