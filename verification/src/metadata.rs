//! What is recorded about initialized label data.

use vstd::prelude::*;

verus! {

/// The shape of the initialized data.
#[derive(Debug, Clone, Copy, PartialEq, Eq, Default)]
pub struct PostMetadata {
    /// The number of units of storage.
    pub num_units: u32,
    /// The number of labels in each unit.
    pub labels_per_unit: u64,
    /// The size in bytes of each file of labels but the last.
    pub max_file_size: u64,
}

impl PostMetadata {
    /// The number of labels in all units together.
    pub open spec fn num_labels(&self) -> nat {
        (self.num_units * self.labels_per_unit) as nat
    }
}

} // verus!
