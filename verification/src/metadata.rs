//! What is known of the stored labels.

use vstd::prelude::*;

verus! {

/// A description of the stored labels.
#[derive(Debug, Clone, PartialEq, Eq)]
pub struct PostMetadata {
    pub node_id: [u8; 32],
    pub commitment_atx_id: [u8; 32],
    pub labels_per_unit: u64,
    pub num_units: u32,
    pub max_file_size: u64,
    pub nonce: Option<u64>,
    pub last_position: Option<u64>,
}

impl PostMetadata {
    /// How many labels are stored.
    pub open spec fn label_count(self) -> nat {
        self.num_units as nat * self.labels_per_unit as nat
    }

    /// How many labels are stored.
    pub fn num_labels(&self) -> (num_labels: u64)
        requires
            self.label_count() <= u64::MAX,
        ensures
            num_labels == self.label_count(),
            num_labels == self.num_units * self.labels_per_unit,
    {
        self.num_units as u64 * self.labels_per_unit
    }
}

impl Default for PostMetadata {
    fn default() -> (metadata: Self)
        ensures
            metadata.node_id@ == Seq::new(32, |i: int| 0u8),
            metadata.commitment_atx_id@ == Seq::new(32, |i: int| 0u8),
            metadata.labels_per_unit == 0,
            metadata.num_units == 0,
            metadata.max_file_size == 0,
            metadata.nonce is None,
            metadata.last_position is None,
    {
        PostMetadata {
            node_id: [0u8; 32],
            commitment_atx_id: [0u8; 32],
            labels_per_unit: 0,
            num_units: 0,
            max_file_size: 0,
            nonce: None,
            last_position: None,
        }
    }
}

/// No units hold no labels, and each unit more holds `labels_per_unit` labels more.
pub proof fn units_add_their_labels(metadata: PostMetadata, more: PostMetadata)
    requires
        more.labels_per_unit == metadata.labels_per_unit,
        more.num_units == metadata.num_units + 1,
    ensures
        metadata.num_units == 0 ==> metadata.label_count() == 0,
        more.label_count() == metadata.label_count() + metadata.labels_per_unit,
        metadata.label_count() == metadata.num_units * metadata.labels_per_unit,
{
    assert((metadata.num_units + 1) * metadata.labels_per_unit == metadata.num_units
        * metadata.labels_per_unit + metadata.labels_per_unit) by (nonlinear_arith);
    assert(0 * metadata.labels_per_unit == 0);
}

} // verus!
