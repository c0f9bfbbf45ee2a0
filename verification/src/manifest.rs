//! Persisted engine manifest: the durable description of live segments and
//! the per-partition journal watermark. Its JSON encoding is done by the
//! embedding application through [`ManifestCodec`].
use vstd::prelude::*;

use crate::error::Error;
use crate::segment::{copy_segments, segments_view, SegmentMeta, SegmentMetaV};

verus! {

/// A manifest snapshot.
#[derive(Debug, Clone)]
pub struct Manifest {
    /// Manifest sequence number (monotonic).
    pub seq: u64,
    /// Next segment id to hand out.
    pub next_segment_id: u64,
    /// Last journal group sequence assigned at write time.
    pub next_journal_seq: u64,
    /// Per-partition durable metadata, sorted by partition name.
    pub partitions: Vec<(String, PartitionMeta)>,
    /// Fencing epoch of the writer (0 = unfenced).
    pub fence_epoch: u128,
}

/// Durable per-partition state.
#[derive(Debug, Clone)]
pub struct PartitionMeta {
    /// Immutable segments, oldest first.
    pub segments: Vec<SegmentMeta>,
    /// Highest journal seq already folded into durable state (segments or an
    /// intentional discard via clear / rm_partition).
    pub watermark: u64,
    /// Whether the partition was dropped; kept so the watermark survives
    /// recreation and stale journal groups are never resurrected.
    pub dropped: bool,
}

/// Mathematical view of a [`PartitionMeta`].
pub struct PartitionMetaV {
    pub segments: Seq<SegmentMetaV>,
    pub watermark: u64,
    pub dropped: bool,
}

impl View for PartitionMeta {
    type V = PartitionMetaV;

    open spec fn view(&self) -> PartitionMetaV {
        PartitionMetaV {
            segments: segments_view(self.segments@),
            watermark: self.watermark,
            dropped: self.dropped,
        }
    }
}

impl PartitionMeta {
    /// An equal copy.
    pub fn copy_meta(&self) -> (r: PartitionMeta)
        ensures
            r@ == self@,
    {
        PartitionMeta {
            segments: copy_segments(&self.segments),
            watermark: self.watermark,
            dropped: self.dropped,
        }
    }

    /// Metadata of a partition with no segments and no history.
    pub fn new() -> (m: PartitionMeta)
        ensures
            m.segments@.len() == 0,
            m.watermark == 0,
            !m.dropped,
    {
        PartitionMeta { segments: Vec::new(), watermark: 0, dropped: false }
    }
}

/// Turns manifests into bytes and back. The engine publishes and reads
/// manifests through this interface; the embedding application supplies the
/// JSON implementation.
pub trait ManifestCodec {
    fn encode_manifest(&self, m: &Manifest) -> Result<Vec<u8>, Error>;

    fn decode_manifest(&self, bytes: &[u8]) -> Result<Manifest, Error>;
}

} // verus!
