use vstd::prelude::*;

verus! {

/// Size of one storage entry, in bytes.
pub const ENTRY_SIZE: u32 = 256;

/// Number of entries in one storage segment.
pub const ENTRY_PER_SEGMENT: u32 = 1024;

/// Size of one storage segment, in bytes.
pub const SEGMENT_SIZE: u32 = ENTRY_SIZE * ENTRY_PER_SEGMENT;

/// Size of one serialized field element (one coefficient of a row).
pub const COEFF_SIZE: u32 = 32;

/// Size of one compressed row commitment.
pub const COMMITMENT_SIZE: u32 = 48;

/// Header of a dispersed batch.
#[derive(Debug)]
pub struct BatchHeader {
    pub batch_root: Vec<u8>,
    /// Identifier under which storage endpoints serve the batch's segments.
    pub data_root: [u8; 32],
}

/// Geometry of one blob of a batch.
#[derive(Debug, Clone, Copy)]
pub struct BlobDisperseInfo {
    pub blob_length: u64,
    pub rows: u32,
    pub cols: u32,
}

/// Everything published about one batch.
#[derive(Debug)]
pub struct KVBatchInfo {
    pub batch_header: BatchHeader,
    pub blob_disperse_infos: Vec<BlobDisperseInfo>,
}

/// Where the rows of one blob live: row `r` is stored in segment
/// `segment_indexes[r]` at byte `offsets[r]`.
#[derive(Clone, Debug)]
pub struct BlobLocation {
    pub segment_indexes: Vec<u32>,
    pub offsets: Vec<u32>,
}

/// Bytes taken in a segment by one row of a blob: its coefficients followed
/// by its commitment.
pub open spec fn chunk_len(info: BlobDisperseInfo) -> int {
    info.cols as int * COEFF_SIZE as int + COMMITMENT_SIZE as int
}

impl BlobLocation {
    /// Both arrays describe the same rows.
    pub open spec fn wf(&self) -> bool {
        self.segment_indexes@.len() == self.offsets@.len()
    }

    /// The `(segment, offset)` pair of each row.
    pub open spec fn chunks(&self) -> Seq<(int, int)> {
        Seq::new(
            self.segment_indexes@.len(),
            |k: int| (self.segment_indexes@[k] as int, self.offsets@[k] as int),
        )
    }
}

} // verus!
