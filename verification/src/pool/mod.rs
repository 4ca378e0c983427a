//! The frame pool and the fixed structures it is composed of.

use crate::driver::FileId;
use vstd::prelude::*;

pub mod bookkeeping;
pub mod cache;
pub mod clock;
pub mod config;
pub mod control;
pub mod demand;
pub mod diagnostics;
pub mod epoch;
pub mod file_slots;
pub mod files;
pub mod frame_pages;
pub mod frames;
pub mod guarantees;
pub mod guidance;
pub mod holds;
pub mod host;
pub mod laws;
pub mod miss;
pub mod model;
pub mod model_laws;
pub mod polling;
pub mod prediction_model;
pub mod prefetch;
pub mod product_ops;
pub mod read_spans;
pub mod readahead;
pub mod reclaim;
pub mod release_ring;
pub mod residency;
pub mod retention;
pub mod retirement;
pub mod routing;
pub mod sizing;
pub mod span_model;
pub mod span_routing;
pub mod speculation;
pub mod staging;
pub mod table;
pub mod write_arena;

verus! {

/// Default frame granule in bytes.
pub const GRANULE_DEFAULT: u32 = 4096;

/// The sector floor of direct I/O: no granule may fall below it.
pub const SECTOR_BYTES: u32 = 4096;

/// Stable address of an aligned file extent: a generational file id and the
/// granule index within that file.
#[derive(Debug, Clone, Copy, PartialEq, Eq, Hash, Structural)]
pub struct PageId {
    pub file: FileId,
    pub granule_idx: u32,
}

impl PageId {
    /// Creates an extent identity from a file and granule index.
    pub fn new(file: FileId, granule_idx: u32) -> (page: Self)
        ensures
            page == (PageId { file, granule_idx }),
    {
        PageId { file, granule_idx }
    }

    /// Returns the opened file identity.
    pub fn file(self) -> (file: FileId)
        ensures
            file == self.file,
    {
        self.file
    }

    /// Returns the zero-based granule index within the file.
    pub fn granule_idx(self) -> (granule_idx: u32)
        ensures
            granule_idx == self.granule_idx,
    {
        self.granule_idx
    }
}

/// Advisory observation of one resident frame generation.
#[derive(Debug, Clone, Copy, PartialEq, Eq, Structural)]
pub struct ResidentHint {
    pub granule: u32,
    pub frame: u32,
    pub stamp: u64,
}

} // verus!
