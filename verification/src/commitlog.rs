//! A log of transactions, kept in segments.

use vstd::prelude::*;

pub mod buffer;
pub mod commit;
pub mod index;
pub mod payload;
pub mod repo;
pub mod segment;

verus! {

/// Settings of a log.
#[derive(Clone, Copy, Debug)]
pub struct Options {
    /// At most one offset index entry is written per this many bytes. Must not
    /// be zero.
    pub offset_index_interval_bytes: u64,
    /// Whether an entry is only written after the segment was made durable.
    pub offset_index_require_segment_fsync: bool,
}

impl Default for Options {
    fn default() -> (r: Self)
        ensures
            r == (Options {
                offset_index_interval_bytes: 4096,
                offset_index_require_segment_fsync: false,
            }),
    {
        Options { offset_index_interval_bytes: 4096, offset_index_require_segment_fsync: false }
    }
}

} // verus!
