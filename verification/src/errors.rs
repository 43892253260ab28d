//! Error kinds surfaced by the storage layer.

use vstd::prelude::*;

verus! {

/// Errors raised by pages, the buffer pool and page ranges. The table
/// consumes these and converts them into behavioural outcomes.
#[derive(Debug, Clone, Copy, PartialEq, Eq, Structural)]
pub enum DatabaseError {
    /// Page-relative offset is invalid (the cursor cell or beyond).
    OffsetOOB,
    /// Physical page is unknown to the buffer pool.
    PhysicalPageOOB,
    /// A page range's base pages have been filled to capacity.
    PageRangeFilled,
}

} // verus!
