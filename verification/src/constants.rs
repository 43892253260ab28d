//! Engine-wide configuration constants.

use vstd::prelude::*;

verus! {

/// Number of cells that can be stored in a page, cursor cell included.
pub const CELLS_PER_PAGE: usize = 512;

/// The number of (logical) base pages per page range.
pub const BASE_PAGES_PER_RANGE: usize = 16;

/// Number of metadata columns. The single metadata column is the
/// indirection column, placed after all user columns.
pub const NUM_METADATA_COLS: usize = 1;

/// Index (zero-based) of the indirection column counting from the end of
/// the columns of a logical page.
pub const INDIRECTION_REV_IDX: usize = 0;

/// Number of frames in the buffer pool.
pub const BP_NUM_FRAMES: usize = 32;

/// Number of tail inserts into one page range that triggers a merge.
pub const THRESHOLD: usize = 50;

} // verus!
