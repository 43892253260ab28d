//! Plain records of the metadata written to disk on close. The embedder
//! serializes these and writes the files; the shapes here are what the
//! engine itself guarantees about its own state.

use vstd::prelude::*;

use crate::bufferpool::PhysicalPageID;
use crate::table::Address;
use crate::table::Indexer;
use crate::table::RID;

verus! {

/// Contains buffer pool metadata for writing to disk.
pub struct BufferPoolPersistable {
    /// Registered table names; a table's identifier is its position.
    pub table_identifiers: Vec<String>,

    /// Next available table identifier.
    pub next_table_id: usize,
}

/// Contains column metadata for writing to disk.
pub struct ColumnPeristable {
    /// Index of the next available page (for writing) in the
    /// corresponding column file.
    pub next_page_index: usize,
}

/// Contains logical page metadata for writing to disk.
pub struct LogicalPagePersistable {
    /// Physical page IDs corresponding to each column.
    pub columns: Vec<PhysicalPageID>,
}

/// Contains page range metadata for writing to disk.
pub struct PageRangePersistable {
    /// Logical base pages.
    pub base_pages: Vec<LogicalPagePersistable>,

    /// Logical tail pages.
    pub tail_pages: Vec<LogicalPagePersistable>,

    /// Next base page index.
    pub next_base_page: usize,

    /// Tail-page sequence watermark.
    pub tps: usize,
}

/// Contains table metadata for writing to disk.
pub struct TableMetadata {
    /// Name of the table.
    pub name: String,

    /// Table identifier, granted by the buffer pool.
    pub table_identifier: usize,

    /// Number of user columns.
    pub num_columns: usize,

    /// Index of the primary key column.
    pub key_column: usize,

    /// Next available RID.
    pub next_rid: usize,

    /// Persistable page ranges.
    pub page_ranges: Vec<PageRangePersistable>,

    /// The address of every RID, in RID order.
    pub page_directory: Vec<Address>,

    /// Next available page range.
    pub next_page_range: usize,

    /// Deleted record ids awaiting deallocation.
    pub dead_rids: Vec<RID>,

    /// Whether each RID is a base row.
    pub row_kinds: Vec<bool>,

    /// The per-column ordered indexes.
    pub indexer: Indexer,
}

} // verus!
