//! Core storage and transaction engine of a columnar, append-only,
//! multi-version table store.
//!
//! Records live in fixed-size pages of 64-bit cells managed by a buffer
//! pool. Each table keeps base rows (the version first inserted) and tail
//! rows (one per cumulative update), linked by an indirection column.
//! An ordered index per column answers range lookups, and a transaction
//! manager admits transactions only after locking every primary key they
//! touch.

use vstd::prelude::*;

pub mod bufferpool;
pub mod constants;
pub mod errors;
pub mod helpers;
pub mod index;
pub mod persistables;
pub mod table;
pub mod transactions;

verus! {

} // verus!
