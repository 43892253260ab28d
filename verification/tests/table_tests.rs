use cowabunga_rs::bufferpool::BufferPool;
use cowabunga_rs::table::Table;

fn fresh_table(bp: &mut BufferPool) -> Table {
    Table::new(String::from("grades"), 5, 0, bp)
}

fn proj_all() -> Vec<usize> {
    vec![1, 1, 1, 1, 1]
}

/// Insert one record and read it back through a full projection.
#[test]
fn test_insert_then_select() {
    let mut bp = BufferPool::new();
    let mut t = fresh_table(&mut bp);
    assert!(t.insert(&mut bp, vec![1, 10, 20, 30, 40]));

    let records = t.select(&mut bp, 1, 0, proj_all());
    assert_eq!(records.len(), 1);
    assert_eq!(
        records[0].columns,
        vec![Some(1), Some(10), Some(20), Some(30), Some(40)]
    );
    assert_eq!(records[0].key, 1);
}

/// An update changes the selected row; the previous version stays
/// reachable through a relative version.
#[test]
fn test_update_then_select_versions() {
    let mut bp = BufferPool::new();
    let mut t = fresh_table(&mut bp);
    assert!(t.insert(&mut bp, vec![1, 10, 20, 30, 40]));
    assert!(t.update(&mut bp, 1, vec![None, Some(11), None, None, None]));

    let records = t.select(&mut bp, 1, 0, proj_all());
    assert_eq!(records.len(), 1);
    assert_eq!(
        records[0].columns,
        vec![Some(1), Some(11), Some(20), Some(30), Some(40)]
    );

    let old = t.select_version(&mut bp, 1, 0, proj_all(), -1);
    assert_eq!(old.len(), 1);
    assert_eq!(
        old[0].columns,
        vec![Some(1), Some(10), Some(20), Some(30), Some(40)]
    );
}

/// Two updates leave three reachable versions, summed one at a time.
#[test]
fn test_sum_versions() {
    let mut bp = BufferPool::new();
    let mut t = fresh_table(&mut bp);
    assert!(t.insert(&mut bp, vec![1, 10, 20, 30, 40]));
    assert!(t.update(&mut bp, 1, vec![None, Some(11), None, None, None]));
    assert!(t.update(&mut bp, 1, vec![None, Some(12), None, None, None]));

    assert_eq!(t.sum(&mut bp, 1, 1, 1), 12);
    assert_eq!(t.sum_version(&mut bp, 1, 1, 1, -1), 11);
    assert_eq!(t.sum_version(&mut bp, 1, 1, 1, -2), 10);
}

/// A deleted record disappears from selects and sums.
#[test]
fn test_delete() {
    let mut bp = BufferPool::new();
    let mut t = fresh_table(&mut bp);
    assert!(t.insert(&mut bp, vec![1, 0, 0, 0, 0]));
    assert!(t.insert(&mut bp, vec![2, 0, 0, 0, 0]));
    assert!(t.insert(&mut bp, vec![3, 0, 0, 0, 0]));

    t.delete(&mut bp, 2).unwrap();

    let records = t.select(&mut bp, 2, 0, proj_all());
    assert_eq!(records.len(), 0);
    assert_eq!(t.sum(&mut bp, 1, 3, 0), 4);
}

/// Deleting an absent key succeeds silently.
#[test]
fn test_delete_absent_key() {
    let mut bp = BufferPool::new();
    let mut t = fresh_table(&mut bp);
    assert!(t.insert(&mut bp, vec![1, 0, 0, 0, 0]));
    t.delete(&mut bp, 99).unwrap();
    assert_eq!(t.select(&mut bp, 1, 0, proj_all()).len(), 1);
}

/// Inserting a duplicate primary key is rejected.
#[test]
fn test_insert_duplicate_key() {
    let mut bp = BufferPool::new();
    let mut t = fresh_table(&mut bp);
    assert!(t.insert(&mut bp, vec![1, 10, 20, 30, 40]));
    assert!(!t.insert(&mut bp, vec![1, 11, 21, 31, 41]));
    let records = t.select(&mut bp, 1, 0, proj_all());
    assert_eq!(records.len(), 1);
    assert_eq!(records[0].columns[1], Some(10));
}

/// Inserts and updates with the wrong column count are rejected.
#[test]
fn test_wrong_arity_rejected() {
    let mut bp = BufferPool::new();
    let mut t = fresh_table(&mut bp);
    assert!(!t.insert(&mut bp, vec![1, 10]));
    assert!(t.insert(&mut bp, vec![1, 10, 20, 30, 40]));
    assert!(!t.update(&mut bp, 1, vec![None, Some(11)]));
}

/// Updating an absent key returns false.
#[test]
fn test_update_absent_key() {
    let mut bp = BufferPool::new();
    let mut t = fresh_table(&mut bp);
    assert!(!t.update(&mut bp, 7, vec![None, None, None, None, None]));
}

/// A primary-key update moves the record to the new key.
#[test]
fn test_update_primary_key() {
    let mut bp = BufferPool::new();
    let mut t = fresh_table(&mut bp);
    assert!(t.insert(&mut bp, vec![1, 10, 20, 30, 40]));
    assert!(t.update(&mut bp, 1, vec![Some(5), None, None, None, None]));

    assert_eq!(t.select(&mut bp, 5, 0, proj_all()).len(), 1);
    // An update whose new primary key belongs to another record is
    // rejected, keeping the key unique.
    assert!(t.insert(&mut bp, vec![9, 0, 0, 0, 0]));
    assert!(!t.update(&mut bp, 9, vec![Some(5), None, None, None, None]));
}

/// A record keeps its full row through a projection that skips columns.
#[test]
fn test_partial_projection() {
    let mut bp = BufferPool::new();
    let mut t = fresh_table(&mut bp);
    assert!(t.insert(&mut bp, vec![1, 10, 20, 30, 40]));
    let records = t.select(&mut bp, 1, 0, vec![0, 1, 0, 1, 0]);
    assert_eq!(records.len(), 1);
    assert_eq!(records[0].columns, vec![Some(10), Some(30)]);
}

/// Selecting on a non-key column finds the record too.
#[test]
fn test_select_by_other_column() {
    let mut bp = BufferPool::new();
    let mut t = fresh_table(&mut bp);
    assert!(t.insert(&mut bp, vec![1, 10, 20, 30, 40]));
    assert!(t.insert(&mut bp, vec![2, 10, 21, 31, 41]));
    let records = t.select(&mut bp, 10, 1, proj_all());
    assert_eq!(records.len(), 2);
}

/// The collected metadata mirrors the table's state.
#[test]
fn test_metadata_snapshot() {
    let mut bp = BufferPool::new();
    let mut t = fresh_table(&mut bp);
    assert!(t.insert(&mut bp, vec![1, 10, 20, 30, 40]));
    let m = t.metadata();
    assert_eq!(m.name, String::from("grades"));
    assert_eq!(m.num_columns, 5);
    assert_eq!(m.key_column, 0);
    assert_eq!(m.next_rid, 2);
    assert_eq!(m.page_directory.len(), 2);
    assert_eq!(m.page_ranges.len(), 1);
    // One base row followed by its chain-head tail row.
    assert_eq!(m.row_kinds, vec![true, false]);
    // The persisted index covers every user column.
    assert_eq!(m.indexer.b_trees.len(), 5);
    assert_eq!(m.indexer.enabled.len(), 5);
}

/// Crossing the merge threshold enqueues a request; consolidating it
/// advances the range's tail-page sequence and keeps query results.
#[test]
fn test_merge_consolidation() {
    let mut bp = BufferPool::new();
    let mut t = fresh_table(&mut bp);
    assert!(t.insert(&mut bp, vec![1, 0, 0, 0, 0]));
    // The insert itself appends one chain-head tail row; cross the
    // threshold of fifty tail inserts per range with updates.
    for i in 0..50 {
        assert!(t.update(&mut bp, 1, vec![None, Some(i), None, None, None]));
    }
    assert!(t.pending_merges.len() >= 1);
    t.process_next_merge(&mut bp);
    assert!(t.page_ranges[0].tps > 0);

    let records = t.select(&mut bp, 1, 0, proj_all());
    assert_eq!(records.len(), 1);
    assert_eq!(records[0].columns[1], Some(49));
    assert_eq!(t.sum(&mut bp, 1, 1, 1), 49);
    // Older versions survive consolidation: tails are never deallocated.
    assert_eq!(t.sum_version(&mut bp, 1, 1, 1, -1), 48);
}
