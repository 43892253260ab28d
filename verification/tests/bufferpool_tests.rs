use cowabunga_rs::bufferpool::BufferPool;
use cowabunga_rs::bufferpool::Page;
use cowabunga_rs::bufferpool::PhysicalPageID;
use cowabunga_rs::constants::BP_NUM_FRAMES;
use cowabunga_rs::constants::CELLS_PER_PAGE;
use cowabunga_rs::errors::DatabaseError;

/// Simplest conceivable write_next_value() use.
#[test]
fn test_simple_write_next_value() {
    let mut bp = BufferPool::new();

    let tbl = bp.register_table_name(&String::from("test_tbl"));
    bp.create_table_files(tbl, 1);
    let ppid = bp.allocate_page(tbl, 0);

    let offset = bp.write_next_value(ppid, Some(42)).unwrap();
    let val_read = bp.read(ppid, offset).unwrap();

    assert_eq!(val_read, Some(42));
}

/// Force an eviction to occur using allocate, reads and writes.
#[test]
fn test_full_bufferpool() {
    let mut bp = BufferPool::new();

    let tbl = bp.register_table_name(&String::from("test_tbl"));
    bp.create_table_files(tbl, 1);

    let mut ppids: Vec<PhysicalPageID> = Vec::new();

    // Create more pages than frames (all in one column).
    for _ in 1..=BP_NUM_FRAMES + 1 {
        ppids.push(bp.allocate_page(tbl, 0));
    }

    for (i, ppid) in ppids.iter().enumerate() {
        bp.write_next_value(*ppid, Some(i as i64 + 1)).unwrap();
    }

    let expected_values: Vec<i64> = (1..=BP_NUM_FRAMES as i64 + 1).collect();
    let mut observed_values: Vec<i64> = Vec::new();

    for ppid in &ppids {
        observed_values.push(bp.read(*ppid, 0).unwrap().unwrap());
    }

    assert_eq!(expected_values, observed_values);
}

/// Reads and writes addressing the cursor cell or beyond are rejected.
#[test]
fn test_page_offset_out_of_bounds() {
    let mut page = Page::new();
    assert_eq!(
        page.write(CELLS_PER_PAGE - 1, Some(7)),
        Err(DatabaseError::OffsetOOB)
    );
    assert_eq!(page.read(CELLS_PER_PAGE - 1), Err(DatabaseError::OffsetOOB));
    assert_eq!(page.write(0, Some(7)), Ok(0));
    assert_eq!(page.read(0), Ok(Some(7)));
}

/// A page accepts exactly its usable capacity of appended values.
#[test]
fn test_page_fills_up() {
    let mut page = Page::new();
    for i in 0..CELLS_PER_PAGE - 1 {
        assert_eq!(page.write_next(Some(i as i64)), Ok(i));
    }
    assert_eq!(page.write_next(Some(0)), Err(DatabaseError::OffsetOOB));
    assert_eq!(page.read(0), Ok(Some(0)));
    assert_eq!(page.read(CELLS_PER_PAGE - 2), Ok(Some(CELLS_PER_PAGE as i64 - 2)));
}

/// A masked write keeps cells whose incoming value is the null sentinel
/// and keeps the cursor cell; applying it twice equals applying it once.
#[test]
fn test_write_page_masked() {
    let mut bp = BufferPool::new();
    let tbl = bp.register_table_name(&String::from("test_tbl"));
    bp.create_table_files(tbl, 1);
    let ppid = bp.allocate_page(tbl, 0);

    bp.write_next_value(ppid, Some(1)).unwrap();
    bp.write_next_value(ppid, Some(2)).unwrap();

    let mut incoming = Page::new();
    incoming.write(0, Some(9)).unwrap();

    bp.write_page_masked(incoming.clone(), ppid);
    assert_eq!(bp.read(ppid, 0).unwrap(), Some(9));
    assert_eq!(bp.read(ppid, 1).unwrap(), Some(2));

    // Idempotence: a second identical masked write changes nothing.
    bp.write_page_masked(incoming, ppid);
    assert_eq!(bp.read(ppid, 0).unwrap(), Some(9));
    assert_eq!(bp.read(ppid, 1).unwrap(), Some(2));

    // The cursor survived both masked writes.
    assert_eq!(bp.write_next_value(ppid, Some(3)).unwrap(), 2);
}

/// Registering the same table name twice yields the same identifier.
#[test]
fn test_register_table_name_idempotent() {
    let mut bp = BufferPool::new();
    let a = bp.register_table_name(&String::from("test_tbl"));
    let b = bp.register_table_name(&String::from("other_tbl"));
    let c = bp.register_table_name(&String::from("test_tbl"));
    assert_eq!(a, c);
    assert_ne!(a, b);
}

/// After persist, reading pages straight from the store matches the live
/// content.
#[test]
fn test_persist_flushes_dirty_frames() {
    let mut bp = BufferPool::new();
    let tbl = bp.register_table_name(&String::from("test_tbl"));
    bp.create_table_files(tbl, 2);
    let p0 = bp.allocate_page(tbl, 0);
    let p1 = bp.allocate_page(tbl, 1);
    bp.write_next_value(p0, Some(5)).unwrap();
    bp.write_next_value(p1, None).unwrap();
    bp.persist();
    assert_eq!(bp.read(p0, 0).unwrap(), Some(5));
    assert_eq!(bp.read(p1, 0).unwrap(), None);
    assert_eq!(bp.table_count(), 1);
    assert_eq!(bp.column_count(tbl), 2);
    assert_eq!(bp.page_count(tbl, 0), 1);
}
