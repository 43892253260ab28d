use cowabunga_rs::bufferpool::BufferPool;
use cowabunga_rs::table::Table;
use cowabunga_rs::transactions::confirm_transaction_compatability;
use cowabunga_rs::transactions::run_query;
use cowabunga_rs::transactions::AbortKind;
use cowabunga_rs::transactions::Transaction;
use cowabunga_rs::transactions::TransactionManager;

fn fresh_table(bp: &mut BufferPool) -> Table {
    Table::new(String::from("accounts"), 5, 0, bp)
}

fn run_all(t: &mut Table, bp: &mut BufferPool, txn: &Transaction) {
    for q in &txn.queries {
        run_query(t, bp, q);
    }
}

fn proj_all() -> Vec<usize> {
    vec![1, 1, 1, 1, 1]
}

/// Two transactions updating the same key are serialized by the
/// scheduler; both commit, and the final state reflects the second
/// update.
#[test]
fn test_conflicting_updates_serialize() {
    let mut bp = BufferPool::new();
    let mut t = fresh_table(&mut bp);
    assert!(t.insert(&mut bp, vec![1, 10, 20, 30, 40]));

    let mut t1 = Transaction::new();
    t1.add_update(0, 0, 1, vec![None, Some(100), None, None, None]);
    let mut t2 = Transaction::new();
    t2.add_update(0, 0, 1, vec![None, Some(200), None, None, None]);

    let mut mgr = TransactionManager::new();
    let tables = vec![t];

    let (kind1, id1) = confirm_transaction_compatability(&tables, &mut mgr, &t1);
    assert_eq!(kind1, AbortKind::Admitted);

    // While the first transaction holds the lock, the second one must
    // wait: a temporary abort sends it to the back of the queue.
    let (kind2, _) = confirm_transaction_compatability(&tables, &mut mgr, &t2);
    assert_eq!(kind2, AbortKind::Temporary);

    let mut t = tables.into_iter().next().unwrap();
    run_all(&mut t, &mut bp, &t1);
    mgr.release_transaction(id1);

    let tables = vec![t];
    let (kind2b, id2) = confirm_transaction_compatability(&tables, &mut mgr, &t2);
    assert_eq!(kind2b, AbortKind::Admitted);
    let mut t = tables.into_iter().next().unwrap();
    run_all(&mut t, &mut bp, &t2);
    mgr.release_transaction(id2);

    let records = t.select(&mut bp, 1, 0, proj_all());
    assert_eq!(records.len(), 1);
    assert_eq!(records[0].columns[1], Some(200));
}

/// A transaction that inserts and updates a key blocks a concurrent
/// insert of the same key; the retrying insert keeps aborting once the
/// key exists and is dropped after its retries run out.
#[test]
fn test_concurrent_insert_conflict() {
    let mut bp = BufferPool::new();
    let t = fresh_table(&mut bp);

    let mut t1 = Transaction::new();
    t1.add_insert(0, 0, vec![Some(5), Some(1), Some(2), Some(3), Some(4)]);
    t1.add_update(0, 0, 5, vec![None, Some(9), None, None, None]);
    let mut t2 = Transaction::new();
    t2.add_insert(0, 0, vec![Some(5), Some(7), Some(7), Some(7), Some(7)]);

    let mut mgr = TransactionManager::new();
    let tables = vec![t];

    let (kind1, id1) = confirm_transaction_compatability(&tables, &mut mgr, &t1);
    assert_eq!(kind1, AbortKind::Admitted);

    // Key 5 is locked by the first transaction: temporary abort.
    let (kind2, _) = confirm_transaction_compatability(&tables, &mut mgr, &t2);
    assert_eq!(kind2, AbortKind::Temporary);

    let mut t = tables.into_iter().next().unwrap();
    run_all(&mut t, &mut bp, &t1);
    mgr.release_transaction(id1);

    // The lock is gone, but key 5 now exists in the table: the insert
    // keeps aborting temporarily until its ten retries run out, and the
    // worker drops it.
    let tables = vec![t];
    let mut t2 = t2;
    let mut dropped = false;
    for _ in 0..11 {
        let (kind, _) = confirm_transaction_compatability(&tables, &mut mgr, &t2);
        assert_eq!(kind, AbortKind::Temporary);
        if t2.try_count < 10 {
            t2.try_count += 1;
        } else {
            dropped = true;
            break;
        }
    }
    assert!(dropped);

    let mut t = tables.into_iter().next().unwrap();
    let records = t.select(&mut bp, 5, 0, proj_all());
    assert_eq!(records.len(), 1);
    assert_eq!(records[0].columns[1], Some(9));
}

/// A transaction deleting a key it already deleted aborts permanently.
#[test]
fn test_double_delete_permanent_abort() {
    let mut bp = BufferPool::new();
    let mut t = fresh_table(&mut bp);
    assert!(t.insert(&mut bp, vec![1, 0, 0, 0, 0]));

    let mut txn = Transaction::new();
    txn.add_delete(0, 0, 1);
    txn.add_delete(0, 0, 1);

    let mut mgr = TransactionManager::new();
    let tables = vec![t];
    let (kind, _) = confirm_transaction_compatability(&tables, &mut mgr, &txn);
    assert_eq!(kind, AbortKind::Permanent);
}

/// Reads take no locks: a select admits even while the key is locked.
#[test]
fn test_reads_take_no_locks() {
    let mut bp = BufferPool::new();
    let mut t = fresh_table(&mut bp);
    assert!(t.insert(&mut bp, vec![1, 10, 20, 30, 40]));

    let mut t1 = Transaction::new();
    t1.add_update(0, 0, 1, vec![None, Some(100), None, None, None]);
    let mut t2 = Transaction::new();
    t2.add_select(0, 0, 1, 0, vec![Some(1); 5]);

    let mut mgr = TransactionManager::new();
    let tables = vec![t];
    let (kind1, _id1) = confirm_transaction_compatability(&tables, &mut mgr, &t1);
    assert_eq!(kind1, AbortKind::Admitted);
    let (kind2, _) = confirm_transaction_compatability(&tables, &mut mgr, &t2);
    assert_eq!(kind2, AbortKind::Admitted);
}
