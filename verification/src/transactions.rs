//! Transactions, the lock table over primary keys, and the admission
//! check that serializes conflicting transactions.
//!
//! A worker thread (run by the embedder) pops transactions from its queue
//! and asks the admission check to admit each one; a temporary abort sends
//! the transaction to the back of the queue with its retry counter
//! increased, a permanent abort drops it, and an admitted transaction runs
//! its queries and then releases its locks.

use vstd::prelude::*;

use crate::bufferpool::BufferPool;
use crate::table::lemma_range_single;
use crate::table::rids_of;
use crate::table::table_files_grow;
use crate::table::Table;
use crate::table::RID;

verus! {

/// Represents a query by the same name as the variant.
#[derive(Debug, Clone, Copy, PartialEq, Eq, Structural)]
pub enum QueryName {
    Insert,
    Update,
    Select,
    Sum,
    SelectVersion,
    SumVersion,
    Delete,
}

/// The kind of "effect" a query will have. Used for checking conflicts.
#[derive(PartialEq, Eq, Structural, Debug, Copy, Clone)]
pub enum QueryEffect {
    /// Insert queries.
    Create,
    /// Update queries.
    Modify,
    /// Select, select version, sum, and sum version queries.
    Read,
    /// Delete queries.
    Delete,
}

/// The kind of abort to perform after a lock acquisition attempt.
#[derive(Debug, PartialEq, Eq, Structural, Clone, Copy)]
pub enum AbortKind {
    Permanent,
    Temporary,
    Admitted,
}

/// Represents a query. Arguments are separated into different fields to
/// simplify the embedding interface.
#[derive(Debug, Clone)]
pub struct Query {
    /// Type of query.
    pub query: QueryName,

    /// Identifier of the table this query will work on.
    pub table: usize,

    /// Single-value arguments (for example a primary key or a search key
    /// index).
    pub single_arg_1: Option<i64>,
    pub single_arg_2: Option<i64>,
    pub single_arg_3: Option<i64>,
    pub single_arg_4: Option<i64>,

    /// List argument (every query has at most one).
    pub list_arg: Vec<Option<i64>>,

    /// Index of the primary key in the table this query works on.
    pub primary_key_index: usize,
}

/// Represents a transaction: a finite ordered sequence of queries plus a
/// retry counter.
#[derive(Debug, Clone)]
pub struct Transaction {
    /// The queries this transaction will run.
    pub queries: Vec<Query>,

    /// The number of times this transaction has been tried.
    pub try_count: u8,
}

impl Transaction {
    /// Create a new transaction.
    pub fn new() -> (r: Self)
        ensures
            r.queries@.len() == 0,
            r.try_count == 0,
    {
        Transaction { queries: Vec::new(), try_count: 0 }
    }

    /// Add an insert query to this transaction.
    pub fn add_insert(&mut self, table: usize, primary_key_index: usize, args: Vec<Option<i64>>)
        ensures
            final(self).queries@.len() == old(self).queries@.len() + 1,
            final(self).queries@.last().query == QueryName::Insert,
            final(self).queries@.last().table == table,
            final(self).queries@.last().list_arg == args,
            final(self).queries@.last().primary_key_index == primary_key_index,
            final(self).queries@.drop_last() == old(self).queries@,
            final(self).try_count == old(self).try_count,
    {
        self.queries.push(
            Query {
                query: QueryName::Insert,
                table,
                single_arg_1: None,
                single_arg_2: None,
                single_arg_3: None,
                single_arg_4: None,
                list_arg: args,
                primary_key_index,
            },
        );
        proof {
            assert(final(self).queries@.drop_last() =~= old(self).queries@);
        }
    }

    /// Add an update query to this transaction.
    pub fn add_update(&mut self, table: usize, primary_key_index: usize, primary_key: i64, args: Vec<Option<i64>>)
        ensures
            final(self).queries@.len() == old(self).queries@.len() + 1,
            final(self).queries@.last().query == QueryName::Update,
            final(self).queries@.last().table == table,
            final(self).queries@.last().single_arg_1 == Some(primary_key),
            final(self).queries@.last().list_arg == args,
            final(self).queries@.last().primary_key_index == primary_key_index,
            final(self).queries@.drop_last() == old(self).queries@,
            final(self).try_count == old(self).try_count,
    {
        self.queries.push(
            Query {
                query: QueryName::Update,
                table,
                single_arg_1: Some(primary_key),
                single_arg_2: None,
                single_arg_3: None,
                single_arg_4: None,
                list_arg: args,
                primary_key_index,
            },
        );
        proof {
            assert(final(self).queries@.drop_last() =~= old(self).queries@);
        }
    }

    /// Add a select query to this transaction.
    pub fn add_select(&mut self, table: usize, primary_key_index: usize, search_key: i64, search_key_index: i64, projected_columns: Vec<Option<i64>>)
        ensures
            final(self).queries@.len() == old(self).queries@.len() + 1,
            final(self).queries@.last().query == QueryName::Select,
            final(self).queries@.last().table == table,
            final(self).queries@.last().single_arg_1 == Some(search_key),
            final(self).queries@.last().single_arg_2 == Some(search_key_index),
            final(self).queries@.last().list_arg == projected_columns,
            final(self).queries@.last().primary_key_index == primary_key_index,
            final(self).queries@.drop_last() == old(self).queries@,
            final(self).try_count == old(self).try_count,
    {
        self.queries.push(
            Query {
                query: QueryName::Select,
                table,
                single_arg_1: Some(search_key),
                single_arg_2: Some(search_key_index),
                single_arg_3: None,
                single_arg_4: None,
                list_arg: projected_columns,
                primary_key_index,
            },
        );
        proof {
            assert(final(self).queries@.drop_last() =~= old(self).queries@);
        }
    }

    /// Add a sum query to this transaction.
    pub fn add_sum(&mut self, table: usize, primary_key_index: usize, start_range: i64, end_range: i64, column_index: i64)
        ensures
            final(self).queries@.len() == old(self).queries@.len() + 1,
            final(self).queries@.last().query == QueryName::Sum,
            final(self).queries@.last().table == table,
            final(self).queries@.last().single_arg_1 == Some(start_range),
            final(self).queries@.last().single_arg_2 == Some(end_range),
            final(self).queries@.last().single_arg_3 == Some(column_index),
            final(self).queries@.last().primary_key_index == primary_key_index,
            final(self).queries@.drop_last() == old(self).queries@,
            final(self).try_count == old(self).try_count,
    {
        self.queries.push(
            Query {
                query: QueryName::Sum,
                table,
                single_arg_1: Some(start_range),
                single_arg_2: Some(end_range),
                single_arg_3: Some(column_index),
                single_arg_4: None,
                list_arg: Vec::new(),
                primary_key_index,
            },
        );
        proof {
            assert(final(self).queries@.drop_last() =~= old(self).queries@);
        }
    }

    /// Add a sum version query to this transaction.
    pub fn add_sum_version(&mut self, table: usize, primary_key_index: usize, start_range: i64, end_range: i64, column_index: i64, relative_version: i64)
        ensures
            final(self).queries@.len() == old(self).queries@.len() + 1,
            final(self).queries@.last().query == QueryName::SumVersion,
            final(self).queries@.last().table == table,
            final(self).queries@.last().single_arg_1 == Some(start_range),
            final(self).queries@.last().single_arg_2 == Some(end_range),
            final(self).queries@.last().single_arg_3 == Some(column_index),
            final(self).queries@.last().single_arg_4 == Some(relative_version),
            final(self).queries@.last().primary_key_index == primary_key_index,
            final(self).queries@.drop_last() == old(self).queries@,
            final(self).try_count == old(self).try_count,
    {
        self.queries.push(
            Query {
                query: QueryName::SumVersion,
                table,
                single_arg_1: Some(start_range),
                single_arg_2: Some(end_range),
                single_arg_3: Some(column_index),
                single_arg_4: Some(relative_version),
                list_arg: Vec::new(),
                primary_key_index,
            },
        );
        proof {
            assert(final(self).queries@.drop_last() =~= old(self).queries@);
        }
    }

    /// Add a select version query to this transaction.
    pub fn add_select_version(&mut self, table: usize, primary_key_index: usize, search_key: i64, search_key_index: i64, proj: Vec<Option<i64>>, relative_version: i64)
        ensures
            final(self).queries@.len() == old(self).queries@.len() + 1,
            final(self).queries@.last().query == QueryName::SelectVersion,
            final(self).queries@.last().table == table,
            final(self).queries@.last().single_arg_1 == Some(search_key),
            final(self).queries@.last().single_arg_2 == Some(search_key_index),
            final(self).queries@.last().single_arg_3 == Some(relative_version),
            final(self).queries@.last().list_arg == proj,
            final(self).queries@.last().primary_key_index == primary_key_index,
            final(self).queries@.drop_last() == old(self).queries@,
            final(self).try_count == old(self).try_count,
    {
        self.queries.push(
            Query {
                query: QueryName::SelectVersion,
                table,
                single_arg_1: Some(search_key),
                single_arg_2: Some(search_key_index),
                single_arg_3: Some(relative_version),
                single_arg_4: None,
                list_arg: proj,
                primary_key_index,
            },
        );
        proof {
            assert(final(self).queries@.drop_last() =~= old(self).queries@);
        }
    }

    /// Add a delete query to this transaction.
    pub fn add_delete(&mut self, table: usize, primary_key_index: usize, primary_key: i64)
        ensures
            final(self).queries@.len() == old(self).queries@.len() + 1,
            final(self).queries@.last().query == QueryName::Delete,
            final(self).queries@.last().single_arg_1 == Some(primary_key),
            final(self).queries@.drop_last() == old(self).queries@,
            final(self).try_count == old(self).try_count,
    {
        self.queries.push(
            Query {
                query: QueryName::Delete,
                table,
                single_arg_1: Some(primary_key),
                single_arg_2: None,
                single_arg_3: None,
                single_arg_4: None,
                list_arg: Vec::new(),
                primary_key_index,
            },
        );
        proof {
            assert(final(self).queries@.drop_last() =~= old(self).queries@);
        }
    }
}

/// Uniquely identifies a running transaction.
pub type TransactionID = usize;

/// One locked primary key and the effect it is locked for.
#[derive(Clone, Copy)]
pub struct LockEntry {
    pub key: i64,
    pub effect: QueryEffect,
    pub table: usize,
}

/// A key is locked.
pub open spec fn locks_key(s: Seq<LockEntry>, k: i64) -> bool {
    exists|i: int| 0 <= i < s.len() && s[i].key == k
}

/// Manages transactions by keeping locks on primary keys.
pub struct TransactionManager {
    /// The primary keys of every transaction ever registered, by
    /// transaction id.
    pub transactions_in_process: Vec<Vec<i64>>,

    /// Whether each registered transaction still holds its locks.
    pub active: Vec<bool>,

    /// Next available transaction ID.
    pub next_transaction_id: TransactionID,

    /// All the primary keys currently locked, with their effects.
    pub pkeys_in_process: Vec<LockEntry>,
}

impl TransactionManager {
    /// The lock table is consistent: ids are dense, every active
    /// transaction's keys are locked, and no two active transactions
    /// share a key.
    pub open spec fn wf(self) -> bool {
        &&& self.transactions_in_process@.len() == self.next_transaction_id
        &&& self.active@.len() == self.next_transaction_id
        &&& forall|id: int, j: int|
            0 <= id < self.next_transaction_id && self.active@[id] && 0 <= j
                < self.transactions_in_process@[id]@.len() ==> locks_key(
                self.pkeys_in_process@,
                #[trigger] self.transactions_in_process@[id]@[j],
            )
        &&& forall|id1: int, j1: int, id2: int, j2: int|
            0 <= id1 < self.next_transaction_id && 0 <= id2 < self.next_transaction_id && id1
                != id2 && self.active@[id1] && self.active@[id2] && 0 <= j1
                < self.transactions_in_process@[id1]@.len() && 0 <= j2
                < self.transactions_in_process@[id2]@.len()
                ==> #[trigger] self.transactions_in_process@[id1]@[j1]
                != #[trigger] self.transactions_in_process@[id2]@[j2]
    }

    /// Creates a new transaction manager.
    pub fn new() -> (r: Self)
        ensures
            r.wf(),
            r.next_transaction_id == 0,
            r.pkeys_in_process@.len() == 0,
    {
        TransactionManager {
            transactions_in_process: Vec::new(),
            active: Vec::new(),
            next_transaction_id: 0,
            pkeys_in_process: Vec::new(),
        }
    }

    /// A primary key is currently locked by a running transaction.
    pub fn is_locked(&self, key: i64) -> (r: bool)
        ensures
            r == locks_key(self.pkeys_in_process@, key),
    {
        let mut i: usize = 0;
        while i < self.pkeys_in_process.len()
            invariant
                i <= self.pkeys_in_process@.len(),
                forall|j: int| 0 <= j < i ==> self.pkeys_in_process@[j].key != key,
            decreases self.pkeys_in_process@.len() - i,
        {
            if self.pkeys_in_process[i].key == key {
                return true;
            }
            i = i + 1;
        }
        proof {
            if locks_key(self.pkeys_in_process@, key) {
                let w = choose|w: int|
                    0 <= w < self.pkeys_in_process@.len() && self.pkeys_in_process@[w].key == key;
            }
        }
        false
    }

    /// Install one lock entry into the lock table. Callers lock a key
    /// before registering the transaction that owns it, as the admission
    /// check does.
    pub fn install_lock(&mut self, entry: LockEntry)
        requires
            old(self).wf(),
        ensures
            final(self).wf(),
            final(self).transactions_in_process == old(self).transactions_in_process,
            final(self).active == old(self).active,
            final(self).next_transaction_id == old(self).next_transaction_id,
            forall|k: i64| locks_key(final(self).pkeys_in_process@, k) <==> locks_key(
                old(self).pkeys_in_process@,
                k,
            ) || k == entry.key,
    {
        let ghost pre = *self;
        self.pkeys_in_process.push(entry);
        proof {
            assert forall|k: i64|
                locks_key(self.pkeys_in_process@, k) <==> locks_key(pre.pkeys_in_process@, k) || k
                    == entry.key by {
                if locks_key(self.pkeys_in_process@, k) {
                    let w = choose|w: int|
                        0 <= w < self.pkeys_in_process@.len() && self.pkeys_in_process@[w].key
                            == k;
                    if w < pre.pkeys_in_process@.len() {
                        assert(locks_key(pre.pkeys_in_process@, k));
                    }
                }
                if locks_key(pre.pkeys_in_process@, k) {
                    let w = choose|w: int|
                        0 <= w < pre.pkeys_in_process@.len() && pre.pkeys_in_process@[w].key == k;
                    assert(self.pkeys_in_process@[w].key == k);
                }
                if k == entry.key {
                    assert(self.pkeys_in_process@.last().key == k);
                }
            }
            assert forall|id: int, j: int|
                0 <= id < self.next_transaction_id && self.active@[id] && 0 <= j
                    < self.transactions_in_process@[id]@.len() implies locks_key(
                self.pkeys_in_process@,
                #[trigger] self.transactions_in_process@[id]@[j],
            ) by {
                assert(locks_key(
                    pre.pkeys_in_process@,
                    pre.transactions_in_process@[id]@[j],
                ));
            }
        }
    }

    /// Registers a transaction with a set of primary keys, returning its
    /// unique identifier. The lock table is not modified: the caller has
    /// already locked each key, and no other active transaction may hold
    /// any of them.
    pub fn register_transaction_with(&mut self, pkeys: Vec<i64>) -> (r: TransactionID)
        requires
            old(self).wf(),
            old(self).next_transaction_id < usize::MAX,
            forall|j: int| 0 <= j < pkeys@.len() ==> locks_key(
                old(self).pkeys_in_process@,
                #[trigger] pkeys@[j],
            ),
            forall|id: int, j1: int, j2: int|
                0 <= id < old(self).next_transaction_id && old(self).active@[id] && 0 <= j1 < old(
                    self,
                ).transactions_in_process@[id]@.len() && 0 <= j2 < pkeys@.len()
                    ==> #[trigger] old(self).transactions_in_process@[id]@[j1]
                    != #[trigger] pkeys@[j2],
        ensures
            final(self).wf(),
            r == old(self).next_transaction_id,
            final(self).next_transaction_id == old(self).next_transaction_id + 1,
            final(self).active@ == old(self).active@.push(true),
            final(self).transactions_in_process@ == old(self).transactions_in_process@.push(
                pkeys,
            ),
            final(self).pkeys_in_process == old(self).pkeys_in_process,
    {
        let ghost pre = *self;
        let id = self.next_transaction_id;
        let ghost pk = pkeys@;
        self.transactions_in_process.push(pkeys);
        self.active.push(true);
        self.next_transaction_id = self.next_transaction_id + 1;
        proof {
            assert forall|id1: int, j1: int|
                0 <= id1 < self.next_transaction_id && self.active@[id1] && 0 <= j1
                    < self.transactions_in_process@[id1]@.len() implies locks_key(
                self.pkeys_in_process@,
                #[trigger] self.transactions_in_process@[id1]@[j1],
            ) by {
                if id1 < pre.next_transaction_id {
                    assert(self.transactions_in_process@[id1] == pre.transactions_in_process@[
                        id1
                    ]);
                    assert(self.active@[id1] == pre.active@[id1]);
                    assert(locks_key(
                        pre.pkeys_in_process@,
                        pre.transactions_in_process@[id1]@[j1],
                    ));
                } else {
                    assert(self.transactions_in_process@[id1]@ == pk);
                    assert(locks_key(pre.pkeys_in_process@, pk[j1]));
                }
            }
            assert forall|id1: int, j1: int, id2: int, j2: int|
                0 <= id1 < self.next_transaction_id && 0 <= id2 < self.next_transaction_id && id1
                    != id2 && self.active@[id1] && self.active@[id2] && 0 <= j1
                    < self.transactions_in_process@[id1]@.len() && 0 <= j2
                    < self.transactions_in_process@[id2]@.len()
                    implies #[trigger] self.transactions_in_process@[id1]@[j1]
                != #[trigger] self.transactions_in_process@[id2]@[j2] by {
                if id1 < pre.next_transaction_id && id2 < pre.next_transaction_id {
                } else {
                    let other_id = if id1 < pre.next_transaction_id {
                        id1
                    } else {
                        id2
                    };
                    let oj = if id1 < pre.next_transaction_id {
                        j1
                    } else {
                        j2
                    };
                    let fj = if id1 < pre.next_transaction_id {
                        j2
                    } else {
                        j1
                    };
                    assert(pre.transactions_in_process@[other_id]@[oj] != pk[fj]);
                }
            }
        }
        id
    }

    /// Releases all the locks held by a transaction.
    pub fn release_transaction(&mut self, transaction_id: TransactionID)
        requires
            old(self).wf(),
            transaction_id < old(self).next_transaction_id,
            old(self).active@[transaction_id as int],
        ensures
            final(self).wf(),
            final(self).next_transaction_id == old(self).next_transaction_id,
            final(self).transactions_in_process == old(self).transactions_in_process,
            !final(self).active@[transaction_id as int],
            forall|id: int|
                0 <= id < old(self).next_transaction_id && id != transaction_id ==> final(self).active@[id] == old(self).active@[id],
            forall|k: i64|
                !(exists|j: int|
                    0 <= j < old(self).transactions_in_process@[transaction_id as int]@.len()
                        && old(self).transactions_in_process@[transaction_id as int]@[j] == k)
                    ==> (locks_key(final(self).pkeys_in_process@, k) <==> locks_key(
                    old(self).pkeys_in_process@,
                    k,
                )),
            forall|j: int|
                0 <= j < old(self).transactions_in_process@[transaction_id as int]@.len()
                    ==> !locks_key(
                    final(self).pkeys_in_process@,
                    #[trigger] old(self).transactions_in_process@[transaction_id as int]@[j],
                ),
    {
        let ghost pre = *self;
        let n = self.transactions_in_process[transaction_id].len();
        let mut j: usize = 0;
        while j < n
            invariant
                pre.wf(),
                transaction_id < pre.next_transaction_id,
                n == pre.transactions_in_process@[transaction_id as int]@.len(),
                j <= n,
                self.transactions_in_process == pre.transactions_in_process,
                self.active == pre.active,
                self.next_transaction_id == pre.next_transaction_id,
                forall|k: i64| locks_key(self.pkeys_in_process@, k) ==> locks_key(
                    pre.pkeys_in_process@,
                    k,
                ),
                forall|k: i64|
                    !(exists|w: int|
                        0 <= w < n && pre.transactions_in_process@[transaction_id as int]@[w]
                            == k) ==> (locks_key(self.pkeys_in_process@, k) <==> locks_key(
                        pre.pkeys_in_process@,
                        k,
                    )),
                forall|w: int| 0 <= w < j ==> !locks_key(
                    self.pkeys_in_process@,
                    #[trigger] pre.transactions_in_process@[transaction_id as int]@[w],
                ),
            decreases n - j,
        {
            let key = self.transactions_in_process[transaction_id][j];
            self.remove_lock(key);
            proof {
                assert(exists|w: int|
                    0 <= w < n && pre.transactions_in_process@[transaction_id as int]@[w] == key)
                    by {
                    assert(pre.transactions_in_process@[transaction_id as int]@[j as int] == key);
                }
            }
            j = j + 1;
        }
        self.active.set(transaction_id, false);
        proof {
            let post = *self;
            assert forall|id1: int, jj: int|
                0 <= id1 < post.next_transaction_id && post.active@[id1] && 0 <= jj
                    < post.transactions_in_process@[id1]@.len() implies locks_key(
                post.pkeys_in_process@,
                #[trigger] post.transactions_in_process@[id1]@[jj],
            ) by {
                assert(id1 != transaction_id);
                let k = post.transactions_in_process@[id1]@[jj];
                assert(locks_key(pre.pkeys_in_process@, k));
                assert(!(exists|w: int|
                    0 <= w < n && pre.transactions_in_process@[transaction_id as int]@[w] == k))
                    by {
                    if exists|w: int|
                        0 <= w < n && pre.transactions_in_process@[transaction_id as int]@[w]
                            == k {
                        let w = choose|w: int|
                            0 <= w < n && pre.transactions_in_process@[transaction_id as int]@[w]
                                == k;
                        assert(pre.transactions_in_process@[transaction_id as int]@[w]
                            == pre.transactions_in_process@[id1]@[jj]);
                        assert(false);
                    }
                }
            }
        }
    }

    /// Remove every lock entry for one key.
    fn remove_lock(&mut self, key: i64)
        ensures
            final(self).transactions_in_process == old(self).transactions_in_process,
            final(self).active == old(self).active,
            final(self).next_transaction_id == old(self).next_transaction_id,
            !locks_key(final(self).pkeys_in_process@, key),
            forall|k: i64| k != key ==> (locks_key(final(self).pkeys_in_process@, k) <==> locks_key(
                old(self).pkeys_in_process@,
                k,
            )),
            forall|k: i64| locks_key(final(self).pkeys_in_process@, k) ==> locks_key(
                old(self).pkeys_in_process@,
                k,
            ),
    {
        let ghost pre = self.pkeys_in_process@;
        let mut kept: Vec<LockEntry> = Vec::new();
        let mut i: usize = 0;
        while i < self.pkeys_in_process.len()
            invariant
                i <= pre.len(),
                self.pkeys_in_process@ == pre,
                forall|j: int| 0 <= j < kept@.len() ==> (#[trigger] kept@[j]).key != key,
                forall|j: int|
                    0 <= j < kept@.len() ==> exists|w: int| 0 <= w < i && pre[w]
                        == #[trigger] kept@[j],
                forall|w: int| 0 <= w < i && pre[w].key != key ==> kept@.contains(#[trigger] pre[w]),
            decreases pre.len() - i,
        {
            let ghost kept0 = kept@;
            if self.pkeys_in_process[i].key != key {
                kept.push(self.pkeys_in_process[i]);
                proof {
                    assert(kept@.last() == pre[i as int]);
                    assert forall|j: int|
                        0 <= j < kept@.len() implies exists|w: int|
                        0 <= w < i + 1 && pre[w] == #[trigger] kept@[j] by {
                        if j == kept@.len() - 1 {
                            assert(pre[i as int] == kept@[j]);
                        } else {
                            assert(kept@[j] == kept0[j]);
                        }
                    }
                }
            }
            proof {
                assert forall|w: int|
                    0 <= w < i + 1 && pre[w].key != key implies kept@.contains(
                    #[trigger] pre[w],
                ) by {
                    if w < i {
                        assert(kept0.contains(pre[w]));
                        let idx = choose|idx: int| 0 <= idx < kept0.len() && kept0[idx] == pre[w];
                        assert(kept@[idx] == pre[w]);
                    } else {
                        if pre[i as int].key != key {
                            assert(kept@.last() == pre[w]);
                        }
                    }
                }
            }
            i = i + 1;
        }
        self.pkeys_in_process = kept;
        proof {
            assert forall|k: i64|
                k != key implies (locks_key(self.pkeys_in_process@, k) <==> locks_key(
                pre,
                k,
            )) by {
                if locks_key(self.pkeys_in_process@, k) {
                    let w = choose|w: int|
                        0 <= w < self.pkeys_in_process@.len() && self.pkeys_in_process@[w].key
                            == k;
                    let w2 = choose|w2: int|
                        0 <= w2 < pre.len() && pre[w2] == self.pkeys_in_process@[w];
                }
                if locks_key(pre, k) {
                    let w = choose|w: int| 0 <= w < pre.len() && pre[w].key == k;
                    assert(self.pkeys_in_process@.contains(pre[w]));
                    let w2 = choose|w2: int|
                        0 <= w2 < self.pkeys_in_process@.len() && self.pkeys_in_process@[w2]
                            == pre[w];
                }
            }
            assert forall|k: i64|
                locks_key(self.pkeys_in_process@, k) implies locks_key(pre, k) by {
                let w = choose|w: int|
                    0 <= w < self.pkeys_in_process@.len() && self.pkeys_in_process@[w].key == k;
                let w2 = choose|w2: int|
                    0 <= w2 < pre.len() && pre[w2] == self.pkeys_in_process@[w];
            }
            assert(!locks_key(self.pkeys_in_process@, key)) by {
                if locks_key(self.pkeys_in_process@, key) {
                    let w = choose|w: int|
                        0 <= w < self.pkeys_in_process@.len() && self.pkeys_in_process@[w].key
                            == key;
                }
            }
        }
    }

    /// No two active transactions hold a lock on the same primary key: a
    /// key held by one active transaction appears in no other active
    /// transaction's key set.
    pub proof fn lemma_locks_exclusive(self, id1: int, id2: int)
        requires
            self.wf(),
            0 <= id1 < self.next_transaction_id,
            0 <= id2 < self.next_transaction_id,
            id1 != id2,
            self.active@[id1],
            self.active@[id2],
        ensures
            forall|j1: int, j2: int|
                0 <= j1 < self.transactions_in_process@[id1]@.len() && 0 <= j2
                    < self.transactions_in_process@[id2]@.len()
                    ==> #[trigger] self.transactions_in_process@[id1]@[j1]
                    != #[trigger] self.transactions_in_process@[id2]@[j2],
    {
    }
}

/// The arguments of every query of a transaction name real tables and
/// columns and carry the values their kind requires.
pub open spec fn queries_admissible(tables: Seq<Table>, qs: Seq<Query>) -> bool {
    forall|i: int| 0 <= i < qs.len() ==> {
        let q = #[trigger] qs[i];
        &&& q.table < tables.len()
        &&& q.primary_key_index < tables[q.table as int].num_columns
        &&& (q.query == QueryName::Insert ==> q.primary_key_index < q.list_arg@.len()
            && q.list_arg@[q.primary_key_index as int] is Some)
        &&& ((q.query == QueryName::Update || q.query == QueryName::Delete)
            ==> q.single_arg_1 is Some)
        &&& (q.query == QueryName::Update ==> q.primary_key_index < q.list_arg@.len())
    }
}

/// The position of the first entry for a key, or a negative value when
/// the key has no entry.
pub open spec fn first_key_idx(s: Seq<LockEntry>, key: i64) -> int
    decreases s.len(),
{
    if s.len() == 0 {
        -1
    } else if s[0].key == key {
        0
    } else {
        let r = first_key_idx(s.drop_first(), key);
        if r < 0 {
            -1
        } else {
            r + 1
        }
    }
}

/// The entry recorded for a key: the first entry carrying it.
pub open spec fn local_get(s: Seq<LockEntry>, key: i64) -> Option<LockEntry> {
    if first_key_idx(s, key) >= 0 {
        Some(s[first_key_idx(s, key)])
    } else {
        None
    }
}

/// Record an effect for a key: replace the first entry for the key, or
/// append a new one.
pub open spec fn local_put_spec(s: Seq<LockEntry>, key: i64, effect: QueryEffect, table: usize) -> Seq<LockEntry> {
    if first_key_idx(s, key) >= 0 {
        s.update(first_key_idx(s, key), LockEntry { key, effect, table })
    } else {
        s.push(LockEntry { key, effect, table })
    }
}

/// The first-entry position is the least position carrying the key, and
/// exists exactly when some entry carries it.
pub proof fn lemma_first_key_idx(s: Seq<LockEntry>, key: i64)
    ensures
        locks_key(s, key) <==> first_key_idx(s, key) >= 0,
        first_key_idx(s, key) >= 0 ==> first_key_idx(s, key) < s.len() && s[first_key_idx(
            s,
            key,
        )].key == key && (forall|j: int| 0 <= j < first_key_idx(s, key) ==> (#[trigger] s[j]).key
            != key),
    decreases s.len(),
{
    if s.len() > 0 {
        lemma_first_key_idx(s.drop_first(), key);
        if s[0].key != key {
            assert(forall|j: int| 0 <= j < s.drop_first().len() ==> #[trigger] s.drop_first()[j]
                == s[j + 1]);
            if locks_key(s, key) {
                let w = choose|w: int| 0 <= w < s.len() && s[w].key == key;
                assert(s.drop_first()[w - 1].key == key);
                assert(locks_key(s.drop_first(), key));
            }
            if locks_key(s.drop_first(), key) {
                let w = choose|w: int|
                    0 <= w < s.drop_first().len() && s.drop_first()[w].key == key;
                assert(s[w + 1].key == key);
            }
            let r = first_key_idx(s.drop_first(), key);
            if r >= 0 {
                assert(first_key_idx(s, key) == r + 1);
                assert(s[r + 1] == s.drop_first()[r]);
                assert forall|j: int|
                    0 <= j < first_key_idx(s, key) implies (#[trigger] s[j]).key != key by {
                    if j > 0 {
                        assert(s.drop_first()[j - 1].key != key);
                    }
                }
            }
        }
    } else {
        if locks_key(s, key) {
            let w = choose|w: int| 0 <= w < s.len() && s[w].key == key;
        }
    }
}

/// Look up the effect a transaction has planned for a key in its local
/// compatibility map. Returns the position of the entry, if any.
fn local_find(local: &Vec<LockEntry>, key: i64) -> (r: Option<usize>)
    ensures
        match r {
            Some(i) => i as int == first_key_idx(local@, key) && i < local@.len() && local@[
                i as int
            ].key == key,
            None => !locks_key(local@, key) && first_key_idx(local@, key) < 0,
        },
{
    proof {
        lemma_first_key_idx(local@, key);
    }
    let mut i: usize = 0;
    while i < local.len()
        invariant
            i <= local@.len(),
            forall|j: int| 0 <= j < i ==> local@[j].key != key,
            locks_key(local@, key) <==> first_key_idx(local@, key) >= 0,
            first_key_idx(local@, key) >= 0 ==> first_key_idx(local@, key) < local@.len()
                && local@[first_key_idx(local@, key)].key == key && (forall|j: int|
                0 <= j < first_key_idx(local@, key) ==> (#[trigger] local@[j]).key != key),
        decreases local@.len() - i,
    {
        if local[i].key == key {
            proof {
                if first_key_idx(local@, key) < i {
                    assert(local@[first_key_idx(local@, key)].key != key);
                }
                if first_key_idx(local@, key) > i {
                    assert(local@[i as int].key != key);
                }
            }
            return Some(i);
        }
        i = i + 1;
    }
    proof {
        if locks_key(local@, key) {
            let w = choose|w: int| 0 <= w < local@.len() && local@[w].key == key;
        }
    }
    None
}

/// Record an effect for a key in a transaction's local compatibility map,
/// replacing any earlier entry for the same key.
fn local_put(local: &mut Vec<LockEntry>, key: i64, effect: QueryEffect, table: usize)
    ensures
        final(local)@ == local_put_spec(old(local)@, key, effect, table),
        locks_key(final(local)@, key),
        forall|k: i64| k != key ==> (locks_key(final(local)@, k) <==> locks_key(old(local)@, k)),
        forall|k: i64| locks_key(old(local)@, k) ==> locks_key(final(local)@, k),
{
    let ghost pre = local@;
    let found = local_find(local, key);
    match found {
        Some(i) => {
            local.set(i, LockEntry { key, effect, table });
            proof {
                assert forall|k: i64|
                    k != key implies (locks_key(local@, k) <==> locks_key(pre, k)) by {
                    if locks_key(local@, k) {
                        let w = choose|w: int| 0 <= w < local@.len() && local@[w].key == k;
                        assert(pre[w].key == k);
                    }
                    if locks_key(pre, k) {
                        let w = choose|w: int| 0 <= w < pre.len() && pre[w].key == k;
                        assert(local@[w].key == k);
                    }
                }
                assert forall|k: i64| locks_key(pre, k) implies locks_key(local@, k) by {
                    let w = choose|w: int| 0 <= w < pre.len() && pre[w].key == k;
                    if w == i {
                        assert(local@[i as int].key == key);
                    } else {
                        assert(local@[w].key == k);
                    }
                }
                assert(local@[found.unwrap() as int].key == key);
            }
        },
        None => {
            local.push(LockEntry { key, effect, table });
            proof {
                assert(local@.last().key == key);
                assert forall|k: i64|
                    k != key implies (locks_key(local@, k) <==> locks_key(pre, k)) by {
                    if locks_key(local@, k) {
                        let w = choose|w: int| 0 <= w < local@.len() && local@[w].key == k;
                        assert(w < pre.len());
                        assert(pre[w].key == k);
                    }
                    if locks_key(pre, k) {
                        let w = choose|w: int| 0 <= w < pre.len() && pre[w].key == k;
                        assert(local@[w].key == k);
                    }
                }
                assert forall|k: i64| locks_key(pre, k) implies locks_key(local@, k) by {
                    let w = choose|w: int| 0 <= w < pre.len() && pre[w].key == k;
                    assert(local@[w].key == k);
                }
            }
        },
    }
}


/// The number of records the addressed table's index holds under a key,
/// in the column the query searches.
pub open spec fn key_count(tables: Seq<Table>, q: Query, k: i64) -> nat {
    rids_of(tables[q.table as int].indexer.col(q.primary_key_index as int), k).len()
}

/// The admission decision for one query, per the scheduler's rules: an
/// insert must not recreate a key this transaction created (permanent) or
/// a key that is locked or already in the table (temporary); an update
/// must find its key locally or in the table, unlocked, and its new key
/// must pass the insert checks; a delete must find its key, not deleted
/// by this very transaction, and unlocked; reads are always compatible.
/// Returns the decision and the updated local compatibility map.
pub open spec fn admit_step(tables: Seq<Table>, locks: Seq<LockEntry>, q: Query, local: Seq<LockEntry>) -> (AbortKind, Seq<LockEntry>) {
    if q.query == QueryName::Insert {
        let pk = q.list_arg@[q.primary_key_index as int].unwrap();
        let ge = local_get(local, pk);
        if ge is Some && !(ge.unwrap().effect == QueryEffect::Delete) && ge.unwrap().table
            == q.table {
            (AbortKind::Permanent, local)
        } else if locks_key(locks, pk) {
            (AbortKind::Temporary, local)
        } else if key_count(tables, q, pk) > 0 {
            (AbortKind::Temporary, local)
        } else {
            (AbortKind::Admitted, local_put_spec(local, pk, QueryEffect::Create, q.table))
        }
    } else if q.query == QueryName::Update {
        let ok = q.single_arg_1.unwrap();
        let nk = q.list_arg@[q.primary_key_index as int];
        let ge = local_get(local, ok);
        if ge is Some && ge.unwrap().effect == QueryEffect::Delete && ge.unwrap().table
            == q.table {
            (AbortKind::Permanent, local)
        } else if ge is None && key_count(tables, q, ok) == 0 {
            (AbortKind::Temporary, local)
        } else if locks_key(locks, ok) {
            (AbortKind::Temporary, local)
        } else if nk is Some && ({
            let g2 = local_get(local, nk.unwrap());
            g2 is Some && !(g2.unwrap().effect == QueryEffect::Delete) && g2.unwrap().table
                == q.table
        }) {
            (AbortKind::Permanent, local)
        } else if nk is Some && locks_key(locks, nk.unwrap()) {
            (AbortKind::Temporary, local)
        } else if nk is Some && key_count(tables, q, nk.unwrap()) > 0 {
            (AbortKind::Temporary, local)
        } else {
            let l1 = if nk is Some {
                local_put_spec(local, nk.unwrap(), QueryEffect::Create, q.table)
            } else {
                local
            };
            (AbortKind::Admitted, local_put_spec(l1, ok, QueryEffect::Modify, q.table))
        }
    } else if q.query == QueryName::Delete {
        let pk = q.single_arg_1.unwrap();
        let ge = local_get(local, pk);
        if ge is Some && ge.unwrap().effect == QueryEffect::Delete && ge.unwrap().table
            == q.table {
            (AbortKind::Permanent, local)
        } else if ge is None && key_count(tables, q, pk) == 0 {
            (AbortKind::Temporary, local)
        } else if locks_key(locks, pk) {
            (AbortKind::Temporary, local)
        } else {
            (AbortKind::Admitted, local_put_spec(local, pk, QueryEffect::Delete, q.table))
        }
    } else {
        (AbortKind::Admitted, local)
    }
}

/// The admission decision for a suffix of a transaction's queries: the
/// first aborting query decides, and the local compatibility map grows
/// query by query.
pub open spec fn admit_from(tables: Seq<Table>, locks: Seq<LockEntry>, qs: Seq<Query>, i: int, local: Seq<LockEntry>) -> (AbortKind, Seq<LockEntry>)
    decreases qs.len() - i when 0 <= i <= qs.len()
{
    if i >= qs.len() {
        (AbortKind::Admitted, local)
    } else {
        let step = admit_step(tables, locks, qs[i], local);
        if !(step.0 == AbortKind::Admitted) {
            step
        } else {
            admit_from(tables, locks, qs, i + 1, step.1)
        }
    }
}

/// The admission decision for a whole transaction against the given
/// tables and lock table.
pub open spec fn admission_outcome(tables: Seq<Table>, locks: Seq<LockEntry>, qs: Seq<Query>) -> (AbortKind, Seq<LockEntry>) {
    admit_from(tables, locks, qs, 0, Seq::empty())
}

/// Confirm that a transaction is compatible with every currently running
/// transaction and with the state of the tables, per query: an insert
/// must not recreate a primary key that this transaction or the tables
/// already carry; an update or delete must find its key, locally or in
/// the tables, not deleted and not locked by another transaction; reads
/// are admitted without locks. On success every touched key is installed
/// in the lock table and the transaction is registered.
pub fn confirm_transaction_compatability(tables: &Vec<Table>, transaction_mgr: &mut TransactionManager, transaction: &Transaction) -> (r: (AbortKind, TransactionID))
    requires
        old(transaction_mgr).wf(),
        old(transaction_mgr).next_transaction_id < usize::MAX,
        queries_admissible(tables@, transaction.queries@),
        forall|t: int| 0 <= t < tables@.len() ==> (#[trigger] tables@[t]).indexer.wf()
            && tables@[t].indexer.b_trees@.len() == tables@[t].num_columns,
    ensures
        final(transaction_mgr).wf(),
        r.0 == admission_outcome(
            tables@,
            old(transaction_mgr).pkeys_in_process@,
            transaction.queries@,
        ).0,
        r.0 != AbortKind::Admitted ==> *final(transaction_mgr) == *old(transaction_mgr),
        r.0 == AbortKind::Admitted ==> {
            &&& r.1 == old(transaction_mgr).next_transaction_id
            &&& final(transaction_mgr).next_transaction_id == old(
                transaction_mgr,
            ).next_transaction_id + 1
            &&& final(transaction_mgr).active@ == old(transaction_mgr).active@.push(true)
            &&& forall|j: int|
                0 <= j < admission_outcome(
                    tables@,
                    old(transaction_mgr).pkeys_in_process@,
                    transaction.queries@,
                ).1.len() ==> locks_key(
                    final(transaction_mgr).pkeys_in_process@,
                    #[trigger] admission_outcome(
                        tables@,
                        old(transaction_mgr).pkeys_in_process@,
                        transaction.queries@,
                    ).1[j].key,
                )
        },
{
    let ghost locks0 = transaction_mgr.pkeys_in_process@;
    let ghost qs = transaction.queries@;
    // Initialize the transaction-local compatibility map.
    let mut local: Vec<LockEntry> = Vec::new();

    let mut qi: usize = 0;
    while qi < transaction.queries.len()
        invariant
            transaction_mgr.wf(),
            *transaction_mgr == *old(transaction_mgr),
            transaction_mgr.next_transaction_id < usize::MAX,
            queries_admissible(tables@, transaction.queries@),
            forall|t: int| 0 <= t < tables@.len() ==> (#[trigger] tables@[t]).indexer.wf()
                && tables@[t].indexer.b_trees@.len() == tables@[t].num_columns,
            qi <= transaction.queries@.len(),
            locks0 == old(transaction_mgr).pkeys_in_process@,
            qs == transaction.queries@,
            admission_outcome(tables@, locks0, qs) == admit_from(
                tables@,
                locks0,
                qs,
                qi as int,
                local@,
            ),
            forall|j: int| 0 <= j < local@.len() ==> !locks_key(
                transaction_mgr.pkeys_in_process@,
                (#[trigger] local@[j]).key,
            ),
        decreases transaction.queries@.len() - qi,
    {
        let ghost pre_local = local@;
        let query = &transaction.queries[qi];
        proof {
            assert(transaction.queries@[qi as int] == *query);
        }
        match query.query {
            QueryName::Insert => {
                let primary_key = match query.list_arg[query.primary_key_index] {
                    Some(v) => v,
                    None => {
                        proof {
                            assert(false);
                        }
                        0
                    },
                };
                match local_find(&local, primary_key) {
                    Some(i) => {
                        proof {
                            assert(local_get(pre_local, primary_key) == Some(
                                pre_local[i as int],
                            ));
                        }
                        let e = local[i];
                        if !matches!(e.effect, QueryEffect::Delete) && e.table == query.table {
                            // The primary key is already created in this
                            // very transaction: permanent abort.
                            proof {
                                assert(admit_step(tables@, locks0, qs[qi as int], pre_local).0
                                    == AbortKind::Permanent);
                            }
                            return (AbortKind::Permanent, 0);
                        }
                    },
                    None => {},
                }
                if transaction_mgr.is_locked(primary_key) {
                    // Another running transaction holds this key.
                    proof {
                        assert(admit_step(tables@, locks0, qs[qi as int], pre_local).0
                            == AbortKind::Temporary);
                    }
                    return (AbortKind::Temporary, 0);
                }
                let matched = tables[query.table].locate_range(
                    primary_key,
                    primary_key,
                    query.primary_key_index,
                );
                proof {
                    lemma_range_single(
                        tables@[query.table as int].indexer.col(
                            query.primary_key_index as int,
                        ),
                        primary_key,
                    );
                    assert(key_count(tables@, qs[qi as int], primary_key) == matched@.len());
                }
                if matched.len() > 0 {
                    // The key exists in the table; it may be deleted
                    // later, so retry.
                    proof {
                        assert(admit_step(tables@, locks0, qs[qi as int], pre_local).0
                            == AbortKind::Temporary);
                    }
                    return (AbortKind::Temporary, 0);
                }
                local_put(&mut local, primary_key, QueryEffect::Create, query.table);
                proof {
                    assert(admit_step(tables@, locks0, qs[qi as int], pre_local) == (
                    AbortKind::Admitted,
                    local@,
                    ));
                }
            },
            QueryName::Update => {
                let old_primary_key = match query.single_arg_1 {
                    Some(v) => v,
                    None => {
                        proof {
                            assert(false);
                        }
                        0
                    },
                };
                let new_primary_key = query.list_arg[query.primary_key_index];
                match local_find(&local, old_primary_key) {
                    Some(i) => {
                        proof {
                            assert(local_get(pre_local, old_primary_key) == Some(
                                pre_local[i as int],
                            ));
                        }
                        let e = local[i];
                        if matches!(e.effect, QueryEffect::Delete) && e.table == query.table {
                            // The key was deleted earlier in this very
                            // transaction: permanent abort.
                            proof {
                                assert(admit_step(tables@, locks0, qs[qi as int], pre_local).0
                                    == AbortKind::Permanent);
                            }
                            return (AbortKind::Permanent, 0);
                        }
                    },
                    None => {
                        let matched = tables[query.table].locate_range(
                            old_primary_key,
                            old_primary_key,
                            query.primary_key_index,
                        );
                        proof {
                            lemma_range_single(
                                tables@[query.table as int].indexer.col(
                                    query.primary_key_index as int,
                                ),
                                old_primary_key,
                            );
                            assert(key_count(tables@, qs[qi as int], old_primary_key)
                                == matched@.len());
                        }
                        if matched.len() == 0 {
                            // The record does not exist yet; it may be
                            // inserted later, so retry.
                            proof {
                                assert(admit_step(tables@, locks0, qs[qi as int], pre_local).0
                                    == AbortKind::Temporary);
                            }
                            return (AbortKind::Temporary, 0);
                        }
                    },
                }
                if transaction_mgr.is_locked(old_primary_key) {
                    proof {
                        assert(admit_step(tables@, locks0, qs[qi as int], pre_local).0
                            == AbortKind::Temporary);
                    }
                    return (AbortKind::Temporary, 0);
                }
                match new_primary_key {
                    Some(new_pkey) => {
                        // The new key gets the insert checks.
                        match local_find(&local, new_pkey) {
                            Some(i) => {
                                proof {
                                    assert(local_get(pre_local, new_pkey) == Some(
                                        pre_local[i as int],
                                    ));
                                }
                                let e = local[i];
                                if !matches!(e.effect, QueryEffect::Delete) && e.table
                                    == query.table {
                                    proof {
                                        assert(admit_step(
                                            tables@,
                                            locks0,
                                            qs[qi as int],
                                            pre_local,
                                        ).0 == AbortKind::Permanent);
                                    }
                                    return (AbortKind::Permanent, 0);
                                }
                            },
                            None => {},
                        }
                        if transaction_mgr.is_locked(new_pkey) {
                            proof {
                                assert(admit_step(tables@, locks0, qs[qi as int], pre_local).0
                                    == AbortKind::Temporary);
                            }
                            return (AbortKind::Temporary, 0);
                        }
                        let matched = tables[query.table].locate_range(
                            new_pkey,
                            new_pkey,
                            query.primary_key_index,
                        );
                        proof {
                            lemma_range_single(
                                tables@[query.table as int].indexer.col(
                                    query.primary_key_index as int,
                                ),
                                new_pkey,
                            );
                            assert(key_count(tables@, qs[qi as int], new_pkey)
                                == matched@.len());
                        }
                        if matched.len() > 0 {
                            proof {
                                assert(admit_step(tables@, locks0, qs[qi as int], pre_local).0
                                    == AbortKind::Temporary);
                            }
                            return (AbortKind::Temporary, 0);
                        }
                        local_put(&mut local, new_pkey, QueryEffect::Create, query.table);
                    },
                    None => {},
                }
                local_put(&mut local, old_primary_key, QueryEffect::Modify, query.table);
                proof {
                    assert(admit_step(tables@, locks0, qs[qi as int], pre_local) == (
                    AbortKind::Admitted,
                    local@,
                    ));
                }
            },
            QueryName::Delete => {
                let primary_key = match query.single_arg_1 {
                    Some(v) => v,
                    None => {
                        proof {
                            assert(false);
                        }
                        0
                    },
                };
                match local_find(&local, primary_key) {
                    Some(i) => {
                        proof {
                            assert(local_get(pre_local, primary_key) == Some(
                                pre_local[i as int],
                            ));
                        }
                        let e = local[i];
                        if matches!(e.effect, QueryEffect::Delete) && e.table == query.table {
                            proof {
                                assert(admit_step(tables@, locks0, qs[qi as int], pre_local).0
                                    == AbortKind::Permanent);
                            }
                            return (AbortKind::Permanent, 0);
                        }
                    },
                    None => {
                        let matched = tables[query.table].locate_range(
                            primary_key,
                            primary_key,
                            query.primary_key_index,
                        );
                        proof {
                            lemma_range_single(
                                tables@[query.table as int].indexer.col(
                                    query.primary_key_index as int,
                                ),
                                primary_key,
                            );
                            assert(key_count(tables@, qs[qi as int], primary_key)
                                == matched@.len());
                        }
                        if matched.len() == 0 {
                            proof {
                                assert(admit_step(tables@, locks0, qs[qi as int], pre_local).0
                                    == AbortKind::Temporary);
                            }
                            return (AbortKind::Temporary, 0);
                        }
                    },
                }
                if transaction_mgr.is_locked(primary_key) {
                    proof {
                        assert(admit_step(tables@, locks0, qs[qi as int], pre_local).0
                            == AbortKind::Temporary);
                    }
                    return (AbortKind::Temporary, 0);
                }
                local_put(&mut local, primary_key, QueryEffect::Delete, query.table);
                proof {
                    assert(admit_step(tables@, locks0, qs[qi as int], pre_local) == (
                    AbortKind::Admitted,
                    local@,
                    ));
                }
            },
            QueryName::Select => {},
            QueryName::Sum => {},
            QueryName::SumVersion => {},
            QueryName::SelectVersion => {},
        }
        proof {
            assert(admit_step(tables@, locks0, qs[qi as int], pre_local) == (
            AbortKind::Admitted,
            local@,
            ));
            assert(admit_from(tables@, locks0, qs, qi as int, pre_local) == admit_from(
                tables@,
                locks0,
                qs,
                qi + 1,
                local@,
            ));
            assert forall|j: int|
                0 <= j < local@.len() implies !locks_key(
                transaction_mgr.pkeys_in_process@,
                (#[trigger] local@[j]).key,
            ) by {
                if locks_key(pre_local, local@[j].key) {
                    let w = choose|w: int|
                        0 <= w < pre_local.len() && pre_local[w].key == local@[j].key;
                    assert(!locks_key(transaction_mgr.pkeys_in_process@, pre_local[w].key));
                }
            }
        }
        qi = qi + 1;
    }

    // Lock every key this transaction will touch...
    let ghost mgr0 = *transaction_mgr;
    let mut pkeys: Vec<i64> = Vec::new();
    let mut i: usize = 0;
    while i < local.len()
        invariant
            transaction_mgr.wf(),
            transaction_mgr.transactions_in_process == mgr0.transactions_in_process,
            transaction_mgr.active == mgr0.active,
            transaction_mgr.next_transaction_id == mgr0.next_transaction_id,
            mgr0.wf(),
            mgr0.next_transaction_id < usize::MAX,
            i <= local@.len(),
            pkeys@.len() == i,
            forall|j: int| 0 <= j < i ==> pkeys@[j] == local@[j].key,
            forall|j: int| 0 <= j < local@.len() ==> !locks_key(
                mgr0.pkeys_in_process@,
                (#[trigger] local@[j]).key,
            ),
            forall|k: i64| locks_key(transaction_mgr.pkeys_in_process@, k) <==> locks_key(
                mgr0.pkeys_in_process@,
                k,
            ) || (exists|j: int| 0 <= j < i && local@[j].key == k),
        decreases local@.len() - i,
    {
        let ghost locks_before = transaction_mgr.pkeys_in_process@;
        pkeys.push(local[i].key);
        transaction_mgr.install_lock(local[i]);
        proof {
            assert forall|k: i64|
                locks_key(transaction_mgr.pkeys_in_process@, k) <==> locks_key(
                    mgr0.pkeys_in_process@,
                    k,
                ) || (exists|j: int| 0 <= j < i + 1 && local@[j].key == k) by {
                if locks_key(transaction_mgr.pkeys_in_process@, k) {
                    if !locks_key(locks_before, k) {
                        assert(local@[i as int].key == k);
                    }
                }
                if exists|j: int| 0 <= j < i + 1 && local@[j].key == k {
                    let j = choose|j: int| 0 <= j < i + 1 && local@[j].key == k;
                    if j < i {
                        assert(locks_key(locks_before, k));
                    }
                }
            }
        }
        i = i + 1;
    }
    // ... and register it. The admitted keys were not locked before this
    // call, while every active transaction's keys were, so the new
    // transaction's keys are disjoint from every active key set.
    proof {
        assert forall|j: int|
            0 <= j < pkeys@.len() implies locks_key(
            transaction_mgr.pkeys_in_process@,
            #[trigger] pkeys@[j],
        ) by {
            assert(local@[j].key == pkeys@[j]);
        }
        assert forall|id: int, j1: int, j2: int|
            0 <= id < transaction_mgr.next_transaction_id && transaction_mgr.active@[id] && 0 <= j1
                < transaction_mgr.transactions_in_process@[id]@.len() && 0 <= j2 < pkeys@.len()
                implies #[trigger] transaction_mgr.transactions_in_process@[id]@[j1]
            != #[trigger] pkeys@[j2] by {
            assert(locks_key(
                mgr0.pkeys_in_process@,
                mgr0.transactions_in_process@[id]@[j1],
            ));
            assert(pkeys@[j2] == local@[j2].key);
            assert(!locks_key(mgr0.pkeys_in_process@, local@[j2].key));
        }
    }
    proof {
        assert(admission_outcome(tables@, locks0, qs) == (AbortKind::Admitted, local@));
    }
    let id = transaction_mgr.register_transaction_with(pkeys);
    proof {
        assert forall|j: int|
            0 <= j < admission_outcome(tables@, locks0, qs).1.len() implies locks_key(
            transaction_mgr.pkeys_in_process@,
            #[trigger] admission_outcome(tables@, locks0, qs).1[j].key,
        ) by {
            assert(admission_outcome(tables@, locks0, qs).1[j] == local@[j]);
            assert(locks_key(transaction_mgr.pkeys_in_process@, pkeys@[j]));
        }
    }
    (AbortKind::Admitted, id)
}

/// Run a single query against its table. Read results are discarded; a
/// worker that needs them queries the table directly.
pub fn run_query(table: &mut Table, bp: &mut BufferPool, query: &Query)
    requires
        old(bp).wf(),
        old(table).wf(*old(bp)),
        old(table).next_rid + 2 <= 0x7fff_ffff_ffff_ffff,
        old(table).next_rid + 2 <= usize::MAX,
        query.primary_key_index < old(table).num_columns,
        query.query == QueryName::Insert ==> forall|j: int|
            0 <= j < query.list_arg@.len() ==> (#[trigger] query.list_arg@[j]) is Some,
        (query.query == QueryName::Update || query.query == QueryName::Delete)
            ==> query.single_arg_1 is Some,
        (query.query == QueryName::Select || query.query == QueryName::SelectVersion)
            ==> query.single_arg_1 is Some && (query.single_arg_2 matches Some(c) && 0 <= c < old(table).num_columns),
        (query.query == QueryName::Sum || query.query == QueryName::SumVersion) ==> (
        query.single_arg_1 is Some && query.single_arg_2 is Some && (
        query.single_arg_3 matches Some(c) && 0 <= c < old(table).num_columns)),
        query.query == QueryName::SelectVersion ==> (query.single_arg_3 matches Some(v) && v <= 0
            && v > i64::MIN),
        query.query == QueryName::SumVersion ==> (query.single_arg_4 matches Some(v) && v <= 0 && v
            > i64::MIN),
    ensures
        final(bp).wf(),
        final(table).wf(*final(bp)),
        final(bp).names() == old(bp).names(),
        table_files_grow(
            *old(bp),
            *final(bp),
            old(table).table_identifier,
            old(table).ncols_total(),
        ),
        final(table).num_columns == old(table).num_columns,
        final(table).key_column == old(table).key_column,
        final(table).table_identifier == old(table).table_identifier,
        final(table).next_rid <= old(table).next_rid + 2,
        // Reads leave the table as it stands.
        (query.query == QueryName::Select || query.query == QueryName::SelectVersion
            || query.query == QueryName::Sum || query.query == QueryName::SumVersion) ==> *final(table) == *old(table),
        // An insert behaves exactly as the table's insert of the carried
        // row.
        query.query == QueryName::Insert ==> ({
            let cols = query.list_arg@.map(|_i: int, o: Option<i64>| o.unwrap());
            let fresh = cols.len() == old(table).num_columns && old(table).key_rids(
                cols[old(table).key_column as int],
            ).len() == 0;
            &&& (!fresh ==> *final(table) == *old(table))
            &&& (fresh ==> {
                let b = old(table).next_rid as int;
                &&& final(table).next_rid == old(table).next_rid + 2
                &&& final(table).latest(b) == b + 1
                &&& (forall|c: int| 0 <= c < old(table).num_columns ==> final(table).row_cell(
                    *final(bp),
                    b + 1,
                    c,
                ) == Some(cols[c]))
                &&& final(table).key_rids(cols[old(table).key_column as int]) == seq![
                    old(table).next_rid,
                ]
            })
        }),
        // An update behaves exactly as the table's update of the carried
        // key and values.
        query.query == QueryName::Update ==> ({
            let k = query.single_arg_1.unwrap();
            let cols = query.list_arg@;
            let ok = cols.len() == old(table).num_columns && old(table).key_rids(k).len() > 0 && (
            cols[old(table).key_column as int] matches Some(nk) ==> old(table).pk_admissible(
                nk,
                old(table).key_rids(k)[0],
            ));
            &&& (!ok ==> *final(table) == *old(table))
            &&& (ok ==> {
                let b = old(table).key_rids(k)[0] as int;
                let l = old(table).rows@[b].link;
                &&& final(table).next_rid == old(table).next_rid + 1
                &&& final(table).latest(b) == old(table).next_rid
                &&& (forall|c: int| 0 <= c < old(table).num_columns ==> final(table).row_cell(
                    *final(bp),
                    old(table).next_rid as int,
                    c,
                ) == (if cols[c] is Some {
                    cols[c]
                } else {
                    old(table).row_cell(*old(bp), l, c)
                }))
                &&& (cols[old(table).key_column as int] matches Some(nk) ==> final(table).key_rids(nk) == seq![b as RID])
            })
        }),
        // A delete behaves exactly as the table's delete of the carried
        // key.
        query.query == QueryName::Delete ==> ({
            let k = query.single_arg_1.unwrap();
            &&& (old(table).key_rids(k).len() == 0 ==> *final(table) == *old(table))
            &&& (old(table).key_rids(k).len() > 0 ==> {
                let b = old(table).key_rids(k)[0];
                &&& final(table).key_rids(k).len() == 0
                &&& final(table).dead_rids@ == old(table).dead_rids@.push(b) + (if old(table).rows@[b as int].link == b {
                    Seq::<RID>::empty()
                } else {
                    old(table).chain_from(old(table).rows@[b as int].link as usize)
                })
            })
        }),
{
    match query.query {
        QueryName::Insert => {
            let mut columns: Vec<i64> = Vec::new();
            let mut j: usize = 0;
            while j < query.list_arg.len()
                invariant
                    j == columns@.len() <= query.list_arg@.len(),
                    forall|k: int| 0 <= k < query.list_arg@.len() ==> (
                    #[trigger] query.list_arg@[k]) is Some,
                    forall|k: int| 0 <= k < j ==> columns@[k] == query.list_arg@[k].unwrap(),
                decreases query.list_arg@.len() - j,
            {
                match query.list_arg[j] {
                    Some(v) => columns.push(v),
                    None => {
                        proof {
                            assert(false);
                        }
                    },
                }
                j = j + 1;
            }
            proof {
                assert(columns@ =~= query.list_arg@.map(|_i: int, o: Option<i64>| o.unwrap()));
            }
            let _ok = table.insert(bp, columns);
        },
        QueryName::Update => {
            let key = match query.single_arg_1 {
                Some(v) => v,
                None => {
                    proof {
                        assert(false);
                    }
                    0
                },
            };
            let args = copy_options(&query.list_arg);
            let _ok = table.update(bp, key, args);
        },
        QueryName::Select => {
            let proj = options_to_bits(&query.list_arg);
            let _r = table.select(
                bp,
                query.single_arg_1.unwrap_or(0),
                match query.single_arg_2 {
                    Some(c) => c as usize,
                    None => 0,
                },
                proj,
            );
        },
        QueryName::SelectVersion => {
            let proj = options_to_bits(&query.list_arg);
            let _r = table.select_version(
                bp,
                query.single_arg_1.unwrap_or(0),
                match query.single_arg_2 {
                    Some(c) => c as usize,
                    None => 0,
                },
                proj,
                match query.single_arg_3 {
                    Some(v) => v,
                    None => 0,
                },
            );
        },
        QueryName::Sum => {
            let _r = table.sum(
                bp,
                query.single_arg_1.unwrap_or(0),
                query.single_arg_2.unwrap_or(0),
                match query.single_arg_3 {
                    Some(c) => c as usize,
                    None => 0,
                },
            );
        },
        QueryName::SumVersion => {
            let _r = table.sum_version(
                bp,
                query.single_arg_1.unwrap_or(0),
                query.single_arg_2.unwrap_or(0),
                match query.single_arg_3 {
                    Some(c) => c as usize,
                    None => 0,
                },
                match query.single_arg_4 {
                    Some(v) => v,
                    None => 0,
                },
            );
        },
        QueryName::Delete => {
            let key = match query.single_arg_1 {
                Some(v) => v,
                None => {
                    proof {
                        assert(false);
                    }
                    0
                },
            };
            let _r = table.delete(bp, key);
        },
    }
}

/// A copy of a vector of optional values.
fn copy_options(v: &Vec<Option<i64>>) -> (r: Vec<Option<i64>>)
    ensures
        r@ == v@,
{
    let mut r: Vec<Option<i64>> = Vec::new();
    let mut i: usize = 0;
    while i < v.len()
        invariant
            i == r@.len() <= v@.len(),
            forall|j: int| 0 <= j < i ==> r@[j] == v@[j],
        decreases v@.len() - i,
    {
        r.push(v[i]);
        i = i + 1;
    }
    proof {
        assert(r@ =~= v@);
    }
    r
}

/// Convert an optional-value projection (as carried by a query) into a
/// projection bit vector: present non-zero values select the column.
fn options_to_bits(v: &Vec<Option<i64>>) -> (r: Vec<usize>)
    ensures
        r@.len() == v@.len(),
{
    let mut r: Vec<usize> = Vec::new();
    let mut i: usize = 0;
    while i < v.len()
        invariant
            i == r@.len() <= v@.len(),
        decreases v@.len() - i,
    {
        match v[i] {
            Some(x) => {
                if x != 0 {
                    r.push(1);
                } else {
                    r.push(0);
                }
            },
            None => {
                r.push(0);
            },
        }
        i = i + 1;
    }
    r
}

} // verus!
