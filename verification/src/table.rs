//! Columnar tables: logical pages, page ranges, the per-column ordered
//! index, and the table operations themselves.

use vstd::prelude::*;

use crate::bufferpool::BufferPool;
use crate::bufferpool::Offset;
use crate::bufferpool::PhysicalPageID;
use crate::constants::{BASE_PAGES_PER_RANGE, CELLS_PER_PAGE, NUM_METADATA_COLS, THRESHOLD};
use crate::errors::DatabaseError;

verus! {

/// Represents the _record_ identifier.
pub type RID = usize;

/// Represents the _logical_ identifier.
pub type LID = i64;

/// Represents the address of a record. We obtain this address from the
/// page directory, which maps from RIDs to physical addresses.
#[derive(Debug, Clone, Copy, PartialEq, Eq, Structural)]
pub struct Address {
    /// Page range index.
    pub range: usize,

    /// Logical page index.
    pub page: usize,

    /// Physical page offset.
    pub offset: Offset,
}

impl Address {
    /// Create a new address.
    pub fn new(range: usize, page: usize, offset: usize) -> (r: Self)
        ensures
            r == (Address { range, page, offset }),
    {
        Address { range, page, offset }
    }
}

/// A record handed back by the select family: its record id, the search
/// key it was found under, and the projected column values.
#[derive(Debug, Clone)]
pub struct Record {
    pub rid: RID,
    pub key: LID,
    pub columns: Vec<Option<i64>>,
}

impl Record {
    /// Create a new record.
    pub fn new(rid: RID, key: LID, columns: Vec<Option<i64>>) -> (r: Self)
        ensures
            r.rid == rid,
            r.key == key,
            r.columns == columns,
    {
        Record { rid, key, columns }
    }
}

/// One entry of an ordered column index: a column value and the base
/// record ids carrying it.
pub struct IndexEntry {
    pub value: i64,
    pub rids: Vec<RID>,
}

/// An ordered index over one column: entries sorted by strictly
/// increasing value.
pub struct ColumnIndex {
    pub entries: Vec<IndexEntry>,
}

/// The entries are sorted by strictly increasing value.
pub open spec fn entries_sorted(s: Seq<IndexEntry>) -> bool {
    forall|i: int, j: int| 0 <= i < j < s.len() ==> s[i].value < s[j].value
}

/// Some entry carries this value.
pub open spec fn has_value(s: Seq<IndexEntry>, v: i64) -> bool {
    exists|i: int| 0 <= i < s.len() && s[i].value == v
}

/// The position of the entry carrying this value.
pub open spec fn index_of_value(s: Seq<IndexEntry>, v: i64) -> int {
    choose|i: int| 0 <= i < s.len() && s[i].value == v
}

/// The record ids registered under a value, in insertion order; empty
/// when the value has no entry.
pub open spec fn rids_of(s: Seq<IndexEntry>, v: i64) -> Seq<RID> {
    if has_value(s, v) {
        s[index_of_value(s, v)].rids@
    } else {
        Seq::empty()
    }
}

/// The record ids registered under all values of the inclusive range
/// `[lo, hi]`, in ascending value order.
pub open spec fn range_rids(s: Seq<IndexEntry>, lo: i64, hi: i64) -> Seq<RID>
    decreases s.len(),
{
    if s.len() == 0 {
        Seq::empty()
    } else {
        (if lo <= s[0].value <= hi {
            s[0].rids@
        } else {
            Seq::empty()
        }) + range_rids(s.drop_first(), lo, hi)
    }
}

/// In a sorted entry sequence, the entry at a position is the one found
/// for its value.
pub proof fn lemma_value_at(s: Seq<IndexEntry>, i: int, v: i64)
    requires
        entries_sorted(s),
        0 <= i < s.len(),
        s[i].value == v,
    ensures
        has_value(s, v),
        index_of_value(s, v) == i,
        rids_of(s, v) == s[i].rids@,
{
    assert(has_value(s, v));
    let j = index_of_value(s, v);
    if i != j {
        assert(s[i].value < s[j].value || s[j].value < s[i].value);
    }
}

/// In a sorted entry sequence, a point range query returns exactly the
/// record ids registered under that value.
pub proof fn lemma_range_single(s: Seq<IndexEntry>, k: i64)
    requires
        entries_sorted(s),
    ensures
        range_rids(s, k, k) == rids_of(s, k),
    decreases s.len(),
{
    if s.len() == 0 {
        assert(!has_value(s, k));
        assert(range_rids(s, k, k) =~= rids_of(s, k));
    } else {
        let rest = s.drop_first();
        assert(entries_sorted(rest)) by {
            assert(forall|i: int, j: int|
                0 <= i < j < rest.len() ==> rest[i] == s[i + 1] && rest[j] == s[j + 1]);
        }
        lemma_range_single(rest, k);
        if s[0].value == k {
            lemma_value_at(s, 0, k);
            assert(!has_value(rest, k)) by {
                if has_value(rest, k) {
                    let i = index_of_value(rest, k);
                    assert(rest[i] == s[i + 1]);
                    assert(s[0].value < s[i + 1].value);
                }
            }
            assert(range_rids(s, k, k) =~= rids_of(s, k));
        } else {
            if has_value(s, k) {
                let i = index_of_value(s, k);
                assert(i > 0);
                assert(rest[i - 1] == s[i]);
                lemma_value_at(rest, i - 1, k);
            } else {
                assert(!has_value(rest, k)) by {
                    if has_value(rest, k) {
                        let i = index_of_value(rest, k);
                        assert(rest[i] == s[i + 1]);
                    }
                }
            }
            assert(range_rids(s, k, k) =~= rids_of(s, k));
        }
    }
}

/// `post` is `pre` with `rid` registered under `value` (unless it was
/// registered there already); every other value is untouched.
pub open spec fn index_added(pre: ColumnIndex, post: ColumnIndex, value: i64, rid: RID) -> bool {
    &&& entries_sorted(post.entries@)
    &&& (forall|v: i64| v != value ==> rids_of(post.entries@, v) == rids_of(pre.entries@, v))
    &&& (forall|v: i64| has_value(post.entries@, v) <==> has_value(pre.entries@, v) || v == value)
    &&& rids_of(post.entries@, value) == (if rids_of(pre.entries@, value).contains(rid) {
        rids_of(pre.entries@, value)
    } else {
        rids_of(pre.entries@, value).push(rid)
    })
}

/// The sequence with every occurrence of `rid` removed.
pub open spec fn without_rid(s: Seq<RID>, rid: RID) -> Seq<RID>
    decreases s.len(),
{
    if s.len() == 0 {
        Seq::empty()
    } else if s.last() == rid {
        without_rid(s.drop_last(), rid)
    } else {
        without_rid(s.drop_last(), rid).push(s.last())
    }
}

/// `post` is `pre` with every occurrence of `rid` removed from `value`'s
/// entry; every other value is untouched.
pub open spec fn index_removed(pre: ColumnIndex, post: ColumnIndex, value: i64, rid: RID) -> bool {
    &&& entries_sorted(post.entries@)
    &&& (forall|v: i64| v != value ==> rids_of(post.entries@, v) == rids_of(pre.entries@, v))
    &&& (forall|v: i64| has_value(post.entries@, v) <==> has_value(pre.entries@, v))
    &&& rids_of(post.entries@, value) == without_rid(rids_of(pre.entries@, value), rid)
}

/// Every element of the sequence without `rid` occurs in the original
/// sequence.
pub proof fn lemma_without_rid_sub(s: Seq<RID>, rid: RID)
    ensures
        without_rid(s, rid).len() <= s.len(),
        forall|j: int|
            0 <= j < without_rid(s, rid).len() ==> s.contains(#[trigger] without_rid(s, rid)[j]),
    decreases s.len(),
{
    if s.len() > 0 {
        lemma_without_rid_sub(s.drop_last(), rid)        ;
        assert forall|j: int|
            0 <= j < without_rid(s, rid).len() implies s.contains(
            #[trigger] without_rid(s, rid)[j],
        ) by {
            if s.last() != rid && j == without_rid(s, rid).len() - 1 {
                assert(without_rid(s, rid)[j] == s.last());
                assert(s[s.len() - 1] == s.last());
            } else {
                assert(s.drop_last().contains(without_rid(s.drop_last(), rid)[j]));
                let w = choose|w: int|
                    0 <= w < s.drop_last().len() && s.drop_last()[w] == without_rid(
                        s.drop_last(),
                        rid,
                    )[j];
                assert(s[w] == without_rid(s, rid)[j]);
            }
        }
    }
}

/// Removing a record id removes every occurrence of it.
pub proof fn lemma_without_rid_gone(s: Seq<RID>, rid: RID)
    ensures
        forall|j: int| 0 <= j < without_rid(s, rid).len() ==> #[trigger] without_rid(s, rid)[j]
            != rid,
    decreases s.len(),
{
    if s.len() > 0 {
        lemma_without_rid_gone(s.drop_last(), rid);
        assert forall|j: int|
            0 <= j < without_rid(s, rid).len() implies #[trigger] without_rid(s, rid)[j]
            != rid by {
            if s.last() != rid {
                if j < without_rid(s, rid).len() - 1 {
                    assert(without_rid(s, rid)[j] == without_rid(s.drop_last(), rid)[j]);
                } else {
                    assert(without_rid(s, rid)[j] == s.last());
                }
            } else {
                assert(without_rid(s, rid)[j] == without_rid(s.drop_last(), rid)[j]);
            }
        }
    }
}

/// Removing a record id that does not occur changes nothing.
pub proof fn lemma_without_rid_absent(s: Seq<RID>, rid: RID)
    requires
        forall|j: int| 0 <= j < s.len() ==> #[trigger] s[j] != rid,
    ensures
        without_rid(s, rid) == s,
    decreases s.len(),
{
    if s.len() > 0 {
        assert(forall|j: int| 0 <= j < s.drop_last().len() ==> #[trigger] s.drop_last()[j]
            != rid);
        lemma_without_rid_absent(s.drop_last(), rid);
        assert(without_rid(s, rid) =~= s);
    } else {
        assert(without_rid(s, rid) =~= s);
    }
}

/// Removing a record id twice equals removing it once.
pub proof fn lemma_without_rid_idempotent(s: Seq<RID>, rid: RID)
    ensures
        without_rid(without_rid(s, rid), rid) == without_rid(s, rid),
{
    lemma_without_rid_gone(s, rid);
    lemma_without_rid_absent(without_rid(s, rid), rid);
}

/// One column index moved a record id from a possibly absent old value
/// to a new value.
pub open spec fn col_stepped(pre: ColumnIndex, post: ColumnIndex, ov: Option<i64>, v: i64, rid: RID) -> bool {
    if ov is Some {
        exists|mid: ColumnIndex|
            (index_removed(pre, mid, ov.unwrap(), rid) || (mid == pre && !has_value(
                pre.entries@,
                ov.unwrap(),
            ))) && #[trigger] index_added(mid, post, v, rid)
    } else {
        index_added(pre, post, v, rid)
    }
}

/// After a column step, every registered record id was registered before
/// or is the stepped one.
pub proof fn lemma_col_step_members(pre: ColumnIndex, post: ColumnIndex, ov: Option<i64>, v: i64, rid: RID)
    requires
        col_stepped(pre, post, ov, v, rid),
    ensures
        forall|v2: i64, j: int|
            0 <= j < rids_of(post.entries@, v2).len() ==> rids_of(post.entries@, v2)[j] == rid
                || rids_of(pre.entries@, v2).contains(#[trigger] rids_of(post.entries@, v2)[j]),
{
    if ov is Some {
        let mid = choose|mid: ColumnIndex|
            (index_removed(pre, mid, ov.unwrap(), rid) || (mid == pre && !has_value(
                pre.entries@,
                ov.unwrap(),
            ))) && #[trigger] index_added(mid, post, v, rid);
        assert forall|v2: i64, j: int|
            0 <= j < rids_of(post.entries@, v2).len() implies rids_of(post.entries@, v2)[j] == rid
            || rids_of(pre.entries@, v2).contains(#[trigger] rids_of(post.entries@, v2)[j]) by {
            let x = rids_of(post.entries@, v2)[j];
            if x != rid {
                // x survived the addition, so it stood in the middle
                // index, hence in the original one.
                assert(rids_of(mid.entries@, v2).contains(x)) by {
                    if v2 == v {
                        if rids_of(mid.entries@, v2).contains(rid) {
                            assert(rids_of(post.entries@, v2) == rids_of(mid.entries@, v2));
                        } else {
                            assert(rids_of(post.entries@, v2) == rids_of(mid.entries@, v2).push(
                                rid,
                            ));
                        }
                    } else {
                        assert(rids_of(post.entries@, v2) == rids_of(mid.entries@, v2));
                    }
                }
                let w = choose|w: int|
                    0 <= w < rids_of(mid.entries@, v2).len() && rids_of(mid.entries@, v2)[w] == x;
                if mid == pre {
                } else if v2 == ov.unwrap() {
                    assert(rids_of(mid.entries@, v2) == without_rid(
                        rids_of(pre.entries@, v2),
                        rid,
                    ));
                    lemma_without_rid_sub(rids_of(pre.entries@, v2), rid);
                } else {
                    assert(rids_of(mid.entries@, v2) == rids_of(pre.entries@, v2));
                }
            }
        }
    } else {
        assert forall|v2: i64, j: int|
            0 <= j < rids_of(post.entries@, v2).len() implies rids_of(post.entries@, v2)[j] == rid
            || rids_of(pre.entries@, v2).contains(#[trigger] rids_of(post.entries@, v2)[j]) by {
            let x = rids_of(post.entries@, v2)[j];
            if x != rid {
                if v2 == v {
                    if rids_of(pre.entries@, v2).contains(rid) {
                        assert(rids_of(post.entries@, v2) == rids_of(pre.entries@, v2));
                    } else {
                        assert(rids_of(post.entries@, v2) == rids_of(pre.entries@, v2).push(rid));
                    }
                } else {
                    assert(rids_of(post.entries@, v2) == rids_of(pre.entries@, v2));
                }
            }
        }
    }
}

/// After a column step on the primary-key column whose new value was
/// admissible, the new value maps to exactly the stepped record and
/// every value still has at most one record.
pub proof fn lemma_key_unique_col(pre: ColumnIndex, post: ColumnIndex, ov: Option<i64>, v: i64, rid: RID)
    requires
        col_stepped(pre, post, ov, v, rid),
        forall|v2: i64| #[trigger] rids_of(pre.entries@, v2).len() <= 1,
        rids_of(pre.entries@, v).len() == 0 || rids_of(pre.entries@, v) == seq![rid],
    ensures
        rids_of(post.entries@, v) == seq![rid],
        forall|v2: i64| #[trigger] rids_of(post.entries@, v2).len() <= 1,
{
    if ov is Some {
        let mid = choose|mid: ColumnIndex|
            (index_removed(pre, mid, ov.unwrap(), rid) || (mid == pre && !has_value(
                pre.entries@,
                ov.unwrap(),
            ))) && #[trigger] index_added(mid, post, v, rid);
        lemma_without_rid_sub(rids_of(pre.entries@, ov.unwrap()), rid);
        assert forall|v2: i64| #[trigger] rids_of(mid.entries@, v2).len() <= 1 by {
            if mid == pre {
            } else if v2 == ov.unwrap() {
            } else {
                assert(rids_of(mid.entries@, v2) == rids_of(pre.entries@, v2));
            }
        }
        // The middle index holds v either empty or as the record itself.
        assert(rids_of(mid.entries@, v).len() == 0 || rids_of(mid.entries@, v) == seq![rid]) by {
            if mid == pre {
            } else if v == ov.unwrap() {
                if rids_of(pre.entries@, v).len() == 0 {
                    assert(without_rid(rids_of(pre.entries@, v), rid)
                        =~= Seq::<RID>::empty());
                } else {
                    let s0 = rids_of(pre.entries@, v);
                    assert(s0 == seq![rid]);
                    assert(s0.last() == rid);
                    assert(s0.drop_last() =~= Seq::<RID>::empty());
                    assert(without_rid(s0, rid) == without_rid(s0.drop_last(), rid));
                    assert(without_rid(s0.drop_last(), rid) =~= Seq::<RID>::empty());
                }
            } else {
                assert(rids_of(mid.entries@, v) == rids_of(pre.entries@, v));
            }
        }
        if rids_of(mid.entries@, v).len() == 0 {
            assert(!rids_of(mid.entries@, v).contains(rid));
            assert(rids_of(post.entries@, v) =~= seq![rid]);
        } else {
            assert(rids_of(mid.entries@, v)[0] == rid);
            assert(rids_of(mid.entries@, v).contains(rid));
            assert(rids_of(post.entries@, v) =~= seq![rid]);
        }
        assert forall|v2: i64| #[trigger] rids_of(post.entries@, v2).len() <= 1 by {
            if v2 == v {
            } else {
                assert(rids_of(post.entries@, v2) == rids_of(mid.entries@, v2));
            }
        }
    } else {
        if rids_of(pre.entries@, v).len() == 0 {
            assert(!rids_of(pre.entries@, v).contains(rid));
            assert(rids_of(post.entries@, v) =~= seq![rid]);
        } else {
            assert(rids_of(pre.entries@, v)[0] == rid);
            assert(rids_of(pre.entries@, v).contains(rid));
            assert(rids_of(post.entries@, v) =~= seq![rid]);
        }
        assert forall|v2: i64| #[trigger] rids_of(post.entries@, v2).len() <= 1 by {
            if v2 == v {
            } else {
                assert(rids_of(post.entries@, v2) == rids_of(pre.entries@, v2));
            }
        }
    }
}

impl ColumnIndex {
    /// The sortedness invariant of one column index.
    pub open spec fn wf(self) -> bool {
        entries_sorted(self.entries@)
    }

    /// Create an empty column index.
    pub fn new() -> (r: Self)
        ensures
            r.wf(),
            r.entries@.len() == 0,
            forall|v: i64| !has_value(r.entries@, v),
            forall|v: i64| rids_of(r.entries@, v) == Seq::<RID>::empty(),
    {
        ColumnIndex { entries: Vec::new() }
    }

    /// Register `rid` under `value`, keeping each id at most once per
    /// value.
    pub fn add(&mut self, value: i64, rid: RID)
        requires
            old(self).wf(),
        ensures
            final(self).wf(),
            index_added(*old(self), *final(self), value, rid),
    {
        let ghost pre = *self;
        // Find the first entry whose value is not below the new one.
        let mut i: usize = 0;
        while i < self.entries.len() && self.entries[i].value < value
            invariant
                *self == pre,
                pre.wf(),
                i <= pre.entries@.len(),
                forall|j: int| 0 <= j < i ==> pre.entries@[j].value < value,
            decreases pre.entries@.len() - i,
        {
            i = i + 1;
        }
        if i < self.entries.len() && self.entries[i].value == value {
            proof {
                lemma_value_at(pre.entries@, i as int, value);
            }
            // The value already has an entry: add the id unless present.
            let mut seen = false;
            let mut j: usize = 0;
            while j < self.entries[i].rids.len()
                invariant
                    *self == pre,
                    i < pre.entries@.len(),
                    j <= pre.entries@[i as int].rids@.len(),
                    seen == pre.entries@[i as int].rids@.take(j as int).contains(rid),
                decreases pre.entries@[i as int].rids@.len() - j,
            {
                proof {
                    assert(pre.entries@[i as int].rids@.take(j + 1).drop_last() =~= pre.entries@[
                        i as int
                    ].rids@.take(j as int));
                }
                if self.entries[i].rids[j] == rid {
                    seen = true;
                    proof {
                        assert(pre.entries@[i as int].rids@.take(j + 1)[j as int] == rid);
                    }
                }
                proof {
                    let t = pre.entries@[i as int].rids@.take(j + 1);
                    if t.contains(rid) {
                        let w = choose|w: int| 0 <= w < t.len() && t[w] == rid;
                        if w < j {
                            assert(pre.entries@[i as int].rids@.take(j as int)[w] == rid);
                        }
                    }
                }
                j = j + 1;
            }
            proof {
                assert(pre.entries@[i as int].rids@.take(
                    pre.entries@[i as int].rids@.len() as int,
                ) =~= pre.entries@[i as int].rids@);
            }
            if !seen {
                self.entries[i].rids.push(rid);
                proof {
                    let post = *self;
                    assert forall|v: i64|
                        has_value(post.entries@, v) <==> has_value(pre.entries@, v) || v
                            == value by {
                        if has_value(post.entries@, v) {
                            let w = index_of_value(post.entries@, v);
                            assert(pre.entries@[w].value == v);
                        }
                        if has_value(pre.entries@, v) {
                            let w = index_of_value(pre.entries@, v);
                            assert(post.entries@[w].value == v);
                        }
                        if v == value {
                            assert(post.entries@[i as int].value == v);
                        }
                    }
                    assert(post.entries@[i as int].value == value);
                    assert(post.entries@[i as int].rids@ =~= pre.entries@[i as int].rids@.push(
                        rid,
                    ));
                    assert forall|v: i64| v != value implies rids_of(post.entries@, v) == rids_of(
                        pre.entries@,
                        v,
                    ) by {
                        assert forall|w: int|
                            0 <= w < pre.entries@.len() && pre.entries@[w].value == v implies
                            exists|u: int|
                            0 <= u < post.entries@.len() && post.entries@[u] == pre.entries@[
                            w
                        ] by {
                            assert(w != i);
                            assert(post.entries@[w] == pre.entries@[w]);
                        }
                        assert forall|w: int|
                            0 <= w < post.entries@.len() && post.entries@[w].value == v implies
                            exists|u: int|
                            0 <= u < pre.entries@.len() && pre.entries@[u] == post.entries@[
                            w
                        ] by {
                            assert(w != i);
                            assert(post.entries@[w] == pre.entries@[w]);
                        }
                        ColumnIndex::lemma_same_values(pre.entries@, post.entries@, v);
                    }
                    lemma_value_at(post.entries@, i as int, value);
                }
            } else {
                proof {
                    assert forall|v: i64|
                        has_value(self.entries@, v) <==> has_value(pre.entries@, v) || v
                            == value by {
                        if v == value {
                            assert(pre.entries@[i as int].value == v);
                        }
                    }
                }
            }
        } else {
            // No entry for the value yet: insert one at the sorted spot.
            let ghost at = i as int;
            let mut fresh: Vec<RID> = Vec::new();
            fresh.push(rid);
            self.entries.insert(i, IndexEntry { value, rids: fresh });
            proof {
                let post = *self;
                assert(!has_value(pre.entries@, value)) by {
                    if has_value(pre.entries@, value) {
                        let w = index_of_value(pre.entries@, value);
                        if w < at {
                        } else {
                            if at < pre.entries@.len() {
                                assert(pre.entries@[at].value > value || pre.entries@[at].value
                                    == value);
                            }
                            if w > at {
                                assert(pre.entries@[at].value < pre.entries@[w].value);
                            }
                        }
                    }
                }
                assert(entries_sorted(post.entries@)) by {
                    assert forall|x: int, y: int|
                        0 <= x < y < post.entries@.len() implies post.entries@[x].value
                        < post.entries@[y].value by {
                        if y < at {
                        } else if x >= at + 1 {
                            assert(post.entries@[x] == pre.entries@[x - 1]);
                            assert(post.entries@[y] == pre.entries@[y - 1]);
                        } else if y == at {
                            assert(post.entries@[x] == pre.entries@[x]);
                        } else if x == at {
                            assert(post.entries@[y] == pre.entries@[y - 1]);
                            assert(pre.entries@[y - 1].value >= value && pre.entries@[y - 1].value
                                != value);
                        } else {
                            assert(post.entries@[x] == pre.entries@[x]);
                            assert(post.entries@[y] == pre.entries@[y - 1]);
                            assert(pre.entries@[y - 1].value >= value && pre.entries@[y - 1].value
                                != value);
                        }
                    }
                }
                assert forall|v: i64| v != value implies rids_of(post.entries@, v) == rids_of(
                    pre.entries@,
                    v,
                ) by {
                    ColumnIndex::lemma_insert_hyp(pre.entries@, post.entries@, at, v);
                    ColumnIndex::lemma_same_values(pre.entries@, post.entries@, v);
                }
                lemma_value_at(post.entries@, at, value);
                assert(rids_of(post.entries@, value) =~= rids_of(pre.entries@, value).push(rid));
                assert forall|v: i64|
                    has_value(post.entries@, v) <==> has_value(pre.entries@, v) || v == value by {
                    if v != value {
                        ColumnIndex::lemma_insert_hyp(pre.entries@, post.entries@, at, v);
                        ColumnIndex::lemma_same_values(pre.entries@, post.entries@, v);
                    }
                }
            }
        }
    }

    /// After inserting one entry at position `at`, every entry for a
    /// value other than the inserted one corresponds across the two
    /// sequences.
    proof fn lemma_insert_hyp(pre: Seq<IndexEntry>, post: Seq<IndexEntry>, at: int, v: i64)
        requires
            0 <= at <= pre.len(),
            post.len() == pre.len() + 1,
            forall|w: int| 0 <= w < at ==> post[w] == pre[w],
            forall|w: int| at < w < post.len() ==> post[w] == pre[w - 1],
            post[at].value != v,
        ensures
            forall|w: int|
                0 <= w < pre.len() && pre[w].value == v ==> exists|u: int|
                    0 <= u < post.len() && post[u] == pre[w],
            forall|w: int|
                0 <= w < post.len() && post[w].value == v ==> exists|u: int|
                    0 <= u < pre.len() && pre[u] == post[w],
    {
        assert forall|w: int| 0 <= w < pre.len() && pre[w].value == v implies exists|u: int|
            0 <= u < post.len() && post[u] == pre[w] by {
            if w < at {
                assert(post[w] == pre[w]);
            } else {
                assert(post[w + 1] == pre[w]);
            }
        }
        assert forall|w: int| 0 <= w < post.len() && post[w].value == v implies exists|u: int|
            0 <= u < pre.len() && pre[u] == post[w] by {
            if w < at {
                assert(pre[w] == post[w]);
            } else {
                assert(w != at);
                assert(pre[w - 1] == post[w]);
            }
        }
    }

    /// When every entry of one sorted sequence for a value corresponds to
    /// an entry of the other, lookups of that value agree.
    proof fn lemma_same_values(pre: Seq<IndexEntry>, post: Seq<IndexEntry>, v: i64)
        requires
            entries_sorted(pre),
            entries_sorted(post),
            forall|i: int|
                0 <= i < pre.len() && pre[i].value == v ==> exists|j: int|
                    0 <= j < post.len() && post[j] == pre[i],
            forall|j: int|
                0 <= j < post.len() && post[j].value == v ==> exists|i: int|
                    0 <= i < pre.len() && pre[i] == post[j],
        ensures
            has_value(pre, v) <==> has_value(post, v),
            rids_of(pre, v) == rids_of(post, v),
    {
        if has_value(pre, v) {
            let i = index_of_value(pre, v);
            assert(pre[i].value == v);
            let j = choose|j: int| 0 <= j < post.len() && post[j] == pre[i];
            lemma_value_at(post, j, v);
            lemma_value_at(pre, i, v);
        } else if has_value(post, v) {
            let j = index_of_value(post, v);
            assert(post[j].value == v);
            let i = choose|i: int| 0 <= i < pre.len() && pre[i] == post[j];
            assert(pre[i].value == v);
        }
    }

    /// Remove every occurrence of `rid` from `value`'s entry; a value
    /// with no entry is left as it is.
    pub fn remove(&mut self, value: i64, rid: RID)
        requires
            old(self).wf(),
        ensures
            final(self).wf(),
            has_value(old(self).entries@, value) ==> index_removed(
                *old(self),
                *final(self),
                value,
                rid,
            ),
            !has_value(old(self).entries@, value) ==> *final(self) == *old(self),
    {
        let ghost pre = *self;
        let mut i: usize = 0;
        while i < self.entries.len()
            invariant
                *self == pre,
                pre == *old(self),
                pre.wf(),
                i <= pre.entries@.len(),
                forall|j: int| 0 <= j < i ==> pre.entries@[j].value != value,
            decreases pre.entries@.len() - i,
        {
            if self.entries[i].value == value {
                proof {
                    lemma_value_at(pre.entries@, i as int, value);
                }
                let mut kept: Vec<RID> = Vec::new();
                let mut j: usize = 0;
                while j < self.entries[i].rids.len()
                    invariant
                        *self == pre,
                        i < pre.entries@.len(),
                        j <= pre.entries@[i as int].rids@.len(),
                        kept@ == without_rid(pre.entries@[i as int].rids@.take(j as int), rid),
                    decreases pre.entries@[i as int].rids@.len() - j,
                {
                    proof {
                        let t1 = pre.entries@[i as int].rids@.take(j + 1);
                        assert(t1.drop_last() =~= pre.entries@[i as int].rids@.take(j as int));
                        assert(t1.last() == pre.entries@[i as int].rids@[j as int]);
                    }
                    if self.entries[i].rids[j] != rid {
                        kept.push(self.entries[i].rids[j]);
                    }
                    j = j + 1;
                }
                proof {
                    assert(pre.entries@[i as int].rids@.take(
                        pre.entries@[i as int].rids@.len() as int,
                    ) =~= pre.entries@[i as int].rids@);
                }
                self.entries.set(i, IndexEntry { value, rids: kept });
                proof {
                    let post = *self;
                    assert(entries_sorted(post.entries@)) by {
                        assert forall|x: int, y: int|
                            0 <= x < y < post.entries@.len() implies post.entries@[x].value
                            < post.entries@[y].value by {
                            assert(pre.entries@[x].value < pre.entries@[y].value);
                            assert(post.entries@[x].value == pre.entries@[x].value);
                            assert(post.entries@[y].value == pre.entries@[y].value);
                        }
                    }
                    assert forall|v: i64| v != value implies rids_of(post.entries@, v) == rids_of(
                        pre.entries@,
                        v,
                    ) by {
                        assert forall|w: int|
                            0 <= w < pre.entries@.len() && pre.entries@[w].value == v implies
                            exists|u: int|
                            0 <= u < post.entries@.len() && post.entries@[u] == pre.entries@[
                            w
                        ] by {
                            assert(w != i);
                            assert(post.entries@[w] == pre.entries@[w]);
                        }
                        assert forall|w: int|
                            0 <= w < post.entries@.len() && post.entries@[w].value == v implies
                            exists|u: int|
                            0 <= u < pre.entries@.len() && pre.entries@[u] == post.entries@[
                            w
                        ] by {
                            assert(w != i);
                            assert(post.entries@[w] == pre.entries@[w]);
                        }
                        ColumnIndex::lemma_same_values(pre.entries@, post.entries@, v);
                    }
                    assert forall|v: i64|
                        has_value(post.entries@, v) <==> has_value(pre.entries@, v) by {
                        if has_value(pre.entries@, v) {
                            let w = index_of_value(pre.entries@, v);
                            assert(post.entries@[w].value == v);
                        }
                        if has_value(post.entries@, v) {
                            let w = index_of_value(post.entries@, v);
                            assert(pre.entries@[w].value == v);
                        }
                    }
                    lemma_value_at(post.entries@, i as int, value);
                    assert(has_value(old(self).entries@, value));
                    assert(rids_of(post.entries@, value) == without_rid(
                        rids_of(pre.entries@, value),
                        rid,
                    ));
                    assert(index_removed(*old(self), post, value, rid));
                    assert(post == *final(self));
                }
                return ;
            }
            i = i + 1;
        }
        proof {
            if has_value(pre.entries@, value) {
                let w = index_of_value(pre.entries@, value);
                assert(pre.entries@[w].value == value);
                assert(false);
            }
        }
    }

    /// Return the record ids registered under all values of the
    /// inclusive range `[lo, hi]`, in ascending value order.
    pub fn locate(&self, lo: i64, hi: i64) -> (r: Vec<RID>)
        requires
            self.wf(),
        ensures
            r@ == range_rids(self.entries@, lo, hi),
    {
        let mut r: Vec<RID> = Vec::new();
        let mut i: usize = 0;
        assert(self.entries@.skip(0) =~= self.entries@);
        while i < self.entries.len()
            invariant
                i <= self.entries@.len(),
                r@ + range_rids(self.entries@.skip(i as int), lo, hi) == range_rids(
                    self.entries@,
                    lo,
                    hi,
                ),
            decreases self.entries@.len() - i,
        {
            let ghost before = r@;
            proof {
                let suf = self.entries@.skip(i as int);
                assert(suf[0] == self.entries@[i as int]);
                assert(suf.drop_first() =~= self.entries@.skip(i + 1));
            }
            if lo <= self.entries[i].value && self.entries[i].value <= hi {
                let mut j: usize = 0;
                while j < self.entries[i].rids.len()
                    invariant
                        i < self.entries@.len(),
                        j <= self.entries@[i as int].rids@.len(),
                        r@ == before + self.entries@[i as int].rids@.take(j as int),
                    decreases self.entries@[i as int].rids@.len() - j,
                {
                    proof {
                        assert(self.entries@[i as int].rids@.take(j + 1) =~= self.entries@[
                            i as int
                        ].rids@.take(j as int).push(self.entries@[i as int].rids@[j as int]));
                    }
                    r.push(self.entries[i].rids[j]);
                    j = j + 1;
                }
                proof {
                    assert(self.entries@[i as int].rids@.take(
                        self.entries@[i as int].rids@.len() as int,
                    ) =~= self.entries@[i as int].rids@);
                    assert(r@ + range_rids(self.entries@.skip(i + 1), lo, hi) =~= range_rids(
                        self.entries@,
                        lo,
                        hi,
                    ));
                }
            } else {
                proof {
                    assert(r@ + range_rids(self.entries@.skip(i + 1), lo, hi) =~= range_rids(
                        self.entries@,
                        lo,
                        hi,
                    ));
                }
            }
            i = i + 1;
        }
        proof {
            assert(self.entries@.skip(self.entries@.len() as int) =~= Seq::<IndexEntry>::empty());
            assert(r@ =~= range_rids(self.entries@, lo, hi));
        }
        r
    }
}

/// Represents the indexer of a table: an ordered index per column.
pub struct Indexer {
    /// If enabled[i] is `false`, the index for column `i` is considered
    /// dropped. Only the primary-key index is enabled by default.
    pub enabled: Vec<bool>,

    /// Ordered indexes for every column except for metadata columns.
    pub b_trees: Vec<ColumnIndex>,
}

impl Indexer {
    /// Every column index is sorted and the bookkeeping lengths agree.
    pub open spec fn wf(self) -> bool {
        &&& self.enabled@.len() == self.b_trees@.len()
        &&& forall|c: int| 0 <= c < self.b_trees@.len() ==> (#[trigger] self.b_trees@[c]).wf()
    }

    /// The entry sequence of one column's index.
    pub open spec fn col(self, c: int) -> Seq<IndexEntry> {
        self.b_trees@[c].entries@
    }

    /// Initialize a new indexer with one index per column; only the
    /// primary-key column starts enabled.
    pub fn new(num_columns: usize) -> (r: Self)
        requires
            num_columns >= 1,
        ensures
            r.wf(),
            r.b_trees@.len() == num_columns,
            forall|c: int| 0 <= c < num_columns ==> r.col(c).len() == 0,
    {
        let mut enabled_vec: Vec<bool> = Vec::new();
        let mut b_trees: Vec<ColumnIndex> = Vec::new();
        enabled_vec.push(true);
        b_trees.push(ColumnIndex::new());
        let mut c: usize = 1;
        while c < num_columns
            invariant
                1 <= c == enabled_vec@.len() == b_trees@.len() <= num_columns,
                forall|k: int| 0 <= k < c ==> (#[trigger] b_trees@[k]).wf() && b_trees@[
                    k
                ].entries@.len() == 0,
            decreases num_columns - c,
        {
            enabled_vec.push(false);
            b_trees.push(ColumnIndex::new());
            c = c + 1;
        }
        Indexer { enabled: enabled_vec, b_trees }
    }

    /// Adds a value to a column.
    pub fn add_column_index(&mut self, value: i64, column: usize, base_rid: RID)
        requires
            old(self).wf(),
            column < old(self).b_trees@.len(),
        ensures
            final(self).wf(),
            final(self).b_trees@.len() == old(self).b_trees@.len(),
            final(self).enabled == old(self).enabled,
            index_added(
                old(self).b_trees@[column as int],
                final(self).b_trees@[column as int],
                value,
                base_rid,
            ),
            forall|c: int|
                0 <= c < old(self).b_trees@.len() && c != column ==> final(self).b_trees@[c]
                    == old(self).b_trees@[c],
    {
        self.b_trees[column].add(value, base_rid);
    }

    /// Inserts a key, RID pair into every column's index. This function
    /// should only be called on completely filled rows.
    pub fn insert(&mut self, columns: &Vec<i64>, rid: RID)
        requires
            old(self).wf(),
            columns@.len() == old(self).b_trees@.len(),
        ensures
            final(self).wf(),
            final(self).b_trees@.len() == old(self).b_trees@.len(),
            final(self).enabled == old(self).enabled,
            forall|c: int|
                0 <= c < columns@.len() ==> index_added(
                    old(self).b_trees@[c],
                    #[trigger] final(self).b_trees@[c],
                    columns@[c],
                    rid,
                ),
    {
        let ghost pre = *self;
        let mut c: usize = 0;
        while c < columns.len()
            invariant
                self.wf(),
                pre.wf(),
                c <= columns@.len(),
                columns@.len() == pre.b_trees@.len() == self.b_trees@.len(),
                self.enabled == pre.enabled,
                forall|k: int|
                    0 <= k < c ==> index_added(
                        pre.b_trees@[k],
                        #[trigger] self.b_trees@[k],
                        columns@[k],
                        rid,
                    ),
                forall|k: int| c <= k < columns@.len() ==> self.b_trees@[k] == pre.b_trees@[k],
            decreases columns@.len() - c,
        {
            self.b_trees[c].add(columns[c], rid);
            c = c + 1;
        }
    }

    /// Update the index of a column given a RID, the original value, and
    /// the new value: the pair (original, RID) leaves the column's index
    /// and (update, RID) enters it.
    pub fn update_column_index(&mut self, original: i64, update: i64, column: usize, base_rid: RID)
        requires
            old(self).wf(),
            column < old(self).b_trees@.len(),
        ensures
            final(self).wf(),
            final(self).b_trees@.len() == old(self).b_trees@.len(),
            final(self).enabled == old(self).enabled,
            forall|c: int|
                0 <= c < old(self).b_trees@.len() && c != column ==> final(self).b_trees@[c]
                    == old(self).b_trees@[c],
            exists|mid: ColumnIndex|
                (index_removed(old(self).b_trees@[column as int], mid, original, base_rid) || (mid
                    == old(self).b_trees@[column as int] && !has_value(
                    old(self).b_trees@[column as int].entries@,
                    original,
                ))) && index_added(
                    mid,
                    #[trigger] final(self).b_trees@[column as int],
                    update,
                    base_rid,
                ),
    {
        // Delete the old pair; a value with no entry is left alone.
        self.b_trees[column].remove(original, base_rid);
        let ghost mid = self.b_trees@[column as int];
        // Now add the RID under the new value.
        self.b_trees[column].add(update, base_rid);
        proof {
            assert((index_removed(old(self).b_trees@[column as int], mid, original, base_rid) || (
            mid == old(self).b_trees@[column as int] && !has_value(
                old(self).b_trees@[column as int].entries@,
                original,
            ))) && index_added(mid, final(self).b_trees@[column as int], update, base_rid));
        }
    }

    /// Given a start key, an end key, and a column index, return all of
    /// the RIDs stored under that range of keys.
    pub fn locate_range(&self, start_key: i64, end_key: i64, column: usize) -> (r: Vec<RID>)
        requires
            self.wf(),
            column < self.b_trees@.len(),
        ensures
            r@ == range_rids(self.col(column as int), start_key, end_key),
    {
        self.b_trees[column].locate(start_key, end_key)
    }

    /// Remove the pair (value, RID) from every column's index, for each
    /// column whose cell holds a value.
    pub fn remove_from_index(&mut self, columns: Vec<Option<i64>>, rid: RID)
        requires
            old(self).wf(),
            columns@.len() == old(self).b_trees@.len(),
        ensures
            final(self).wf(),
            final(self).b_trees@.len() == old(self).b_trees@.len(),
            final(self).enabled == old(self).enabled,
            forall|c: int|
                0 <= c < columns@.len() && columns@[c] is Some && has_value(
                    old(self).b_trees@[c].entries@,
                    columns@[c].unwrap(),
                ) ==> index_removed(
                    old(self).b_trees@[c],
                    #[trigger] final(self).b_trees@[c],
                    columns@[c].unwrap(),
                    rid,
                ),
            forall|c: int|
                0 <= c < columns@.len() && (columns@[c] is None || !has_value(
                    old(self).b_trees@[c].entries@,
                    columns@[c].unwrap(),
                )) ==> final(self).b_trees@[c] == old(self).b_trees@[c],
    {
        let ghost pre = *self;
        let mut c: usize = 0;
        while c < columns.len()
            invariant
                self.wf(),
                pre.wf(),
                c <= columns@.len(),
                columns@.len() == pre.b_trees@.len() == self.b_trees@.len(),
                self.enabled == pre.enabled,
                forall|k: int|
                    0 <= k < c && columns@[k] is Some && has_value(
                        pre.b_trees@[k].entries@,
                        columns@[k].unwrap(),
                    ) ==> index_removed(
                        pre.b_trees@[k],
                        #[trigger] self.b_trees@[k],
                        columns@[k].unwrap(),
                        rid,
                    ),
                forall|k: int|
                    0 <= k < c && (columns@[k] is None || !has_value(
                        pre.b_trees@[k].entries@,
                        columns@[k].unwrap(),
                    )) ==> self.b_trees@[k] == pre.b_trees@[k],
                forall|k: int| c <= k < columns@.len() ==> self.b_trees@[k] == pre.b_trees@[k],
            decreases columns@.len() - c,
        {
            match columns[c] {
                Some(v) => {
                    self.b_trees[c].remove(v, rid);
                },
                None => {},
            }
            c = c + 1;
        }
    }
}

/// Represents a **logical** base or tail page: one physical page per
/// column, all advancing in lock-step so that offsets match across
/// columns. Whether a logical page holds base or tail rows is decided by
/// the page-range vector that owns it; only base pages ever have their
/// indirection cells overwritten.
pub struct LogicalPage {
    /// Physical page identifiers, one per column (user columns followed
    /// by the indirection column).
    pub columns: Vec<PhysicalPageID>,
}

impl LogicalPage {
    /// The identifier of the table this logical page belongs to.
    pub open spec fn tid(self) -> usize {
        self.columns@[0].table_identifier
    }

    /// The common page index of this logical page's physical pages.
    pub open spec fn index(self) -> int {
        self.columns@[0].page_index as int
    }

    /// The common write cursor of this logical page's physical pages.
    pub open spec fn cursor(self, bp: BufferPool) -> int {
        BufferPool::view_cursor(bp.page_at(self.columns@[0]))
    }

    /// The cell of column `c` at offset `off`.
    pub open spec fn cell(self, bp: BufferPool, c: int, off: int) -> Option<i64> {
        bp.page_at(self.columns@[c])[off]
    }

    /// A logical page owns one allocated physical page per column, all in
    /// the same column order and position of their files, with equal
    /// cursors.
    pub open spec fn wf(self, bp: BufferPool) -> bool {
        &&& self.columns@.len() >= 2
        &&& forall|c: int|
            0 <= c < self.columns@.len() ==> (#[trigger] self.columns@[c])
                == (PhysicalPageID {
                table_identifier: self.tid(),
                column_index: c as usize,
                page_index: self.columns@[0].page_index,
            })
        &&& forall|c: int| 0 <= c < self.columns@.len() ==> bp.is_allocated(
            #[trigger] self.columns@[c],
        )
        &&& forall|c: int|
            0 <= c < self.columns@.len() ==> BufferPool::view_cursor(
                bp.page_at(#[trigger] self.columns@[c]),
            ) == self.cursor(bp)
        &&& 0 <= self.cursor(bp) <= CELLS_PER_PAGE - 1
    }

    /// Copy this logical page's descriptor.
    pub fn duplicate(&self) -> (r: Self)
        ensures
            r.columns@ == self.columns@,
    {
        let mut columns: Vec<PhysicalPageID> = Vec::new();
        let mut c: usize = 0;
        while c < self.columns.len()
            invariant
                c == columns@.len() <= self.columns@.len(),
                forall|k: int| 0 <= k < c ==> columns@[k] == self.columns@[k],
            decreases self.columns@.len() - c,
        {
            columns.push(self.columns[c]);
            c = c + 1;
        }
        let r = LogicalPage { columns };
        proof {
            assert(r.columns@ =~= self.columns@);
        }
        r
    }

    /// Create a new logical page with `num_columns` columns, allocating
    /// one fresh physical page per column.
    pub fn new(table_id: usize, num_columns: usize, bp: &mut BufferPool) -> (r: Self)
        requires
            old(bp).wf(),
            table_id < old(bp).store@.len(),
            2 <= num_columns <= old(bp).store@[table_id as int]@.len(),
            forall|c: int|
                0 <= c < num_columns ==> #[trigger] old(bp).store@[table_id as int]@[c]@.len()
                    == old(bp).store@[table_id as int]@[0]@.len(),
        ensures
            final(bp).wf(),
            final(bp).names() == old(bp).names(),
            r.wf(*final(bp)),
            r.tid() == table_id,
            r.columns@.len() == num_columns,
            r.cursor(*final(bp)) == 0,
            r.index() == old(bp).store@[table_id as int]@[0]@.len(),
            forall|c: int| 0 <= c < num_columns ==> !old(bp).is_allocated(#[trigger] r.columns@[c]),
            forall|x: PhysicalPageID| old(bp).is_allocated(x) ==> final(bp).is_allocated(x)
                && #[trigger] final(bp).page_at(x) == old(bp).page_at(x),
            forall|x: PhysicalPageID| final(bp).is_allocated(x) ==> old(bp).is_allocated(x) || (
            exists|c: int| 0 <= c < num_columns && r.columns@[c] == x),
            final(bp).store@.len() == old(bp).store@.len(),
            forall|t: int| 0 <= t < old(bp).store@.len() ==> #[trigger] final(bp).store@[t]@.len()
                == old(bp).store@[t]@.len(),
            forall|t: int, c: int|
                0 <= t < old(bp).store@.len() && 0 <= c < old(bp).store@[t]@.len() && !(t
                    == table_id && c < num_columns) ==> #[trigger] final(bp).store@[t]@[c]@.len()
                    == old(bp).store@[t]@[c]@.len(),
            forall|c: int|
                0 <= c < num_columns ==> #[trigger] final(bp).store@[table_id as int]@[c]@.len()
                    == old(bp).store@[table_id as int]@[c]@.len() + 1,
    {
        let ghost pre = *bp;
        let columns = bp.allocate_pages(table_id, num_columns);
        let r = LogicalPage { columns };
        proof {
            assert(r.columns@[0].page_index == pre.store@[table_id as int]@[0]@.len());
            assert forall|c: int|
                0 <= c < num_columns implies (#[trigger] r.columns@[c]) == (PhysicalPageID {
                table_identifier: r.tid(),
                column_index: c as usize,
                page_index: r.columns@[0].page_index,
            }) by {
                assert(pre.store@[table_id as int]@[c]@.len() == pre.store@[table_id as int]@[
                    0
                ]@.len());
            }
            assert forall|c: int|
                0 <= c < num_columns implies BufferPool::view_cursor(
                final(bp).page_at(#[trigger] r.columns@[c]),
            ) == 0 by {
                assert(final(bp).page_at(r.columns@[c]) == crate::bufferpool::empty_page_view());
            }
            assert(r.cursor(*final(bp)) == 0);
        }
        r
    }

    /// The cells selected by a projection: for each column whose
    /// projection bit is set, the cell of that column at the offset.
    pub open spec fn proj_cells_from(
        self,
        bp: BufferPool,
        off: int,
        proj: Seq<usize>,
        c: int,
    ) -> Seq<Option<i64>>
        decreases proj.len() - c when c <= proj.len()
    {
        if c >= proj.len() {
            Seq::empty()
        } else {
            (if proj[c] != 0 {
                seq![self.cell(bp, c, off)]
            } else {
                Seq::empty()
            }) + self.proj_cells_from(bp, off, proj, c + 1)
        }
    }

    /// The cells selected by a projection, over all columns.
    pub open spec fn proj_cells(self, bp: BufferPool, off: int, proj: Seq<usize>) -> Seq<
        Option<i64>,
    > {
        self.proj_cells_from(bp, off, proj, 0)
    }

    /// Read from every projected column in this logical page given an
    /// offset. Reading the cursor cell or beyond fails.
    pub fn read(&self, bp: &mut BufferPool, offset: Offset, projection: &Vec<usize>) -> (r: Result<
        Vec<Option<i64>>,
        DatabaseError,
    >)
        requires
            old(bp).wf(),
            self.wf(*old(bp)),
            projection@.len() <= self.columns@.len(),
        ensures
            final(bp).wf(),
            self.wf(*final(bp)),
            BufferPool::preserves(*old(bp), *final(bp)),
            BufferPool::same_files(*old(bp), *final(bp)),
            offset < CELLS_PER_PAGE - 1 ==> (r matches Ok(v) && v@ == self.proj_cells(
                *old(bp),
                offset as int,
                projection@,
            )),
            offset >= CELLS_PER_PAGE - 1 ==> r == Err::<Vec<Option<i64>>, DatabaseError>(
                DatabaseError::OffsetOOB,
            ),
    {
        let ghost pre = *bp;
        if offset >= CELLS_PER_PAGE - 1 {
            return Err(DatabaseError::OffsetOOB);
        }
        let mut result: Vec<Option<i64>> = Vec::new();
        let mut i: usize = 0;
        while i < projection.len()
            invariant
                bp.wf(),
                pre.wf(),
                self.wf(pre),
                BufferPool::preserves(pre, *bp),
                BufferPool::same_files(pre, *bp),
                self.wf(*bp),
                i <= projection@.len() <= self.columns@.len(),
                offset < CELLS_PER_PAGE - 1,
                result@ + self.proj_cells_from(pre, offset as int, projection@, i as int)
                    == self.proj_cells(pre, offset as int, projection@),
            decreases projection@.len() - i,
        {
            let ghost before = result@;
            if projection[i] != 0 {
                match bp.read(self.columns[i], offset) {
                    Ok(v) => {
                        result.push(v);
                        proof {
                            assert(bp.page_at(self.columns@[i as int]) == pre.page_at(
                                self.columns@[i as int],
                            ));
                        }
                    },
                    Err(e) => {
                        proof {
                            assert(false);
                        }
                        return Err(e);
                    },
                }
            }
            proof {
                assert(before + self.proj_cells_from(pre, offset as int, projection@, i as int)
                    =~= result@ + self.proj_cells_from(pre, offset as int, projection@, i + 1));
            }
            i = i + 1;
        }
        proof {
            assert(result@ + self.proj_cells_from(pre, offset as int, projection@, i as int)
                =~= result@);
        }
        Ok(result)
    }

    /// Insert a new row: append one value to every column at the common
    /// cursor position. Fails with no change when the page is full.
    pub fn insert(&self, bp: &mut BufferPool, values: &Vec<Option<i64>>) -> (r: Result<
        Offset,
        DatabaseError,
    >)
        requires
            old(bp).wf(),
            self.wf(*old(bp)),
            values@.len() == self.columns@.len(),
        ensures
            final(bp).wf(),
            self.wf(*final(bp)),
            final(bp).names() == old(bp).names(),
            BufferPool::same_files(*old(bp), *final(bp)),
            forall|x: PhysicalPageID| old(bp).is_allocated(x) <==> final(bp).is_allocated(x),
            self.cursor(*old(bp)) < CELLS_PER_PAGE - 1 ==> {
                &&& r == Ok::<Offset, DatabaseError>(self.cursor(*old(bp)) as Offset)
                &&& self.cursor(*final(bp)) == self.cursor(*old(bp)) + 1
                &&& forall|c: int|
                    0 <= c < self.columns@.len() ==> final(bp).page_at(#[trigger] self.columns@[c])
                        == old(bp).page_at(self.columns@[c]).update(
                        self.cursor(*old(bp)),
                        values@[c],
                    ).update(CELLS_PER_PAGE - 1, Some((self.cursor(*old(bp)) + 1) as i64))
            },
            self.cursor(*old(bp)) >= CELLS_PER_PAGE - 1 ==> {
                &&& r == Err::<Offset, DatabaseError>(DatabaseError::OffsetOOB)
                &&& BufferPool::preserves(*old(bp), *final(bp))
            },
            forall|x: PhysicalPageID|
                old(bp).is_allocated(x) && !(x.table_identifier == self.tid() && x.column_index
                    < self.columns@.len() && x.page_index == self.columns@[0].page_index)
                    ==> #[trigger] final(bp).page_at(x) == old(bp).page_at(x),
    {
        let ghost pre = *bp;
        let first = bp.request_page(self.columns[0]);
        let cursor = first.cursor_slot();
        if cursor >= CELLS_PER_PAGE - 1 {
            return Err(DatabaseError::OffsetOOB);
        }
        let ghost cur = self.cursor(pre) as int;
        let mut c: usize = 0;
        while c < self.columns.len()
            invariant
                bp.wf(),
                pre.wf(),
                self.wf(pre),
                c <= self.columns@.len(),
                values@.len() == self.columns@.len(),
                cur == self.cursor(pre),
                0 <= cur < CELLS_PER_PAGE - 1,
                bp.names() == pre.names(),
                BufferPool::same_files(pre, *bp),
                forall|x: PhysicalPageID| pre.is_allocated(x) <==> bp.is_allocated(x),
                forall|k: int|
                    0 <= k < c ==> bp.page_at(#[trigger] self.columns@[k]) == pre.page_at(
                        self.columns@[k],
                    ).update(cur, values@[k]).update(CELLS_PER_PAGE - 1, Some((cur + 1) as i64)),
                forall|x: PhysicalPageID|
                    pre.is_allocated(x) && !(x.table_identifier == self.tid() && x.column_index < c
                        && x.page_index == self.columns@[0].page_index) ==> #[trigger] bp.page_at(x)
                        == pre.page_at(x),
            decreases self.columns@.len() - c,
        {
            proof {
                assert(self.columns@[c as int].column_index == c);
                assert(bp.page_at(self.columns@[c as int]) == pre.page_at(self.columns@[c as int]));
                assert(BufferPool::view_cursor(pre.page_at(self.columns@[c as int])) == cur);
            }
            match bp.write_next_value(self.columns[c], values[c]) {
                Ok(_) => {},
                Err(_) => {
                    proof {
                        assert(false);
                    }
                },
            }
            proof {
                assert forall|k: int|
                    0 <= k < c + 1 implies bp.page_at(#[trigger] self.columns@[k]) == pre.page_at(
                        self.columns@[k],
                    ).update(cur, values@[k]).update(
                    CELLS_PER_PAGE - 1,
                    Some((cur + 1) as i64),
                ) by {
                    if k < c {
                        assert(self.columns@[k] != self.columns@[c as int]);
                    }
                }
            }
            c = c + 1;
        }
        proof {
            assert forall|k: int|
                0 <= k < self.columns@.len() implies BufferPool::view_cursor(
                bp.page_at(#[trigger] self.columns@[k]),
            ) == cur + 1 by {
                pre.lemma_page_at_wf(self.columns@[k]);
                assert(bp.page_at(self.columns@[k]) == pre.page_at(self.columns@[k]).update(
                    cur,
                    values@[k],
                ).update(CELLS_PER_PAGE - 1, Some((cur + 1) as i64)));
            }
            assert(self.cursor(*bp) == cur + 1);
            assert(self.wf(*bp));
        }
        Ok(cursor)
    }



    /// An all-ones projection reads every cell of the row in column
    /// order.
    pub proof fn lemma_proj_cells_ones(self, bp: BufferPool, off: int, proj: Seq<usize>, c: int)
        requires
            proj.len() <= self.columns@.len(),
            forall|k: int| 0 <= k < proj.len() ==> proj[k] != 0,
            0 <= c <= proj.len(),
        ensures
            self.proj_cells_from(bp, off, proj, c).len() == proj.len() - c,
            forall|k: int|
                c <= k < proj.len() ==> self.proj_cells_from(bp, off, proj, c)[k - c]
                    == #[trigger] self.cell(bp, k, off),
        decreases proj.len() - c,
    {
        if c < proj.len() {
            self.lemma_proj_cells_ones(bp, off, proj, c + 1);
            let rest = self.proj_cells_from(bp, off, proj, c + 1);
            assert(self.proj_cells_from(bp, off, proj, c) =~= seq![self.cell(bp, c, off)] + rest);
            assert forall|k: int|
                c <= k < proj.len() implies self.proj_cells_from(bp, off, proj, c)[k - c]
                == #[trigger] self.cell(bp, k, off) by {
                if k > c {
                    assert(rest[k - (c + 1)] == self.cell(bp, k, off));
                    assert((seq![self.cell(bp, c, off)] + rest)[k - c] == rest[k - c - 1]);
                }
            }
        }
    }

    /// When the final projection bit is set, the projected cells are
    /// non-empty and end with the final column's cell.
    pub proof fn lemma_proj_cells_last(self, bp: BufferPool, off: int, proj: Seq<usize>, c: int)
        requires
            proj.len() == self.columns@.len(),
            proj[proj.len() - 1] != 0,
            0 <= c < proj.len(),
        ensures
            self.proj_cells_from(bp, off, proj, c).len() >= 1,
            self.proj_cells_from(bp, off, proj, c).last() == self.cell(
                bp,
                proj.len() - 1,
                off,
            ),
        decreases proj.len() - c,
    {
        if c == proj.len() - 1 {
            assert(self.proj_cells_from(bp, off, proj, c + 1) =~= Seq::<Option<i64>>::empty());
            assert(self.proj_cells_from(bp, off, proj, c) =~= seq![self.cell(bp, c, off)]);
        } else {
            self.lemma_proj_cells_last(bp, off, proj, c + 1);
            let rest = self.proj_cells_from(bp, off, proj, c + 1);
            if proj[c] != 0 {
                assert(self.proj_cells_from(bp, off, proj, c) =~= seq![
                    self.cell(bp, c, off),
                ] + rest);
            } else {
                assert(self.proj_cells_from(bp, off, proj, c) =~= rest);
            }
        }
    }

    /// Two pools that agree on this logical page's cells yield the same
    /// projected cells.
    pub proof fn lemma_proj_cells_stable(self, pre: BufferPool, post: BufferPool, off: int, proj: Seq<usize>, c: int)
        requires
            proj.len() <= self.columns@.len(),
            forall|k: int| 0 <= k < self.columns@.len() ==> post.page_at(
                #[trigger] self.columns@[k],
            ) == pre.page_at(self.columns@[k]),
            0 <= c <= proj.len(),
        ensures
            self.proj_cells_from(post, off, proj, c) == self.proj_cells_from(pre, off, proj, c),
        decreases proj.len() - c,
    {
        if c < proj.len() {
            self.lemma_proj_cells_stable(pre, post, off, proj, c + 1);
            assert(self.cell(post, c, off) == self.cell(pre, c, off));
            assert(self.proj_cells_from(post, off, proj, c) =~= self.proj_cells_from(
                pre,
                off,
                proj,
                c,
            ));
        } else {
            assert(self.proj_cells_from(post, off, proj, c) =~= self.proj_cells_from(
                pre,
                off,
                proj,
                c,
            ));
        }
    }

    /// Overwrite the indirection cell of the row at `offset` without
    /// moving the cursor. The indirection column is the last column.
    pub fn update_indirection(&self, bp: &mut BufferPool, offset: Offset, new_rid: RID) -> (r:
        Result<(), DatabaseError>)
        requires
            old(bp).wf(),
            self.wf(*old(bp)),
            new_rid <= 0x7fff_ffff_ffff_ffff,
        ensures
            final(bp).wf(),
            self.wf(*final(bp)),
            final(bp).names() == old(bp).names(),
            BufferPool::same_files(*old(bp), *final(bp)),
            forall|x: PhysicalPageID| old(bp).is_allocated(x) <==> final(bp).is_allocated(x),
            offset < CELLS_PER_PAGE - 1 ==> {
                &&& r == Ok::<(), DatabaseError>(())
                &&& final(bp).page_at(self.columns@[self.columns@.len() - 1]) == old(bp).page_at(
                    self.columns@[self.columns@.len() - 1],
                ).update(offset as int, Some(new_rid as i64))
            },
            offset >= CELLS_PER_PAGE - 1 ==> {
                &&& r == Err::<(), DatabaseError>(DatabaseError::OffsetOOB)
                &&& BufferPool::preserves(*old(bp), *final(bp))
            },
            forall|x: PhysicalPageID|
                old(bp).is_allocated(x) && x != self.columns@[self.columns@.len() - 1]
                    ==> #[trigger] final(bp).page_at(x) == old(bp).page_at(x),
            self.cursor(*final(bp)) == self.cursor(*old(bp)),
    {
        let ghost pre = *bp;
        let indirection_column = self.columns[self.columns.len() - 1];
        let r = bp.write_value(indirection_column, offset, Some(new_rid as i64));
        proof {
            if offset < CELLS_PER_PAGE - 1 {
                assert forall|c: int|
                    0 <= c < self.columns@.len() implies BufferPool::view_cursor(
                    bp.page_at(#[trigger] self.columns@[c]),
                ) == self.cursor(pre) by {
                    pre.lemma_page_at_wf(self.columns@[c]);
                    if self.columns@[c] == indirection_column {
                        assert(bp.page_at(self.columns@[c]) == pre.page_at(
                            self.columns@[c],
                        ).update(offset as int, Some(new_rid as i64)));
                    } else {
                        assert(bp.page_at(self.columns@[c]) == pre.page_at(self.columns@[c]));
                    }
                }
            }
        }
        r
    }
}

/// Represents a page range: a bounded set of base logical pages and an
/// unbounded set of tail logical pages, plus the tail-page sequence
/// watermark and the update counter that triggers merges.
pub struct PageRange {
    /// The identifier of the table this page range belongs to.
    pub table_identifier: usize,

    /// The base logical pages of this range; their count never exceeds
    /// `BASE_PAGES_PER_RANGE`.
    pub base_pages: Vec<LogicalPage>,

    /// The tail logical pages of this range; unbounded.
    pub tail_pages: Vec<LogicalPage>,

    /// Index of the base page currently accepting rows. Once it reaches
    /// `BASE_PAGES_PER_RANGE`, this page range accepts no more base rows.
    pub next_base_page: usize,

    /// Number of columns, the indirection column included.
    pub num_columns: usize,

    /// Tail rows inserted since the last merge request.
    pub num_updates: usize,

    /// Tail-page sequence: the largest tail RID already merged into this
    /// range's base pages.
    pub tps: usize,
}

impl PageRange {
    /// Every page of the range is well formed, belongs to the right
    /// table, and the base-page count tracks the base-page cursor.
    pub open spec fn wf(self, bp: BufferPool) -> bool {
        &&& self.num_columns >= 2
        &&& self.tail_pages@.len() >= 1
        &&& self.next_base_page <= BASE_PAGES_PER_RANGE
        &&& (self.next_base_page < BASE_PAGES_PER_RANGE ==> self.base_pages@.len()
            == self.next_base_page + 1)
        &&& (self.next_base_page == BASE_PAGES_PER_RANGE ==> self.base_pages@.len()
            == BASE_PAGES_PER_RANGE)
        &&& forall|p: int| 0 <= p < self.base_pages@.len() ==> {
            &&& (#[trigger] self.base_pages@[p]).wf(bp)
            &&& self.base_pages@[p].tid() == self.table_identifier
            &&& self.base_pages@[p].columns@.len() == self.num_columns
        }
        &&& forall|p: int| 0 <= p < self.tail_pages@.len() ==> {
            &&& (#[trigger] self.tail_pages@[p]).wf(bp)
            &&& self.tail_pages@[p].tid() == self.table_identifier
            &&& self.tail_pages@[p].columns@.len() == self.num_columns
        }
        &&& forall|p1: int, p2: int|
            0 <= p1 < self.base_pages@.len() && 0 <= p2 < self.base_pages@.len() && p1 != p2
                ==> #[trigger] self.base_pages@[p1].index() != #[trigger] self.base_pages@[
                p2
            ].index()
        &&& forall|p1: int, p2: int|
            0 <= p1 < self.tail_pages@.len() && 0 <= p2 < self.tail_pages@.len() && p1 != p2
                ==> #[trigger] self.tail_pages@[p1].index() != #[trigger] self.tail_pages@[
                p2
            ].index()
        &&& forall|p1: int, p2: int|
            0 <= p1 < self.base_pages@.len() && 0 <= p2 < self.tail_pages@.len()
                ==> #[trigger] self.base_pages@[p1].index() != #[trigger] self.tail_pages@[
                p2
            ].index()
    }

    /// The column files of this range's table all have the same length.
    pub open spec fn files_even(bp: BufferPool, table_identifier: usize, num_columns: usize) -> bool {
        &&& table_identifier < bp.store@.len()
        &&& num_columns <= bp.store@[table_identifier as int]@.len()
        &&& forall|c: int|
            0 <= c < num_columns ==> #[trigger] bp.store@[table_identifier as int]@[c]@.len()
                == bp.store@[table_identifier as int]@[0]@.len()
    }

    /// Create a new page range with one base page and one tail page.
    pub fn new(table_identifier: usize, num_columns: usize, bp: &mut BufferPool) -> (r: Self)
        requires
            old(bp).wf(),
            num_columns >= 2,
            PageRange::files_even(*old(bp), table_identifier, num_columns),
        ensures
            final(bp).wf(),
            final(bp).names() == old(bp).names(),
            r.wf(*final(bp)),
            r.table_identifier == table_identifier,
            r.num_columns == num_columns,
            r.num_updates == 0,
            r.tps == 0,
            r.next_base_page == 0,
            r.base_pages@.len() == 1 && r.tail_pages@.len() == 1,
            r.base_pages@[0].cursor(*final(bp)) == 0,
            r.tail_pages@[0].cursor(*final(bp)) == 0,
            r.base_pages@[0].index() != r.tail_pages@[0].index(),
            forall|p: int, c: int|
                (0 <= p < 1 && 0 <= c < num_columns) ==> !old(bp).is_allocated(
                    #[trigger] r.base_pages@[p].columns@[c],
                ) && !old(bp).is_allocated(#[trigger] r.tail_pages@[p].columns@[c]),
            forall|x: PhysicalPageID| old(bp).is_allocated(x) ==> final(bp).is_allocated(x)
                && #[trigger] final(bp).page_at(x) == old(bp).page_at(x),
            PageRange::files_even(*final(bp), table_identifier, num_columns),
            final(bp).store@.len() == old(bp).store@.len(),
            forall|t: int| 0 <= t < old(bp).store@.len() ==> #[trigger] final(bp).store@[t]@.len()
                == old(bp).store@[t]@.len(),
            forall|t: int, c: int|
                0 <= t < old(bp).store@.len() && 0 <= c < old(bp).store@[t]@.len() && !(t
                    == table_identifier && c < num_columns) ==> #[trigger] final(bp).store@[t]@[c]@.len() == old(bp).store@[t]@[c]@.len(),
    {
        let base = LogicalPage::new(table_identifier, num_columns, bp);
        let ghost mid = *bp;
        let tail = LogicalPage::new(table_identifier, num_columns, bp);
        proof {
            assert(base.wf(*bp)) by {
                assert forall|c: int|
                    0 <= c < base.columns@.len() implies final(bp).is_allocated(
                    #[trigger] base.columns@[c],
                ) && final(bp).page_at(base.columns@[c]) == mid.page_at(base.columns@[c]) by {
                    assert(mid.is_allocated(base.columns@[c]));
                }
            }
            assert(base.cursor(*bp) == 0);
        }
        let mut base_pages: Vec<LogicalPage> = Vec::new();
        base_pages.push(base);
        let mut tail_pages: Vec<LogicalPage> = Vec::new();
        tail_pages.push(tail);
        PageRange {
            table_identifier,
            base_pages,
            tail_pages,
            next_base_page: 0,
            num_columns,
            num_updates: 0,
            tps: 0,
        }
    }

    /// Read an entire base record given the page index and physical
    /// offset.
    pub fn read_base_record(&self, bp: &mut BufferPool, page: usize, offset: Offset, projection: &Vec<usize>) -> (r: Result<Vec<Option<i64>>, DatabaseError>)
        requires
            old(bp).wf(),
            self.wf(*old(bp)),
            page < self.base_pages@.len(),
            projection@.len() <= self.num_columns,
        ensures
            final(bp).wf(),
            self.wf(*final(bp)),
            BufferPool::preserves(*old(bp), *final(bp)),
            BufferPool::same_files(*old(bp), *final(bp)),
            offset < CELLS_PER_PAGE - 1 ==> (r matches Ok(v) && v@ == self.base_pages@[
                page as int
            ].proj_cells(*old(bp), offset as int, projection@)),
            offset >= CELLS_PER_PAGE - 1 ==> r == Err::<Vec<Option<i64>>, DatabaseError>(
                DatabaseError::OffsetOOB,
            ),
    {
        self.base_pages[page].read(bp, offset, projection)
    }

    /// Read an entire tail record given the page index and physical
    /// offset.
    pub fn read_tail_record(&self, bp: &mut BufferPool, page: usize, offset: Offset, projection: &Vec<usize>) -> (r: Result<Vec<Option<i64>>, DatabaseError>)
        requires
            old(bp).wf(),
            self.wf(*old(bp)),
            page < self.tail_pages@.len(),
            projection@.len() <= self.num_columns,
        ensures
            final(bp).wf(),
            self.wf(*final(bp)),
            BufferPool::preserves(*old(bp), *final(bp)),
            BufferPool::same_files(*old(bp), *final(bp)),
            offset < CELLS_PER_PAGE - 1 ==> (r matches Ok(v) && v@ == self.tail_pages@[
                page as int
            ].proj_cells(*old(bp), offset as int, projection@)),
            offset >= CELLS_PER_PAGE - 1 ==> r == Err::<Vec<Option<i64>>, DatabaseError>(
                DatabaseError::OffsetOOB,
            ),
    {
        self.tail_pages[page].read(bp, offset, projection)
    }

    /// Update the indirection column of a base record given its address
    /// and the new RID.
    pub fn update_base_indirection(&self, bp: &mut BufferPool, address: Address, new_rid: RID) -> (r: Result<(), DatabaseError>)
        requires
            old(bp).wf(),
            self.wf(*old(bp)),
            address.page < self.base_pages@.len(),
            new_rid <= 0x7fff_ffff_ffff_ffff,
        ensures
            final(bp).wf(),
            self.wf(*final(bp)),
            final(bp).names() == old(bp).names(),
            BufferPool::same_files(*old(bp), *final(bp)),
            forall|x: PhysicalPageID| old(bp).is_allocated(x) <==> final(bp).is_allocated(x),
            address.offset < CELLS_PER_PAGE - 1 ==> {
                &&& r == Ok::<(), DatabaseError>(())
                &&& final(bp).page_at(
                    self.base_pages@[address.page as int].columns@[self.num_columns - 1],
                ) == old(bp).page_at(
                    self.base_pages@[address.page as int].columns@[self.num_columns - 1],
                ).update(address.offset as int, Some(new_rid as i64))
            },
            address.offset >= CELLS_PER_PAGE - 1 ==> {
                &&& r == Err::<(), DatabaseError>(DatabaseError::OffsetOOB)
                &&& BufferPool::preserves(*old(bp), *final(bp))
            },
            forall|x: PhysicalPageID|
                old(bp).is_allocated(x) && x != self.base_pages@[address.page as int].columns@[
                    self.num_columns - 1
                ] ==> #[trigger] final(bp).page_at(x) == old(bp).page_at(x),
            self.base_pages@[address.page as int].cursor(*final(bp)) == self.base_pages@[
                address.page as int
            ].cursor(*old(bp)),
    {
        self.base_pages[address.page].update_indirection(bp, address.offset, new_rid)
    }

    /// A base row can no longer be accepted: the base-page cursor has
    /// reached the bound and the current page is full.
    pub open spec fn base_full(self, bp: BufferPool) -> bool {
        self.next_base_page == BASE_PAGES_PER_RANGE || (self.next_base_page
            == BASE_PAGES_PER_RANGE - 1 && self.base_pages@.last().cursor(bp) >= CELLS_PER_PAGE
            - 1)
    }

    /// Insert a base record into this page range. Returns the logical
    /// page index and physical offset if successful; fails with
    /// `PageRangeFilled` when the base-page cursor has reached the bound
    /// and the current page is full.
    pub fn insert_base(&mut self, bp: &mut BufferPool, values: &Vec<Option<i64>>) -> (r: Result<
        (usize, Offset),
        DatabaseError,
    >)
        requires
            old(bp).wf(),
            old(self).wf(*old(bp)),
            values@.len() == old(self).num_columns,
            PageRange::files_even(*old(bp), old(self).table_identifier, old(self).num_columns),
        ensures
            final(bp).wf(),
            final(self).wf(*final(bp)),
            final(bp).names() == old(bp).names(),
            final(self).table_identifier == old(self).table_identifier,
            final(self).num_columns == old(self).num_columns,
            final(self).num_updates == old(self).num_updates,
            final(self).tps == old(self).tps,
            final(self).tail_pages == old(self).tail_pages,
            PageRange::files_even(
                *final(bp),
                old(self).table_identifier,
                old(self).num_columns,
            ),
            forall|x: PhysicalPageID| old(bp).is_allocated(x) ==> final(bp).is_allocated(x),
            // A filled range is reported and leaves every page unchanged.
            old(self).base_full(*old(bp)) ==> {
                &&& r == Err::<(usize, Offset), DatabaseError>(DatabaseError::PageRangeFilled)
                &&& BufferPool::preserves(*old(bp), *final(bp))
                &&& final(self).base_pages == old(self).base_pages
                &&& final(self).next_base_page == BASE_PAGES_PER_RANGE
            },
            // Room in the current base page: the row lands there.
            !old(self).base_full(*old(bp)) && old(self).base_pages@.last().cursor(*old(bp))
                < CELLS_PER_PAGE - 1 ==> {
                &&& r == Ok::<(usize, Offset), DatabaseError>(
                    (
                        old(self).next_base_page,
                        old(self).base_pages@.last().cursor(*old(bp)) as Offset,
                    ),
                )
                &&& final(self).base_pages == old(self).base_pages
                &&& final(self).next_base_page == old(self).next_base_page
                &&& forall|x: PhysicalPageID| old(bp).is_allocated(x) <==> final(bp).is_allocated(x)
            },
            // The current page is full but the bound is not reached: a
            // fresh base page takes the row at offset zero.
            !old(self).base_full(*old(bp)) && old(self).base_pages@.last().cursor(*old(bp))
                >= CELLS_PER_PAGE - 1 ==> {
                &&& r == Ok::<(usize, Offset), DatabaseError>(
                    (
                        (old(self).next_base_page + 1) as usize,
                        0usize,
                    ),
                )
                &&& final(self).next_base_page == old(self).next_base_page + 1
                &&& final(self).base_pages@.len() == old(self).base_pages@.len() + 1
                &&& forall|p: int|
                    0 <= p < old(self).base_pages@.len() ==> final(self).base_pages@[p] == old(self).base_pages@[p]
                &&& forall|c: int|
                    0 <= c < old(self).num_columns ==> !old(bp).is_allocated(
                        #[trigger] final(self).base_pages@.last().columns@[c],
                    )
            },
            // On success the row stands at the returned page and offset.
            r matches Ok(po) ==> {
                &&& po.0 == final(self).next_base_page < final(self).base_pages@.len()
                &&& po.1 == final(self).base_pages@[po.0 as int].cursor(*final(bp)) - 1
                &&& final(self).base_pages@[po.0 as int].cursor(*final(bp)) == po.1 + 1
                &&& forall|c: int|
                    0 <= c < old(self).num_columns ==> final(self).base_pages@[
                        po.0 as int
                    ].cell(*final(bp), c, po.1 as int) == values@[c]
                &&& forall|x: PhysicalPageID|
                    old(bp).is_allocated(x) && !(x.table_identifier == old(self).table_identifier && x.column_index < old(self).num_columns && x.page_index
                        == final(self).base_pages@[po.0 as int].columns@[0].page_index)
                        ==> #[trigger] final(bp).page_at(x) == old(bp).page_at(x)
            },
            r is Err ==> r == Err::<(usize, Offset), DatabaseError>(DatabaseError::PageRangeFilled)
                && old(self).base_full(*old(bp)),
            forall|c: int, off: int, p: int|
                #![trigger final(self).base_pages@[p].cell(*final(bp), c, off)]
                0 <= c < old(self).num_columns && 0 <= p < old(self).base_pages@.len() && 0 <= off
                    && (match r {
                    Ok(po) => !(p == po.0 && off >= po.1),
                    Err(_) => true,
                }) ==> final(self).base_pages@[p].cell(*final(bp), c, off) == old(self).base_pages@[p].cell(*old(bp), c, off),
            final(bp).store@.len() == old(bp).store@.len(),
            forall|t: int| 0 <= t < old(bp).store@.len() ==> #[trigger] final(bp).store@[t]@.len()
                == old(bp).store@[t]@.len(),
            forall|t: int, c: int|
                0 <= t < old(bp).store@.len() && 0 <= c < old(bp).store@[t]@.len() && !(t == old(self).table_identifier && c < old(self).num_columns) ==> #[trigger] final(bp).store@[t]@[c]@.len() == old(bp).store@[t]@[c]@.len(),
    {
        if self.next_base_page >= BASE_PAGES_PER_RANGE {
            return Err(DatabaseError::PageRangeFilled);
        }
        let ghost pre_self = *old(self);
        let ghost pre_bp0 = *old(bp);

        // We still have at least one base page left to fill: try to
        // insert the record into the current base page.
        let current = self.base_pages.len() - 1;
        let ghost pre_bp = *bp;
        match self.base_pages[current].insert(bp, values) {
            Ok(offset) => {
                proof {
                    assert forall|c: int|
                        0 <= c < self.num_columns implies self.base_pages@[current as int].cell(
                        *bp,
                        c,
                        offset as int,
                    ) == values@[c] by {
                        pre_bp.lemma_page_at_wf(self.base_pages@[current as int].columns@[c]);
                    }
                    assert forall|p: int|
                        0 <= p < self.base_pages@.len() implies (
                    #[trigger] self.base_pages@[p]).wf(*bp) by {
                        if p != current {
                            assert(self.base_pages@[p].wf(pre_bp));
                            assert(self.base_pages@[p].index() != self.base_pages@[
                                current as int
                            ].index());
                            PageRange::lemma_lp_stable(
                                self.base_pages@[p],
                                pre_bp,
                                *bp,
                                self.base_pages@[current as int],
                            );
                        }
                    }
                    assert forall|p: int|
                        0 <= p < self.tail_pages@.len() implies (
                    #[trigger] self.tail_pages@[p]).wf(*bp) by {
                        assert(self.tail_pages@[p].wf(pre_bp));
                        assert(self.tail_pages@[p].index() != self.base_pages@[
                            current as int
                        ].index());
                        PageRange::lemma_lp_stable(
                            self.tail_pages@[p],
                            pre_bp,
                            *bp,
                            self.base_pages@[current as int],
                        );
                    }
                }
                proof {
                    assert forall|c: int, off: int, p: int|
                        0 <= c < pre_self.num_columns && 0 <= p < pre_self.base_pages@.len() && 0
                            <= off && !(p == current && off >= offset) implies #[trigger] self.base_pages@[p].cell(*bp, c, off) == pre_self.base_pages@[p].cell(
                        pre_bp0,
                        c,
                        off,
                    ) by {
                        if p == current {
                            pre_bp0.lemma_page_at_wf(self.base_pages@[p].columns@[c]);
                        } else {
                            assert(self.base_pages@[p].index() != self.base_pages@[
                                current as int
                            ].index());
                            PageRange::lemma_lp_stable(
                                self.base_pages@[p],
                                pre_bp0,
                                *bp,
                                self.base_pages@[current as int],
                            );
                        }
                    }
                }
                Ok((current, offset))
            },
            Err(_) => {
                // The current base page is out of space.
                if self.next_base_page + 1 >= BASE_PAGES_PER_RANGE {
                    // The bound is reached too: the range is filled.
                    self.next_base_page = BASE_PAGES_PER_RANGE;
                    proof {
                        assert forall|c: int, off: int, p: int|
                            0 <= c < pre_self.num_columns && 0 <= p < pre_self.base_pages@.len()
                                && 0 <= off implies #[trigger] self.base_pages@[p].cell(
                            *bp,
                            c,
                            off,
                        ) == pre_self.base_pages@[p].cell(pre_bp0, c, off) by {
                            PageRange::lemma_lp_preserved(self.base_pages@[p], pre_bp0, *bp);
                        }
                    }
                    return Err(DatabaseError::PageRangeFilled);
                }

                // Create a fresh base page and insert there.
                let ghost mid_bp = *bp;
                let fresh = LogicalPage::new(self.table_identifier, self.num_columns, bp);
                let ghost bp2 = *bp;
                let r2 = fresh.insert(bp, values);
                let offset = match r2 {
                    Ok(o) => o,
                    Err(_) => {
                        proof {
                            assert(false);
                        }
                        0
                    },
                };
                self.next_base_page = self.next_base_page + 1;
                self.base_pages.push(fresh);
                proof {
                    let post_bp = *bp;
                    assert(offset == 0);
                    // The fresh page's pages were not allocated before, so
                    // its index differs from every existing page's.
                    assert forall|p: int|
                        0 <= p < self.base_pages@.len() - 1 implies #[trigger] self.base_pages@[
                        p
                    ].index() != fresh.index() by {
                        if self.base_pages@[p].index() == fresh.index() {
                            assert(self.base_pages@[p].columns@[0] == fresh.columns@[0]);
                            assert(mid_bp.is_allocated(self.base_pages@[p].columns@[0]));
                        }
                    }
                    assert forall|p: int|
                        0 <= p < self.tail_pages@.len() implies #[trigger] self.tail_pages@[
                        p
                    ].index() != fresh.index() by {
                        if self.tail_pages@[p].index() == fresh.index() {
                            assert(self.tail_pages@[p].columns@[0] == fresh.columns@[0]);
                            assert(mid_bp.is_allocated(self.tail_pages@[p].columns@[0]));
                        }
                    }
                    assert forall|c: int|
                        0 <= c < self.num_columns implies fresh.cell(post_bp, c, 0) == values@[
                        c
                    ] by {
                        bp2.lemma_page_at_wf(fresh.columns@[c]);
                    }
                    assert forall|p: int|
                        0 <= p < self.base_pages@.len() implies (
                    #[trigger] self.base_pages@[p]).wf(post_bp) by {
                        if p < self.base_pages@.len() - 1 {
                            assert(self.base_pages@[p].wf(pre_bp));
                            PageRange::lemma_lp_preserved(self.base_pages@[p], pre_bp, mid_bp);
                            PageRange::lemma_lp_preserved(self.base_pages@[p], mid_bp, bp2);
                            assert(self.base_pages@[p].index() != fresh.index());
                            PageRange::lemma_lp_stable(self.base_pages@[p], bp2, post_bp, fresh);
                        } else {
                            assert(self.base_pages@[p] == fresh);
                        }
                    }
                    assert forall|p: int|
                        0 <= p < self.tail_pages@.len() implies (
                    #[trigger] self.tail_pages@[p]).wf(post_bp) by {
                        assert(self.tail_pages@[p].wf(pre_bp));
                        PageRange::lemma_lp_preserved(self.tail_pages@[p], pre_bp, mid_bp);
                        PageRange::lemma_lp_preserved(self.tail_pages@[p], mid_bp, bp2);
                        assert(self.tail_pages@[p].index() != fresh.index());
                        PageRange::lemma_lp_stable(self.tail_pages@[p], bp2, post_bp, fresh);
                    }
                }
                proof {
                    let post_bp = *bp;
                    assert forall|c: int, off: int, p: int|
                        0 <= c < pre_self.num_columns && 0 <= p < pre_self.base_pages@.len() && 0
                            <= off implies #[trigger] self.base_pages@[p].cell(post_bp, c, off)
                        == pre_self.base_pages@[p].cell(pre_bp0, c, off) by {
                        PageRange::lemma_lp_preserved(self.base_pages@[p], pre_bp0, mid_bp);
                        PageRange::lemma_lp_preserved(self.base_pages@[p], mid_bp, bp2);
                        assert(self.base_pages@[p].index() != fresh.index());
                        PageRange::lemma_lp_stable(self.base_pages@[p], bp2, post_bp, fresh);
                    }
                }
                Ok((self.next_base_page, offset))
            },
        }
    }

    /// A logical page keeps its well-formedness when another logical page
    /// of the same width takes a row, as long as the two pages differ.
    proof fn lemma_lp_stable(lp: LogicalPage, pre: BufferPool, post: BufferPool, written: LogicalPage)
        requires
            lp.wf(pre),
            forall|x: PhysicalPageID|
                pre.is_allocated(x) && !(x.table_identifier == written.tid() && x.column_index
                    < written.columns@.len() && x.page_index == written.columns@[0].page_index)
                    ==> #[trigger] post.page_at(x) == pre.page_at(x),
            forall|x: PhysicalPageID| pre.is_allocated(x) ==> post.is_allocated(x),
            lp.tid() != written.tid() || lp.columns@[0].page_index
                != written.columns@[0].page_index,
        ensures
            lp.wf(post),
            forall|c: int| 0 <= c < lp.columns@.len() ==> #[trigger] post.page_at(lp.columns@[c])
                == pre.page_at(lp.columns@[c]),
            lp.cursor(post) == lp.cursor(pre),
    {
        assert forall|c: int|
            0 <= c < lp.columns@.len() implies #[trigger] post.page_at(lp.columns@[c])
            == pre.page_at(lp.columns@[c]) by {
            assert(lp.columns@[c].table_identifier == lp.tid());
        }
    }

    /// A logical page keeps its well-formedness when a single physical
    /// page outside of it changes.
    proof fn lemma_lp_stable_ppid(lp: LogicalPage, pre: BufferPool, post: BufferPool, w: PhysicalPageID)
        requires
            lp.wf(pre),
            forall|x: PhysicalPageID| pre.is_allocated(x) <==> post.is_allocated(x),
            forall|x: PhysicalPageID| pre.is_allocated(x) && x != w ==> #[trigger] post.page_at(x)
                == pre.page_at(x),
            w.table_identifier != lp.tid() || w.page_index != lp.columns@[0].page_index,
        ensures
            lp.wf(post),
            lp.cursor(post) == lp.cursor(pre),
            forall|c: int, off: int| 0 <= c < lp.columns@.len() ==> lp.cell(post, c, off)
                == lp.cell(pre, c, off),
    {
        assert forall|c: int|
            0 <= c < lp.columns@.len() implies #[trigger] post.page_at(lp.columns@[c])
            == pre.page_at(lp.columns@[c]) by {
            assert(lp.columns@[c] != w);
        }
    }

    /// A logical page keeps its well-formedness when the pool changes
    /// without touching any already allocated page.
    proof fn lemma_lp_preserved(lp: LogicalPage, pre: BufferPool, post: BufferPool)
        requires
            lp.wf(pre),
            forall|x: PhysicalPageID| pre.is_allocated(x) ==> post.is_allocated(x),
            forall|x: PhysicalPageID| pre.is_allocated(x) ==> #[trigger] post.page_at(x)
                == pre.page_at(x),
        ensures
            lp.wf(post),
            lp.cursor(post) == lp.cursor(pre),
            forall|c: int, off: int| 0 <= c < lp.columns@.len() ==> lp.cell(post, c, off)
                == lp.cell(pre, c, off),
    {
        assert forall|c: int|
            0 <= c < lp.columns@.len() implies #[trigger] post.page_at(lp.columns@[c])
            == pre.page_at(lp.columns@[c]) by {}
    }

    /// Insert a tail record into this page range, appending a new tail
    /// page first when the current one is full. Returns the logical page
    /// index and physical offset. The last value written is the
    /// indirection; the last slot of `values` is ignored.
    pub fn insert_tail(&mut self, bp: &mut BufferPool, values: &Vec<Option<i64>>, indirection: Option<i64>) -> (r: (usize, Offset))
        requires
            old(bp).wf(),
            old(self).wf(*old(bp)),
            values@.len() == old(self).num_columns,
            old(self).num_updates < THRESHOLD,
            PageRange::files_even(*old(bp), old(self).table_identifier, old(self).num_columns),
        ensures
            final(bp).wf(),
            final(self).wf(*final(bp)),
            final(bp).names() == old(bp).names(),
            final(self).table_identifier == old(self).table_identifier,
            final(self).num_columns == old(self).num_columns,
            final(self).num_updates == old(self).num_updates + 1,
            final(self).tps == old(self).tps,
            final(self).base_pages == old(self).base_pages,
            final(self).next_base_page == old(self).next_base_page,
            PageRange::files_even(
                *final(bp),
                old(self).table_identifier,
                old(self).num_columns,
            ),
            forall|x: PhysicalPageID| old(bp).is_allocated(x) ==> final(bp).is_allocated(x),
            // Room in the current tail page: the row lands there.
            old(self).tail_pages@.last().cursor(*old(bp)) < CELLS_PER_PAGE - 1 ==> {
                &&& r == ((old(self).tail_pages@.len() - 1) as usize, old(self).tail_pages@.last().cursor(*old(bp)) as Offset)
                &&& final(self).tail_pages == old(self).tail_pages
                &&& forall|x: PhysicalPageID| old(bp).is_allocated(x) <==> final(bp).is_allocated(x)
            },
            // The current tail page is full: a fresh tail page takes the
            // row at offset zero.
            old(self).tail_pages@.last().cursor(*old(bp)) >= CELLS_PER_PAGE - 1 ==> {
                &&& r == (old(self).tail_pages@.len() as usize, 0usize)
                &&& final(self).tail_pages@.len() == old(self).tail_pages@.len() + 1
                &&& forall|p: int|
                    0 <= p < old(self).tail_pages@.len() ==> final(self).tail_pages@[p] == old(self).tail_pages@[p]
                &&& forall|c: int|
                    0 <= c < old(self).num_columns ==> !old(bp).is_allocated(
                        #[trigger] final(self).tail_pages@.last().columns@[c],
                    )
            },
            // The row stands at the returned page and offset, carrying the
            // given values and the indirection in the final column.
            r.0 == final(self).tail_pages@.len() - 1,
            r.1 == final(self).tail_pages@[r.0 as int].cursor(*final(bp)) - 1,
            final(self).tail_pages@[r.0 as int].cursor(*final(bp)) == r.1 + 1,
            forall|c: int|
                0 <= c < old(self).num_columns - 1 ==> final(self).tail_pages@[r.0 as int].cell(
                    *final(bp),
                    c,
                    r.1 as int,
                ) == values@[c],
            final(self).tail_pages@[r.0 as int].cell(
                *final(bp),
                old(self).num_columns - 1,
                r.1 as int,
            ) == indirection,
            forall|x: PhysicalPageID|
                old(bp).is_allocated(x) && !(x.table_identifier == old(self).table_identifier
                    && x.column_index < old(self).num_columns && x.page_index == final(self).tail_pages@[r.0 as int].columns@[0].page_index) ==> #[trigger] final(bp).page_at(x) == old(bp).page_at(x),
            forall|c: int, off: int|
                0 <= c < old(self).num_columns && 0 <= off < r.1 ==> final(self).tail_pages@[
                    r.0 as int
                ].cell(*final(bp), c, off) == old(self).tail_pages@[r.0 as int].cell(
                    *old(bp),
                    c,
                    off,
                ),
            final(bp).store@.len() == old(bp).store@.len(),
            forall|t: int| 0 <= t < old(bp).store@.len() ==> #[trigger] final(bp).store@[t]@.len()
                == old(bp).store@[t]@.len(),
            forall|t: int, c: int|
                0 <= t < old(bp).store@.len() && 0 <= c < old(bp).store@[t]@.len() && !(t == old(self).table_identifier && c < old(self).num_columns) ==> #[trigger] final(bp).store@[t]@[c]@.len() == old(bp).store@[t]@[c]@.len(),
    {
        // Build the row: the user columns from `values`, the indirection
        // in the final column.
        let mut row: Vec<Option<i64>> = Vec::new();
        let mut c: usize = 0;
        while c < self.num_columns - 1
            invariant
                *self == *old(self),
                c == row@.len() <= self.num_columns - 1,
                values@.len() == self.num_columns,
                self.num_columns >= 2,
                forall|k: int| 0 <= k < c ==> row@[k] == values@[k],
            decreases self.num_columns - 1 - c,
        {
            row.push(values[c]);
            c = c + 1;
        }
        row.push(indirection);

        let current = self.tail_pages.len() - 1;
        let ghost pre_bp = *bp;
        match self.tail_pages[current].insert(bp, &row) {
            Ok(offset) => {
                self.num_updates = self.num_updates + 1;
                proof {
                    assert forall|c: int|
                        0 <= c < self.num_columns implies self.tail_pages@[current as int].cell(
                        *bp,
                        c,
                        offset as int,
                    ) == row@[c] by {
                        pre_bp.lemma_page_at_wf(self.tail_pages@[current as int].columns@[c]);
                    }
                    assert forall|c: int, off: int|
                        0 <= c < self.num_columns && 0 <= off < offset implies self.tail_pages@[
                        current as int
                    ].cell(*bp, c, off) == old(self).tail_pages@[current as int].cell(
                        pre_bp,
                        c,
                        off,
                    ) by {
                        pre_bp.lemma_page_at_wf(self.tail_pages@[current as int].columns@[c]);
                    }
                    assert forall|p: int|
                        0 <= p < self.base_pages@.len() implies (
                    #[trigger] self.base_pages@[p]).wf(*bp) by {
                        assert(self.base_pages@[p].wf(pre_bp));
                        assert(self.base_pages@[p].index() != self.tail_pages@[
                            current as int
                        ].index());
                        PageRange::lemma_lp_stable(
                            self.base_pages@[p],
                            pre_bp,
                            *bp,
                            self.tail_pages@[current as int],
                        );
                    }
                    assert forall|p: int|
                        0 <= p < self.tail_pages@.len() implies (
                    #[trigger] self.tail_pages@[p]).wf(*bp) by {
                        if p != current {
                            assert(self.tail_pages@[p].wf(pre_bp));
                            assert(self.tail_pages@[p].index() != self.tail_pages@[
                                current as int
                            ].index());
                            PageRange::lemma_lp_stable(
                                self.tail_pages@[p],
                                pre_bp,
                                *bp,
                                self.tail_pages@[current as int],
                            );
                        }
                    }
                }
                (current, offset)
            },
            Err(_) => {
                // Add a new tail page and insert there.
                let ghost mid_bp = *bp;
                let fresh = LogicalPage::new(self.table_identifier, self.num_columns, bp);
                let ghost bp2 = *bp;
                let r2 = fresh.insert(bp, &row);
                let offset = match r2 {
                    Ok(o) => o,
                    Err(_) => {
                        proof {
                            assert(false);
                        }
                        0
                    },
                };
                self.tail_pages.push(fresh);
                self.num_updates = self.num_updates + 1;
                proof {
                    let post_bp = *bp;
                    assert(offset == 0);
                    assert forall|p: int|
                        0 <= p < self.tail_pages@.len() - 1 implies #[trigger] self.tail_pages@[
                        p
                    ].index() != fresh.index() by {
                        if self.tail_pages@[p].index() == fresh.index() {
                            assert(self.tail_pages@[p].columns@[0] == fresh.columns@[0]);
                            assert(mid_bp.is_allocated(self.tail_pages@[p].columns@[0]));
                        }
                    }
                    assert forall|p: int|
                        0 <= p < self.base_pages@.len() implies #[trigger] self.base_pages@[
                        p
                    ].index() != fresh.index() by {
                        if self.base_pages@[p].index() == fresh.index() {
                            assert(self.base_pages@[p].columns@[0] == fresh.columns@[0]);
                            assert(mid_bp.is_allocated(self.base_pages@[p].columns@[0]));
                        }
                    }
                    assert forall|c: int|
                        0 <= c < self.num_columns implies fresh.cell(post_bp, c, 0) == row@[
                        c
                    ] by {
                        bp2.lemma_page_at_wf(fresh.columns@[c]);
                    }
                    assert forall|p: int|
                        0 <= p < self.base_pages@.len() implies (
                    #[trigger] self.base_pages@[p]).wf(post_bp) by {
                        assert(self.base_pages@[p].wf(pre_bp));
                        PageRange::lemma_lp_preserved(self.base_pages@[p], pre_bp, mid_bp);
                        PageRange::lemma_lp_preserved(self.base_pages@[p], mid_bp, bp2);
                        assert(self.base_pages@[p].index() != fresh.index());
                        PageRange::lemma_lp_stable(self.base_pages@[p], bp2, post_bp, fresh);
                    }
                    assert forall|p: int|
                        0 <= p < self.tail_pages@.len() implies (
                    #[trigger] self.tail_pages@[p]).wf(post_bp) by {
                        if p < self.tail_pages@.len() - 1 {
                            assert(self.tail_pages@[p].wf(pre_bp));
                            PageRange::lemma_lp_preserved(self.tail_pages@[p], pre_bp, mid_bp);
                            PageRange::lemma_lp_preserved(self.tail_pages@[p], mid_bp, bp2);
                            assert(self.tail_pages@[p].index() != fresh.index());
                            PageRange::lemma_lp_stable(self.tail_pages@[p], bp2, post_bp, fresh);
                        } else {
                            assert(self.tail_pages@[p] == fresh);
                        }
                    }
                }
                ((self.tail_pages.len() - 1), offset)
            },
        }
    }
}
/// The page store keeps its tables and column files; only the files of
/// the given table's columns may have grown.
pub open spec fn table_files_grow(pre: BufferPool, post: BufferPool, tid: usize, ncols: int) -> bool {
    &&& post.store@.len() == pre.store@.len()
    &&& forall|t: int| 0 <= t < pre.store@.len() ==> #[trigger] post.store@[t]@.len()
        == pre.store@[t]@.len()
    &&& forall|t: int, c: int|
        0 <= t < pre.store@.len() && 0 <= c < pre.store@[t]@.len() && !(t == tid && c < ncols)
            ==> #[trigger] post.store@[t]@[c]@.len() == pre.store@[t]@[c]@.len()
}

/// Ghost description of one record: whether it is a base or tail row,
/// the base of its chain, its link (for a base row the latest row of its
/// chain, for a tail row its predecessor), and how many updates it
/// reflects.
pub struct RowMeta {
    /// True for base rows, false for tail rows.
    pub is_base: bool,
    /// The base RID of the chain this row belongs to (a base row's own
    /// RID).
    pub chain: int,
    /// For a base row: the RID of the latest row of its chain (itself
    /// when never updated). For a tail row: the RID of its predecessor.
    pub link: int,
    /// The number of updates this row reflects; zero for a base row.
    pub depth: nat,
}

/// Represents a table: its page ranges, page directory, indexer, and
/// record bookkeeping, all backed by the shared buffer pool.
pub struct Table {
    /// Name of the table.
    pub name: String,

    /// Identifier of the table, granted by the buffer pool's registry.
    pub table_identifier: usize,

    /// Number of user columns (the indirection column not included).
    pub num_columns: usize,

    /// Index of the primary key column.
    pub key_column: usize,

    /// Next available RID.
    pub next_rid: usize,

    /// Page ranges associated with this table, expanded dynamically.
    pub page_ranges: Vec<PageRange>,

    /// Page directory: the address of every RID, in RID order. Entries
    /// are never reused.
    pub page_directory: Vec<Address>,

    /// Index of the page range currently accepting base rows.
    pub next_page_range: usize,

    /// Ordered indexes on all user columns.
    pub indexer: Indexer,

    /// RIDs belonging to deleted records, to be deallocated by a merge.
    pub dead_rids: Vec<RID>,

    /// Merge requests not yet processed.
    pub pending_merges: Vec<MergeRequest>,

    /// Whether each RID is a base row; tail rows carry false. Kept beside
    /// the page data so that a persisted table can be reopened.
    pub row_kinds: Vec<bool>,

    /// Ghost chain metadata for every RID.
    pub rows: Ghost<Seq<RowMeta>>,
}

/// A merge request: snapshots of a page range's logical page descriptors
/// and of the page directory, and the index of the range to consolidate.
pub struct MergeRequest {
    /// Copy of the range's base logical pages at enqueue time.
    pub base_pages: Vec<LogicalPage>,

    /// Copy of the range's tail logical pages at enqueue time.
    pub tail_pages: Vec<LogicalPage>,

    /// The index of the page range to consolidate.
    pub range_index: usize,

    /// Copy of the page directory at enqueue time.
    pub page_directory: Vec<Address>,
}

impl Table {
    /// The total number of columns, the indirection column included.
    pub open spec fn ncols_total(self) -> int {
        self.num_columns + NUM_METADATA_COLS
    }

    /// The logical page holding a record.
    pub open spec fn lp_for(self, rid: int) -> LogicalPage {
        let a = self.page_directory@[rid];
        if self.rows@[rid].is_base {
            self.page_ranges@[a.range as int].base_pages@[a.page as int]
        } else {
            self.page_ranges@[a.range as int].tail_pages@[a.page as int]
        }
    }

    /// The cell of column `c` of a record.
    pub open spec fn row_cell(self, bp: BufferPool, rid: int, c: int) -> Option<i64> {
        self.lp_for(rid).cell(bp, c, self.page_directory@[rid].offset as int)
    }

    /// The latest version of a base record's chain: the row its
    /// indirection points at.
    pub open spec fn latest(self, b: int) -> int {
        self.rows@[b].link
    }

    /// Everything the table promises about one record.
    pub open spec fn row_ok(self, bp: BufferPool, rid: int) -> bool {
        let a = self.page_directory@[rid];
        let m = self.rows@[rid];
        &&& a.range < self.page_ranges@.len()
        &&& (m.is_base ==> a.page < self.page_ranges@[a.range as int].base_pages@.len())
        &&& (!m.is_base ==> a.page < self.page_ranges@[a.range as int].tail_pages@.len())
        &&& a.offset < self.lp_for(rid).cursor(bp)
        &&& self.row_cell(bp, rid, self.ncols_total() - 1) == Some(m.link as i64)
        &&& 0 <= m.link < self.rows@.len()
        &&& (m.is_base ==> {
            &&& m.chain == rid
            &&& m.depth == 0
            &&& (m.link == rid || (m.link > rid && !self.rows@[m.link].is_base
                && self.rows@[m.link].chain == rid))
        })
        &&& (!m.is_base ==> {
            &&& 0 <= m.chain < rid
            &&& self.rows@[m.chain].is_base
            &&& m.link < rid
            &&& (m.link == m.chain || (!self.rows@[m.link].is_base && self.rows@[m.link].chain
                == m.chain))
            &&& m.depth == self.rows@[m.link].depth + 1
        })
    }

    /// No two logical pages of this table share a physical page: within
    /// one range this is part of the range's own well-formedness, and
    /// across ranges the page indexes differ.
    pub open spec fn distinct_ranges(self) -> bool {
        forall|r1: int, p1: int, b1: bool, r2: int, p2: int, b2: bool|
            self.valid_lp(r1, b1, p1) && self.valid_lp(r2, b2, p2) && r1 != r2
                ==> #[trigger] self.lp_at(r1, b1, p1).index() != #[trigger] self.lp_at(
                r2,
                b2,
                p2,
            ).index()
    }

    /// The logical page of a range, picked by kind and position.
    pub open spec fn lp_at(self, r: int, base: bool, p: int) -> LogicalPage {
        if base {
            self.page_ranges@[r].base_pages@[p]
        } else {
            self.page_ranges@[r].tail_pages@[p]
        }
    }

    /// The position names an existing logical page.
    pub open spec fn valid_lp(self, r: int, base: bool, p: int) -> bool {
        &&& 0 <= r < self.page_ranges@.len()
        &&& (base ==> 0 <= p < self.page_ranges@[r].base_pages@.len())
        &&& (!base ==> 0 <= p < self.page_ranges@[r].tail_pages@.len())
    }

    /// Well-formedness of the whole table against the buffer pool.
    pub open spec fn wf(self, bp: BufferPool) -> bool {
        &&& 1 <= self.num_columns
        &&& self.key_column < self.num_columns
        &&& self.table_identifier < bp.store@.len()
        &&& bp.store@[self.table_identifier as int]@.len() == self.ncols_total()
        &&& PageRange::files_even(bp, self.table_identifier, (self.num_columns
            + NUM_METADATA_COLS) as usize)
        &&& self.num_columns + NUM_METADATA_COLS <= usize::MAX
        &&& self.page_ranges@.len() == self.next_page_range + 1
        &&& forall|r: int| 0 <= r < self.page_ranges@.len() ==> {
            &&& (#[trigger] self.page_ranges@[r]).wf(bp)
            &&& self.page_ranges@[r].table_identifier == self.table_identifier
            &&& self.page_ranges@[r].num_columns == self.ncols_total()
            &&& self.page_ranges@[r].num_updates < THRESHOLD
        }
        &&& self.distinct_ranges()
        &&& self.page_directory@.len() == self.next_rid
        &&& self.rows@.len() == self.next_rid
        &&& self.row_kinds@.len() == self.next_rid
        &&& forall|h: int| 0 <= h < self.next_rid ==> #[trigger] self.row_kinds@[h]
            == self.rows@[h].is_base
        &&& self.next_rid <= 0x7fff_ffff_ffff_ffff
        &&& forall|rid: int| 0 <= rid < self.next_rid ==> self.row_ok(bp, rid)
        &&& forall|r1: int, r2: int|
            0 <= r1 < r2 < self.next_rid && self.rows@[r1].is_base == self.rows@[r2].is_base
                ==> #[trigger] self.page_directory@[r1] != #[trigger] self.page_directory@[r2]
        &&& self.indexer.wf()
        &&& self.indexer.b_trees@.len() == self.num_columns
        &&& self.indexer.enabled@.len() == self.num_columns
        &&& forall|c: int, v: i64, j: int|
            0 <= c < self.num_columns && 0 <= j < rids_of(self.indexer.col(c), v).len()
                ==> #[trigger] rids_of(self.indexer.col(c), v)[j] < self.next_rid && self.rows@[
                rids_of(self.indexer.col(c), v)[j] as int
            ].is_base
        &&& forall|v: i64|
            #[trigger] rids_of(self.indexer.col(self.key_column as int), v).len() <= 1
    }

    /// Return all the base record ids whose indexed value in `column`
    /// lies in the inclusive range `[start_key, end_key]`.
    pub fn locate_range(&self, start_key: i64, end_key: i64, column: usize) -> (r: Vec<RID>)
        requires
            self.indexer.wf(),
            column < self.indexer.b_trees@.len(),
        ensures
            r@ == range_rids(self.indexer.col(column as int), start_key, end_key),
    {
        self.indexer.locate_range(start_key, end_key, column)
    }
}

/// A copy of a table name.
fn clone_name(s: &String) -> (r: String)
    ensures
        r@ == s@,
{
    s.clone()
}

/// A copy of the per-column indexes.
fn copy_indexer(idx: &Indexer) -> (r: Indexer)
    ensures
        r.b_trees@.len() == idx.b_trees@.len(),
        r.enabled@ == idx.enabled@,
        forall|c: int| 0 <= c < idx.b_trees@.len() ==> #[trigger] r.b_trees@[c].entries@.len()
            == idx.b_trees@[c].entries@.len(),
        forall|c: int, k: int|
            0 <= c < idx.b_trees@.len() && 0 <= k < idx.b_trees@[c].entries@.len() ==> {
                &&& (#[trigger] r.b_trees@[c].entries@[k]).value == idx.b_trees@[c].entries@[
                    k
                ].value
                &&& r.b_trees@[c].entries@[k].rids@ == idx.b_trees@[c].entries@[k].rids@
            },
{
    let mut enabled: Vec<bool> = Vec::new();
    let mut i: usize = 0;
    while i < idx.enabled.len()
        invariant
            i == enabled@.len() <= idx.enabled@.len(),
            forall|k: int| 0 <= k < i ==> enabled@[k] == idx.enabled@[k],
        decreases idx.enabled@.len() - i,
    {
        enabled.push(idx.enabled[i]);
        i = i + 1;
    }
    let mut b_trees: Vec<ColumnIndex> = Vec::new();
    let mut c: usize = 0;
    while c < idx.b_trees.len()
        invariant
            c == b_trees@.len() <= idx.b_trees@.len(),
            forall|k: int| 0 <= k < c ==> (#[trigger] b_trees@[k]).entries@.len()
                == idx.b_trees@[k].entries@.len(),
            forall|k: int, e2: int|
                0 <= k < c && 0 <= e2 < idx.b_trees@[k].entries@.len() ==> {
                    &&& (#[trigger] b_trees@[k].entries@[e2]).value == idx.b_trees@[k].entries@[
                        e2
                    ].value
                    &&& b_trees@[k].entries@[e2].rids@ == idx.b_trees@[k].entries@[e2].rids@
                },
        decreases idx.b_trees@.len() - c,
    {
        let src_col = &idx.b_trees[c];
        let mut entries: Vec<IndexEntry> = Vec::new();
        let mut e: usize = 0;
        while e < src_col.entries.len()
            invariant
                e == entries@.len() <= src_col.entries@.len(),
                forall|k: int| 0 <= k < e ==> (#[trigger] entries@[k]).value == src_col.entries@[
                    k
                ].value && entries@[k].rids@ == src_col.entries@[k].rids@,
            decreases src_col.entries@.len() - e,
        {
            let se = &src_col.entries[e];
            entries.push(IndexEntry { value: se.value, rids: copy_rid_vec(&se.rids) });
            e = e + 1;
        }
        b_trees.push(ColumnIndex { entries });
        c = c + 1;
    }
    proof {
        assert(enabled@ =~= idx.enabled@);
    }
    Indexer { enabled, b_trees }
}

/// A copy of a vector of record ids.
fn copy_rid_vec(v: &Vec<RID>) -> (r: Vec<RID>)
    ensures
        r@ == v@,
{
    let mut r: Vec<RID> = Vec::new();
    let mut i: usize = 0;
    while i < v.len()
        invariant
            i == r@.len() <= v@.len(),
            forall|j: int| 0 <= j < i ==> r@[j] == v@[j],
        decreases v@.len() - i,
    {
        r.push(v[i]);
        i = i + 1;
    }
    proof {
        assert(r@ =~= v@);
    }
    r
}

/// A copy of a projection vector.
fn copy_proj(v: &Vec<usize>) -> (r: Vec<usize>)
    ensures
        r@ == v@,
{
    let mut r: Vec<usize> = Vec::new();
    let mut i: usize = 0;
    while i < v.len()
        invariant
            i == r@.len() <= v@.len(),
            forall|j: int| 0 <= j < i ==> r@[j] == v@[j],
        decreases v@.len() - i,
    {
        r.push(v[i]);
        i = i + 1;
    }
    proof {
        assert(r@ =~= v@);
    }
    r
}

/// The value whose entry contributes position `i` of a range query.
pub open spec fn range_value_of(s: Seq<IndexEntry>, lo: i64, hi: i64, i: int) -> i64 {
    choose|v: i64| rids_of(s, v).contains(range_rids(s, lo, hi)[i])
}

/// Every record id returned by a range query is registered under some
/// value of the index.
pub proof fn lemma_range_rids_members(s: Seq<IndexEntry>, lo: i64, hi: i64)
    requires
        entries_sorted(s),
    ensures
        forall|i: int|
            0 <= i < range_rids(s, lo, hi).len() ==> rids_of(
                s,
                #[trigger] range_value_of(s, lo, hi, i),
            ).contains(range_rids(s, lo, hi)[i]),
    decreases s.len(),
{
    if s.len() > 0 {
        let rest = s.drop_first();
        assert(entries_sorted(rest)) by {
            assert(forall|i: int, j: int|
                0 <= i < j < rest.len() ==> rest[i] == s[i + 1] && rest[j] == s[j + 1]);
        }
        lemma_range_rids_members(rest, lo, hi);
        let head = if lo <= s[0].value <= hi {
            s[0].rids@
        } else {
            Seq::<RID>::empty()
        };
        assert forall|i: int|
            0 <= i < range_rids(s, lo, hi).len() implies rids_of(
            s,
            #[trigger] range_value_of(s, lo, hi, i),
        ).contains(range_rids(s, lo, hi)[i]) by {
            let x = range_rids(s, lo, hi)[i];
            if i < head.len() {
                lemma_value_at(s, 0, s[0].value);
                assert(rids_of(s, s[0].value).contains(x));
            } else {
                let j = i - head.len();
                assert(range_rids(rest, lo, hi)[j] == x);
                let v = range_value_of(rest, lo, hi, j);
                assert(rids_of(rest, v).contains(x));
                assert(has_value(rest, v));
                let w = index_of_value(rest, v);
                assert(rest[w] == s[w + 1]);
                lemma_value_at(s, w + 1, v);
                assert(rids_of(s, v).contains(x));
            }
        }
    }
}

/// The user-column prefix of a wrapped row.
fn wrapped_without_meta(wrapped: &Vec<Option<i64>>, num_columns: usize) -> (r: Vec<Option<i64>>)
    requires
        num_columns <= wrapped@.len(),
    ensures
        r@ == wrapped@.take(num_columns as int),
{
    let mut r: Vec<Option<i64>> = Vec::new();
    let mut c: usize = 0;
    while c < num_columns
        invariant
            c == r@.len() <= num_columns <= wrapped@.len(),
            forall|k: int| 0 <= k < c ==> r@[k] == wrapped@[k],
        decreases num_columns - c,
    {
        r.push(wrapped[c]);
        c = c + 1;
    }
    proof {
        assert(r@ =~= wrapped@.take(num_columns as int));
    }
    r
}

impl Table {

    /// Table well-formedness is stable under buffer-pool steps that
    /// preserve every allocated page and the shape of the files.
    pub proof fn lemma_wf_preserved(self, pre: BufferPool, post: BufferPool)
        requires
            self.wf(pre),
            BufferPool::preserves(pre, post),
            BufferPool::same_files(pre, post),
        ensures
            self.wf(post),
    {
        assert forall|r: int| 0 <= r < self.page_ranges@.len() implies (
        #[trigger] self.page_ranges@[r]).wf(post) by {
            let pr = self.page_ranges@[r];
            assert(pr.wf(pre));
            assert forall|p: int| 0 <= p < pr.base_pages@.len() implies (
            #[trigger] pr.base_pages@[p]).wf(post) by {
                PageRange::lemma_lp_preserved(pr.base_pages@[p], pre, post);
            }
            assert forall|p: int| 0 <= p < pr.tail_pages@.len() implies (
            #[trigger] pr.tail_pages@[p]).wf(post) by {
                PageRange::lemma_lp_preserved(pr.tail_pages@[p], pre, post);
            }
        }
        assert forall|rid: int| 0 <= rid < self.next_rid implies self.row_ok(post, rid) by {
            assert(self.row_ok(pre, rid));
            let lp = self.lp_for(rid);
            PageRange::lemma_lp_preserved(lp, pre, post);
            assert(lp.cell(post, self.ncols_total() - 1, self.page_directory@[rid].offset as int)
                == lp.cell(pre, self.ncols_total() - 1, self.page_directory@[rid].offset as int));
        }
    }

    /// Every record's cells are unchanged by buffer-pool steps that
    /// preserve all allocated pages.
    pub proof fn lemma_row_cells_preserved(self, pre: BufferPool, post: BufferPool)
        requires
            self.wf(pre),
            BufferPool::preserves(pre, post),
        ensures
            forall|h: int, cc: int|
                0 <= h < self.next_rid && 0 <= cc < self.ncols_total()
                    ==> #[trigger] self.row_cell(post, h, cc) == self.row_cell(pre, h, cc),
    {
        assert forall|h: int, cc: int|
            0 <= h < self.next_rid && 0 <= cc < self.ncols_total() implies #[trigger] self.row_cell(
            post,
            h,
            cc,
        ) == self.row_cell(pre, h, cc) by {
            assert(self.row_ok(pre, h));
            let lp = self.lp_for(h);
            assert(lp.columns@.len() == self.ncols_total()) by {
                let a = self.page_directory@[h];
                assert(self.page_ranges@[a.range as int].wf(pre));
            }
            PageRange::lemma_lp_preserved(lp, pre, post);
        }
    }

    /// The effective projection of a query: the given bits over the user
    /// columns, absent bits cleared, and the indirection column always
    /// selected.
    pub open spec fn eff_proj(self, proj: Seq<usize>) -> Seq<usize> {
        Seq::new(
            self.ncols_total() as nat,
            |c: int|
                if c == self.ncols_total() - 1 {
                    1usize
                } else if c < proj.len() {
                    proj[c]
                } else {
                    0usize
                },
        )
    }

    /// The projected user columns of a record, per the effective
    /// projection; the trailing indirection cell is dropped.
    pub open spec fn selected_row(self, bp: BufferPool, rid: int, proj: Seq<usize>) -> Seq<
        Option<i64>,
    > {
        self.lp_for(rid).proj_cells(
            bp,
            self.page_directory@[rid].offset as int,
            self.eff_proj(proj),
        ).drop_last()
    }

    /// Build the effective projection vector of a query.
    fn build_eff_proj(&self, proj: &Vec<usize>) -> (r: Vec<usize>)
        requires
            self.num_columns + NUM_METADATA_COLS <= usize::MAX,
        ensures
            r@ == self.eff_proj(proj@),
            r@.len() == self.ncols_total(),
    {
        let total = self.num_columns + NUM_METADATA_COLS;
        let mut r: Vec<usize> = Vec::new();
        let mut c: usize = 0;
        while c < total
            invariant
                c == r@.len() <= total,
                total == self.ncols_total(),
                forall|k: int| 0 <= k < c ==> r@[k] == self.eff_proj(proj@)[k],
            decreases total - c,
        {
            if c == total - 1 {
                r.push(1);
            } else if c < proj.len() {
                r.push(proj[c]);
            } else {
                r.push(0);
            }
            c = c + 1;
        }
        proof {
            assert(r@ =~= self.eff_proj(proj@));
        }
        r
    }

    /// Select one record given its base RID and a column projection,
    /// following the base row's indirection to the latest version.
    fn select_by_rid(&self, bp: &mut BufferPool, rid: RID, proj: &Vec<usize>) -> (r: Result<
        Vec<Option<i64>>,
        DatabaseError,
    >)
        requires
            old(bp).wf(),
            self.wf(*old(bp)),
            rid < self.next_rid,
            self.rows@[rid as int].is_base,
        ensures
            final(bp).wf(),
            self.wf(*final(bp)),
            BufferPool::preserves(*old(bp), *final(bp)),
            BufferPool::same_files(*old(bp), *final(bp)),
            r matches Ok(v) && v@ == self.selected_row(*old(bp), self.latest(rid as int), proj@),
    {
        let ghost pre = *old(bp);
        let eff = self.build_eff_proj(proj);
        let a = self.page_directory[rid];
        proof {
            assert(self.row_ok(pre, rid as int));
        }
        let mut cells = match self.page_ranges[a.range].read_base_record(bp, a.page, a.offset, &eff) {
            Ok(v) => v,
            Err(e) => {
                proof {
                    assert(false);
                }
                return Err(e);
            },
        };
        proof {
            let lp = self.lp_for(rid as int);
            lp.lemma_proj_cells_last(pre, a.offset as int, eff@, 0);
            assert(cells@.last() == self.row_cell(pre, rid as int, self.ncols_total() - 1));
        }
        let last = cells[cells.len() - 1];
        let link = match last {
            Some(l) => l,
            None => {
                proof {
                    assert(false);
                }
                0
            },
        };
        proof {
            assert(self.rows@[rid as int].link as i64 == link);
            assert(0 <= self.rows@[rid as int].link < self.next_rid);
        }
        if link == rid as i64 {
            // There is no record more recent than this one: return it.
            let length = cells.len() - 1;
            cells.truncate(length);
            proof {
                assert(self.latest(rid as int) == rid);
                assert(cells@ =~= self.selected_row(pre, rid as int, proj@));
                self.lemma_wf_preserved(pre, *bp);
            }
            return Ok(cells);
        }

        // We have a more recent tail record: find it.
        let tail_rid: usize = link as usize;
        let ghost l = self.rows@[rid as int].link;
        proof {
            assert(tail_rid == l);
            assert(self.row_ok(pre, l));
        }
        let a2 = self.page_directory[tail_rid];
        let ghost mid = *bp;
        let mut tcells = match self.page_ranges[a2.range].read_tail_record(bp, a2.page, a2.offset, &eff) {
            Ok(v) => v,
            Err(e) => {
                proof {
                    assert(false);
                }
                return Err(e);
            },
        };
        proof {
            let lp = self.lp_for(l);
            lp.lemma_proj_cells_last(mid, a2.offset as int, eff@, 0);
            lp.lemma_proj_cells_stable(pre, mid, a2.offset as int, eff@, 0);
        }
        let length = tcells.len() - 1;
        tcells.truncate(length);
        proof {
            assert(tcells@ =~= self.selected_row(pre, l, proj@));
            self.lemma_wf_preserved(pre, *bp);
        }
        Ok(tcells)
    }

    /// Select the most recent version of every record carrying the search
    /// key in the searched column. Each returned record holds the
    /// projected user columns of the latest version of its chain.
    pub fn select(&self, bp: &mut BufferPool, search_key: i64, search_key_index: usize, projected_columns: Vec<usize>) -> (r: Vec<Record>)
        requires
            old(bp).wf(),
            self.wf(*old(bp)),
            search_key_index < self.num_columns,
        ensures
            final(bp).wf(),
            self.wf(*final(bp)),
            BufferPool::preserves(*old(bp), *final(bp)),
            BufferPool::same_files(*old(bp), *final(bp)),
            ({
                let rids = range_rids(
                    self.indexer.col(search_key_index as int),
                    search_key,
                    search_key,
                );
                &&& r@.len() == rids.len()
                &&& forall|i: int| 0 <= i < rids.len() ==> {
                    &&& (#[trigger] r@[i]).rid == rids[i]
                    &&& r@[i].key == search_key
                    &&& r@[i].columns@ == self.selected_row(
                        *old(bp),
                        self.latest(rids[i] as int),
                        projected_columns@.push(1),
                    )
                }
            }),
    {
        let ghost pre = *old(bp);
        let rids = self.locate_range(search_key, search_key, search_key_index);
        let mut results: Vec<Record> = Vec::new();

        let mut projected_columns = projected_columns;

        // Add the indirection column to the projection.
        projected_columns.push(1);

        proof {
            lemma_range_single(self.indexer.col(search_key_index as int), search_key);
        }
        let mut i: usize = 0;
        while i < rids.len()
            invariant
                bp.wf(),
                pre.wf(),
                self.wf(pre),
                self.wf(*bp),
                BufferPool::preserves(pre, *bp),
                BufferPool::same_files(pre, *bp),
                i <= rids@.len(),
                rids@ == rids_of(self.indexer.col(search_key_index as int), search_key),
                search_key_index < self.num_columns,
                results@.len() == i,
                forall|j: int| 0 <= j < i ==> {
                    &&& (#[trigger] results@[j]).rid == rids@[j]
                    &&& results@[j].key == search_key
                    &&& results@[j].columns@ == self.selected_row(
                        pre,
                        self.latest(rids@[j] as int),
                        projected_columns@,
                    )
                },
            decreases rids@.len() - i,
        {
            let rid = rids[i];
            proof {
                assert(rids_of(self.indexer.col(search_key_index as int), search_key)[i as int]
                    < self.next_rid);
            }
            let ghost loop_pre = *bp;
            match self.select_by_rid(bp, rid, &projected_columns) {
                Ok(row_vec) => {
                    proof {
                        let l = self.latest(rid as int);
                        assert(self.row_ok(pre, rid as int));
                        assert(self.row_ok(pre, l));
                        self.lp_for(l).lemma_proj_cells_stable(
                            pre,
                            loop_pre,
                            self.page_directory@[l].offset as int,
                            self.eff_proj(projected_columns@),
                            0,
                        );
                    }
                    results.push(Record::new(rid, search_key, row_vec));
                },
                Err(_) => {
                    proof {
                        assert(false);
                    }
                },
            }
            i = i + 1;
        }
        results
    }
    /// A projection selecting every column, the indirection column
    /// included.
    fn build_full_proj(&self) -> (r: Vec<usize>)
        requires
            self.num_columns + NUM_METADATA_COLS <= usize::MAX,
        ensures
            r@.len() == self.ncols_total(),
            forall|k: int| 0 <= k < r@.len() ==> r@[k] == 1usize,
    {
        let total = self.num_columns + NUM_METADATA_COLS;
        let mut r: Vec<usize> = Vec::new();
        let mut c: usize = 0;
        while c < total
            invariant
                c == r@.len() <= total,
                forall|k: int| 0 <= k < c ==> r@[k] == 1usize,
            decreases total - c,
        {
            r.push(1);
            c = c + 1;
        }
        r
    }

    /// Create a new table: register its name with the buffer pool,
    /// create one column file per column, and start with a single page
    /// range.
    pub fn new(name: String, num_columns: usize, key_column: usize, bp: &mut BufferPool) -> (r: Self)
        requires
            old(bp).wf(),
            1 <= num_columns,
            key_column < num_columns,
            num_columns + NUM_METADATA_COLS <= usize::MAX,
            !old(bp).has_name(name@),
        ensures
            final(bp).wf(),
            r.wf(*final(bp)),
            r.name@ == name@,
            r.num_columns == num_columns,
            r.key_column == key_column,
            r.next_rid == 0,
            r.rows@.len() == 0,
            r.pending_merges@.len() == 0,
            r.dead_rids@.len() == 0,
            forall|v: i64, c: int|
                0 <= c < num_columns ==> #[trigger] rids_of(r.indexer.col(c), v)
                    == Seq::<RID>::empty(),
            final(bp).names() == old(bp).names().push(name@),
            r.table_identifier == old(bp).names().len(),
            forall|x: PhysicalPageID| old(bp).is_allocated(x) ==> final(bp).is_allocated(x)
                && #[trigger] final(bp).page_at(x) == old(bp).page_at(x),
            final(bp).store@.len() == old(bp).store@.len() + 1,
            forall|t: int| 0 <= t < old(bp).store@.len() ==> #[trigger] final(bp).store@[t]@.len()
                == old(bp).store@[t]@.len(),
            forall|t: int, c: int|
                0 <= t < old(bp).store@.len() && 0 <= c < old(bp).store@[t]@.len()
                    ==> #[trigger] final(bp).store@[t]@[c]@.len() == old(bp).store@[t]@[c]@.len(),
    {
        let table_identifier = bp.register_table_name(&name);
        let ghost bp1 = *bp;
        let total = num_columns + NUM_METADATA_COLS;
        bp.create_table_files(table_identifier, total);
        let ghost bp2 = *bp;
        proof {
            assert(PageRange::files_even(bp2, table_identifier, total));
        }
        let pr = PageRange::new(table_identifier, total, bp);
        let mut page_ranges: Vec<PageRange> = Vec::new();
        page_ranges.push(pr);
        let r = Table {
            name,
            table_identifier,
            num_columns,
            key_column,
            next_rid: 0,
            page_ranges,
            page_directory: Vec::new(),
            next_page_range: 0,
            indexer: Indexer::new(num_columns),
            dead_rids: Vec::new(),
            pending_merges: Vec::new(),
            row_kinds: Vec::new(),
            rows: Ghost(Seq::empty()),
        };
        proof {
            let post = *bp;
            assert(r.wf(post)) by {
                assert(r.page_ranges@[0].wf(post));
                assert forall|v: i64, c: int|
                    0 <= c < num_columns implies #[trigger] rids_of(r.indexer.col(c), v)
                    == Seq::<RID>::empty() by {
                    if has_value(r.indexer.col(c), v) {
                        let w = index_of_value(r.indexer.col(c), v);
                    }
                }
            }
            assert forall|x: PhysicalPageID|
                old(bp).is_allocated(x) implies final(bp).is_allocated(x) && #[trigger] final(bp).page_at(x) == old(bp).page_at(x) by {
                assert(bp1.is_allocated(x) && bp1.page_at(x) == old(bp).page_at(x));
                assert(bp2.is_allocated(x) && bp2.page_at(x) == bp1.page_at(x));
            }
            assert forall|t: int|
                0 <= t < old(bp).store@.len() implies #[trigger] final(bp).store@[t]@.len() == old(
                bp,
            ).store@[t]@.len() by {
                assert(bp1.store@[t] == old(bp).store@[t]);
                assert(bp2.store@[t]@.len() == bp1.store@[t]@.len());
            }
            assert forall|t: int, c: int|
                0 <= t < old(bp).store@.len() && 0 <= c < old(bp).store@[t]@.len()
                    implies #[trigger] final(bp).store@[t]@[c]@.len() == old(bp).store@[t]@[
                c
            ]@.len() by {
                assert(bp1.store@[t] == old(bp).store@[t]);
                assert(bp2.store@[t]@[c]@.len() == bp1.store@[t]@[c]@.len());
            }
        }
        r
    }


    /// Snapshot a page range's logical page descriptors and the page
    /// directory into a merge request.
    fn build_merge_request(&self, range_index: usize) -> (r: MergeRequest)
        requires
            range_index < self.page_ranges@.len(),
        ensures
            r.range_index == range_index,
            r.base_pages@.len() == self.page_ranges@[range_index as int].base_pages@.len(),
            forall|p: int| 0 <= p < r.base_pages@.len() ==> (#[trigger] r.base_pages@[p]).columns@
                == self.page_ranges@[range_index as int].base_pages@[p].columns@,
            r.tail_pages@.len() == self.page_ranges@[range_index as int].tail_pages@.len(),
            forall|p: int| 0 <= p < r.tail_pages@.len() ==> (#[trigger] r.tail_pages@[p]).columns@
                == self.page_ranges@[range_index as int].tail_pages@[p].columns@,
            r.page_directory@ == self.page_directory@,
    {
        let mut base_pages: Vec<LogicalPage> = Vec::new();
        let mut p: usize = 0;
        while p < self.page_ranges[range_index].base_pages.len()
            invariant
                range_index < self.page_ranges@.len(),
                p == base_pages@.len() <= self.page_ranges@[range_index as int].base_pages@.len(),
                forall|k: int| 0 <= k < p ==> (#[trigger] base_pages@[k]).columns@
                    == self.page_ranges@[range_index as int].base_pages@[k].columns@,
            decreases self.page_ranges@[range_index as int].base_pages@.len() - p,
        {
            base_pages.push(self.page_ranges[range_index].base_pages[p].duplicate());
            p = p + 1;
        }
        let mut tail_pages: Vec<LogicalPage> = Vec::new();
        let mut q: usize = 0;
        while q < self.page_ranges[range_index].tail_pages.len()
            invariant
                range_index < self.page_ranges@.len(),
                q == tail_pages@.len() <= self.page_ranges@[range_index as int].tail_pages@.len(),
                forall|k: int| 0 <= k < q ==> (#[trigger] tail_pages@[k]).columns@
                    == self.page_ranges@[range_index as int].tail_pages@[k].columns@,
            decreases self.page_ranges@[range_index as int].tail_pages@.len() - q,
        {
            tail_pages.push(self.page_ranges[range_index].tail_pages[q].duplicate());
            q = q + 1;
        }
        let mut page_directory: Vec<Address> = Vec::new();
        let mut d: usize = 0;
        while d < self.page_directory.len()
            invariant
                d == page_directory@.len() <= self.page_directory@.len(),
                forall|k: int| 0 <= k < d ==> page_directory@[k] == self.page_directory@[k],
            decreases self.page_directory@.len() - d,
        {
            page_directory.push(self.page_directory[d]);
            d = d + 1;
        }
        proof {
            assert(page_directory@ =~= self.page_directory@);
        }
        MergeRequest { base_pages, tail_pages, range_index, page_directory }
    }


    /// Append the cumulative row as a tail record of the chain of
    /// `base_rid`, record its address, and point the base row's
    /// indirection at it. Emits a merge request when the range's update
    /// counter crosses the threshold.
    #[verifier::rlimit(100)]
    fn apply_tail(&mut self, bp: &mut BufferPool, base_rid: RID, base_address: Address, ind: i64, cumulative: &Vec<Option<i64>>)
        requires
            old(bp).wf(),
            old(self).wf(*old(bp)),
            base_rid < old(self).next_rid,
            old(self).rows@[base_rid as int].is_base,
            base_address == old(self).page_directory@[base_rid as int],
            ind == old(self).rows@[base_rid as int].link as i64,
            cumulative@.len() == old(self).ncols_total(),
            old(self).next_rid + 1 <= 0x7fff_ffff_ffff_ffff,
            old(self).next_rid + 1 <= usize::MAX,
        ensures
            final(bp).wf(),
            final(self).wf(*final(bp)),
            final(bp).names() == old(bp).names(),
            table_files_grow(
                *old(bp),
                *final(bp),
                old(self).table_identifier,
                old(self).ncols_total(),
            ),
            final(self).next_rid == old(self).next_rid + 1,
            final(self).rows@ == old(self).rows@.push(
                RowMeta {
                    is_base: false,
                    chain: base_rid as int,
                    link: old(self).rows@[base_rid as int].link,
                    depth: (old(self).rows@[old(self).rows@[base_rid as int].link].depth
                        + 1) as nat,
                },
            ).update(
                base_rid as int,
                RowMeta {
                    is_base: true,
                    chain: base_rid as int,
                    link: old(self).next_rid as int,
                    depth: 0,
                },
            ),
            final(self).latest(base_rid as int) == old(self).next_rid,
            forall|c: int| 0 <= c < old(self).num_columns ==> final(self).row_cell(
                *final(bp),
                old(self).next_rid as int,
                c,
            ) == cumulative@[c],
            final(self).indexer == old(self).indexer,
            final(self).name == old(self).name,
            final(self).num_columns == old(self).num_columns,
            final(self).key_column == old(self).key_column,
            final(self).table_identifier == old(self).table_identifier,
            final(self).dead_rids == old(self).dead_rids,
            final(self).page_directory@ == old(self).page_directory@.push(
                final(self).page_directory@.last(),
            ),
            ({
                let ri = old(self).page_directory@[base_rid as int].range as int;
                &&& (old(self).page_ranges@[ri].num_updates + 1 >= THRESHOLD ==> {
                    &&& final(self).pending_merges@.len() == old(self).pending_merges@.len() + 1
                    &&& final(self).pending_merges@.drop_last() == old(self).pending_merges@
                    &&& final(self).pending_merges@.last().range_index == ri
                    &&& final(self).page_ranges@[ri].num_updates == 0
                })
                &&& (old(self).page_ranges@[ri].num_updates + 1 < THRESHOLD ==> {
                    &&& final(self).pending_merges == old(self).pending_merges
                    &&& final(self).page_ranges@[ri].num_updates == old(self).page_ranges@[
                        ri
                    ].num_updates + 1
                })
            }),
    {
        let ghost pre = *old(self);
        let ghost pre_bp = *old(bp);
        let ghost b = base_rid as int;
        let ghost l = pre.rows@[b].link;
        proof {
            assert(pre.row_ok(pre_bp, b));
            assert(pre.row_ok(pre_bp, l));
        }
        let range_index = base_address.range;
        let ghost bp2 = *bp;
        let ghost self2 = *self;
        let (page, offset) = {
            let tr = &mut self.page_ranges[range_index];
            proof {
                assert(self2.page_ranges@[range_index as int] == *tr);
            }
            tr.insert_tail(bp, cumulative, Some(ind))
        };
        let ghost bp3 = *bp;
        let ghost range_after = self.page_ranges@[range_index as int];


        proof {
            assert(self.page_ranges@[range_index as int].tail_pages == range_after.tail_pages);
            assert(self.page_ranges@[range_index as int].base_pages == range_after.base_pages);
            assert(self.page_ranges@[range_index as int].wf(bp3)) by {
                assert(range_after.wf(bp3));
            }
        }

        // Add the new RID to physical address mapping.
        self.page_directory.push(Address::new(range_index, page, offset));
        self.row_kinds.push(false);

        // Update the base record indirection column.
        let new_rid = self.next_rid;
        let ur = self.page_ranges[range_index].update_base_indirection(bp, base_address, new_rid);
        proof {
            assert(ur is Ok);
        }

        // Record the new row and the base row's new chain head.
        proof {
            self.rows@ = self.rows@.push(
                RowMeta {
                    is_base: false,
                    chain: b,
                    link: l,
                    depth: (pre.rows@[l].depth + 1) as nat,
                },
            ).update(b, RowMeta { is_base: true, chain: b, link: pre.next_rid as int, depth: 0 });
        }

        // Increment the RID for the next record.
        self.next_rid = self.next_rid + 1;

        // Emit a merge request when the range crosses the threshold.
        if self.page_ranges[range_index].num_updates >= THRESHOLD {
            let zr = &mut self.page_ranges[range_index];
            zr.num_updates = 0;
            let req = self.build_merge_request(range_index);
            self.pending_merges.push(req);
            proof {
                assert(self.pending_merges@.drop_last() =~= pre.pending_merges@);
            }
        }

        proof {
            let post = *self;
            let postbp = *bp;
            let t_new = pre.next_rid as int;
            let ri = range_index as int;
            // The table before the storage writes, with the updated
            // indexer, is still well formed against the pool after the
            // reads.
            assert(BufferPool::preserves(pre_bp, bp2) && BufferPool::same_files(pre_bp, bp2)) by {
                assert(bp2 == pre_bp);
            }
            pre.lemma_wf_preserved(pre_bp, bp2);
            let written = post.page_ranges@[ri].tail_pages@[page as int];
            let base_lp = pre.page_ranges@[ri].base_pages@[base_address.page as int];
            let ind_ppid = base_lp.columns@[pre.ncols_total() - 1];
            assert(self2.page_ranges@[ri].base_pages == pre.page_ranges@[ri].base_pages);
            assert(base_lp.wf(bp2)) by {
                assert(pre.page_ranges@[ri].wf(bp2));
            }
            assert(post.page_ranges@.len() == pre.page_ranges@.len());
            assert(forall|r2: int|
                0 <= r2 < pre.page_ranges@.len() && r2 != ri ==> #[trigger] post.page_ranges@[r2]
                    == pre.page_ranges@[r2]);
            assert(post.page_ranges@[ri].tail_pages == range_after.tail_pages);
            assert(post.page_ranges@[ri].base_pages == pre.page_ranges@[ri].base_pages);
            assert(range_after.wf(bp3));
            assert(written == range_after.tail_pages@[page as int]);
            assert(written.wf(bp3));
            assert(written.tid() == pre.table_identifier);
            assert(pre.page_ranges@[ri].wf(bp2));
            assert(written == range_after.tail_pages@.last());
            assert(base_lp == range_after.base_pages@[base_address.page as int]);
            assert(base_lp.index() != written.index()) by {
                assert(range_after.wf(bp3));
            }
            assert(ind_ppid == (PhysicalPageID {
                table_identifier: pre.table_identifier,
                column_index: (pre.ncols_total() - 1) as usize,
                page_index: base_lp.columns@[0].page_index,
            }));
            if pre.page_ranges@[ri].tail_pages@.last().cursor(bp2) < CELLS_PER_PAGE - 1 {
                assert(range_after.tail_pages == pre.page_ranges@[ri].tail_pages);
                assert(page == pre.page_ranges@[ri].tail_pages@.len() - 1);
                assert(written == pre.page_ranges@[ri].tail_pages@[page as int]);
            } else {
                assert(page == pre.page_ranges@[ri].tail_pages@.len());
                assert(forall|c: int|
                    0 <= c < pre.ncols_total() ==> !bp2.is_allocated(
                        #[trigger] written.columns@[c],
                    ));
            }

            // Every logical page other than the written tail page kept
            // its content through the tail insert; every page other than
            // the indirection page kept its content through the
            // indirection write.
            assert forall|r2: int, p2: int, k2: bool|
                post.valid_lp(r2, k2, p2) && !(r2 == ri && !k2 && p2 == page) && !(r2 == ri && k2
                    && p2 == base_address.page as int) implies (#[trigger] post.lp_at(
                r2,
                k2,
                p2,
            )).wf(postbp) && post.lp_at(r2, k2, p2).cursor(postbp) == pre.lp_at(r2, k2, p2).cursor(
                bp2,
            ) && (forall|cc: int, off: int|
                0 <= cc < post.lp_at(r2, k2, p2).columns@.len() ==> post.lp_at(r2, k2, p2).cell(
                    postbp,
                    cc,
                    off,
                ) == pre.lp_at(r2, k2, p2).cell(bp2, cc, off)) by {
                let lp = post.lp_at(r2, k2, p2);
                assert(pre.valid_lp(r2, k2, p2));
                assert(lp == pre.lp_at(r2, k2, p2));
                assert(lp.wf(bp2));
                assert(lp.index() != written.index() || lp.tid() != written.tid()) by {
                    if r2 == ri {
                        assert(post.page_ranges@[ri].wf(bp3));
                    } else {
                        if written.index() == lp.index() && written.tid() == lp.tid() {
                            if pre.page_ranges@[ri].tail_pages@.len() > page {
                                // written page existed before: cross-range
                                // distinctness of the old table applies
                                assert(pre.lp_at(ri, false, page as int) == written);
                                assert(pre.valid_lp(ri, false, page as int));
                            } else {
                                // written page is fresh: not allocated in bp2
                                assert(!bp2.is_allocated(written.columns@[0]));
                                assert(bp2.is_allocated(lp.columns@[0]));
                                assert(written.columns@[0] == lp.columns@[0]);
                            }
                            assert(false);
                        }
                    }
                }
                PageRange::lemma_lp_stable(lp, bp2, bp3, written);
                assert(ind_ppid.table_identifier != lp.tid() || ind_ppid.page_index
                    != lp.columns@[0].page_index) by {
                    if r2 == ri {
                        if k2 {
                            assert(pre.page_ranges@[ri].base_pages@[p2].index() != base_lp.index()
                                || p2 == base_address.page as int);
                        } else {
                            assert(pre.page_ranges@[ri].tail_pages@[p2].index()
                                != pre.page_ranges@[ri].base_pages@[
                                base_address.page as int
                            ].index());
                        }
                    } else {
                        assert(pre.valid_lp(ri, true, base_address.page as int));
                        assert(pre.lp_at(ri, true, base_address.page as int) == base_lp);
                    }
                }
                PageRange::lemma_lp_stable_ppid(lp, bp3, postbp, ind_ppid);
            }

            // The written tail page itself, and the base page that had
            // its indirection overwritten, are well formed after both
            // writes.
            assert(post.page_ranges@[ri].wf(postbp));

            // Ranges other than the touched one are unchanged and well
            // formed.
            assert forall|r2: int| 0 <= r2 < post.page_ranges@.len() implies (
            #[trigger] post.page_ranges@[r2]).wf(postbp) && post.page_ranges@[r2].num_updates
                < THRESHOLD by {
                if r2 != ri {
                    assert(post.page_ranges@[r2] == pre.page_ranges@[r2]);
                    assert forall|p2: int|
                        0 <= p2 < post.page_ranges@[r2].base_pages@.len() implies (
                    #[trigger] post.page_ranges@[r2].base_pages@[p2]).wf(postbp) by {
                        assert(post.valid_lp(r2, true, p2));
                        assert(post.lp_at(r2, true, p2) == post.page_ranges@[r2].base_pages@[p2]);
                    }
                    assert forall|p2: int|
                        0 <= p2 < post.page_ranges@[r2].tail_pages@.len() implies (
                    #[trigger] post.page_ranges@[r2].tail_pages@[p2]).wf(postbp) by {
                        assert(post.valid_lp(r2, false, p2));
                        assert(post.lp_at(r2, false, p2) == post.page_ranges@[r2].tail_pages@[p2]);
                    }
                }
            }

            // Cross-range page distinctness still holds: the only page
            // that might be new is the fresh tail page.
            assert forall|r1: int, p1: int, k1: bool, r2: int, p2: int, k2: bool|
                post.valid_lp(r1, k1, p1) && post.valid_lp(r2, k2, p2) && r1 != r2
                    implies #[trigger] post.lp_at(r1, k1, p1).index() != #[trigger] post.lp_at(
                r2,
                k2,
                p2,
            ).index() by {
                if pre.valid_lp(r1, k1, p1) && pre.valid_lp(r2, k2, p2) {
                    assert(post.lp_at(r1, k1, p1) == pre.lp_at(r1, k1, p1));
                    assert(post.lp_at(r2, k2, p2) == pre.lp_at(r2, k2, p2));
                } else {
                    // Exactly one of the two is the fresh tail page.
                    if !pre.valid_lp(r1, k1, p1) {
                        assert(r1 == ri && !k1 && p1 == page);
                        assert(post.lp_at(r1, k1, p1) == written);
                        assert(!bp2.is_allocated(written.columns@[0]));
                        assert(bp2.is_allocated(pre.lp_at(r2, k2, p2).columns@[0]));
                        if written.index() == pre.lp_at(r2, k2, p2).index() {
                            assert(written.columns@[0] == pre.lp_at(r2, k2, p2).columns@[0]);
                        }
                    } else {
                        assert(r2 == ri && !k2 && p2 == page);
                        assert(post.lp_at(r2, k2, p2) == written);
                        assert(!bp2.is_allocated(written.columns@[0]));
                        assert(bp2.is_allocated(pre.lp_at(r1, k1, p1).columns@[0]));
                        if written.index() == pre.lp_at(r1, k1, p1).index() {
                            assert(written.columns@[0] == pre.lp_at(r1, k1, p1).columns@[0]);
                        }
                    }
                }
            }

            // Every old record still satisfies its row conditions; the
            // new tail row and the updated base row satisfy theirs.
            assert forall|rid: int| 0 <= rid < post.next_rid implies post.row_ok(postbp, rid) by {
                if rid == t_new {
                    assert(post.rows@[rid].chain == b);
                    assert(post.row_cell(postbp, rid, post.ncols_total() - 1) == Some(
                        l as i64,
                    )) by {
                        assert(written.cell(bp3, pre.ncols_total() - 1, offset as int) == Some(
                            ind,
                        ));
                        assert(written.index() != base_lp.index());
                        PageRange::lemma_lp_stable_ppid(written, bp3, postbp, ind_ppid);
                    }
                    assert(post.lp_for(rid).cursor(postbp) > offset) by {
                        PageRange::lemma_lp_stable_ppid(written, bp3, postbp, ind_ppid);
                    }
                } else if rid == b {
                    assert(pre.row_ok(pre_bp, b));
                    assert(post.rows@[b].link == t_new);
                    assert(post.lp_for(b) == base_lp);
                    assert(post.row_cell(postbp, b, post.ncols_total() - 1) == Some(
                        t_new as i64,
                    )) by {
                        assert(postbp.page_at(ind_ppid) == bp3.page_at(ind_ppid).update(
                            base_address.offset as int,
                            Some(new_rid as i64),
                        ));
                        bp3.lemma_page_at_wf(ind_ppid);
                    }
                    assert(post.lp_for(b).cursor(postbp) > base_address.offset);
                    assert(!post.rows@[t_new].is_base && post.rows@[t_new].chain == b);
                } else {
                    assert(pre.row_ok(pre_bp, rid));
                    assert(post.rows@[rid] == pre.rows@[rid]);
                    let a = pre.page_directory@[rid];
                    let m = pre.rows@[rid];
                    assert(post.page_directory@[rid] == a);
                    let lp = pre.lp_for(rid);
                    assert(post.lp_for(rid) == lp);
                    // the record's cells are unchanged
                    assert((post.row_cell(postbp, rid, post.ncols_total() - 1) == pre.row_cell(
                        pre_bp,
                        rid,
                        post.ncols_total() - 1,
                    )) && (post.lp_for(rid).cursor(postbp) >= pre.lp_for(rid).cursor(pre_bp))) by {
                        PageRange::lemma_lp_preserved(lp, pre_bp, bp2);
                        if m.is_base {
                            if a.range == ri && a.page == base_address.page {
                                // same base page as the updated record:
                                // only the indirection cell of the updated
                                // offset changed, and offsets differ
                                assert(a.offset != base_address.offset) by {
                                    if a.offset == base_address.offset {
                                        assert(a == base_address);
                                        assert(pre.rows@[rid].is_base == pre.rows@[b].is_base);
                                        if rid < b {
                                            assert(pre.page_directory@[rid]
                                                != pre.page_directory@[b]);
                                        } else {
                                            assert(pre.page_directory@[b]
                                                != pre.page_directory@[rid]);
                                        }
                                    }
                                }
                                assert(lp == base_lp);
                                PageRange::lemma_lp_stable(lp, bp2, bp3, written);
                                assert(postbp.page_at(ind_ppid) == bp3.page_at(ind_ppid).update(
                                    base_address.offset as int,
                                    Some(new_rid as i64),
                                ));
                                bp3.lemma_page_at_wf(ind_ppid);
                            } else {
                                assert(post.valid_lp(a.range as int, true, a.page as int));
                                assert(!(a.range == ri && a.page == page && false));
                                assert(post.lp_at(a.range as int, true, a.page as int) == lp);
                            }
                        } else {
                            if a.range == ri && a.page == page {
                                // same tail page as the new record: the
                                // write landed at the old cursor, above
                                // this record's offset
                                assert(lp == written);
                                PageRange::lemma_lp_preserved(lp, pre_bp, bp2);
                                assert(a.offset < offset) by {
                                    assert(a.offset < lp.cursor(pre_bp));
                                    assert(lp.cursor(bp2) == offset);
                                }
                                assert(written.cell(bp3, pre.ncols_total() - 1, a.offset as int)
                                    == written.cell(bp2, pre.ncols_total() - 1, a.offset as int));
                                assert(written.cursor(bp3) == offset + 1);
                                PageRange::lemma_lp_stable_ppid(written, bp3, postbp, ind_ppid);
                            } else {
                                assert(post.valid_lp(a.range as int, false, a.page as int));
                                assert(post.lp_at(a.range as int, false, a.page as int) == lp);
                            }
                        }
                    }
                    // the row conditions on the chain metadata still hold
                    assert(post.rows@[m.link] .is_base == pre.rows@[m.link].is_base);
                    assert(post.rows@[m.link].chain == pre.rows@[m.link].chain);
                    assert(post.rows@[m.link].depth == pre.rows@[m.link].depth);
                    if !m.is_base {
                        assert(post.rows@[m.chain].is_base == pre.rows@[m.chain].is_base);
                    }
                }
            }

            // Address uniqueness: the new tail row's address is fresh.
            assert forall|r1: int, r2: int|
                0 <= r1 < r2 < post.next_rid && post.rows@[r1].is_base == post.rows@[
                    r2
                ].is_base implies #[trigger] post.page_directory@[r1]
                != #[trigger] post.page_directory@[r2] by {
                if r2 == t_new {
                    if !post.rows@[r1].is_base && post.page_directory@[r1] == post.page_directory@[
                        t_new
                    ] {
                        let a = pre.page_directory@[r1];
                        assert(pre.row_ok(pre_bp, r1));
                        assert(a.range == ri && a.page == page && a.offset == offset);
                        assert(pre.lp_for(r1) == written);
                        assert(BufferPool::preserves(pre_bp, bp2) && BufferPool::same_files(pre_bp, bp2)) by {
                assert(bp2 == pre_bp);
            }
            pre.lemma_wf_preserved(pre_bp, bp2);
                        assert(a.offset < written.cursor(bp2));
                        assert(false);
                    }
                } else {
                    assert(pre.rows@[r1].is_base == post.rows@[r1].is_base);
                    assert(pre.rows@[r2].is_base == post.rows@[r2].is_base);
                }
            }
            assert(post.wf(postbp));

            // The reported row values of the new tail.
            assert forall|cc: int|
                0 <= cc < pre.num_columns implies post.row_cell(postbp, t_new, cc) == cumulative@[
                cc
            ] by {
                assert(written.cell(bp3, cc, offset as int) == cumulative@[cc]);
                PageRange::lemma_lp_stable_ppid(written, bp3, postbp, ind_ppid);
            }
            assert(post.page_directory@ =~= pre.page_directory@.push(
                post.page_directory@.last(),
            ));
        }
    }


    /// Append a base row carrying `wrapped` (the user columns followed by
    /// the new record's own RID as its indirection), opening a new page
    /// range when the current one is filled. Records the new row's
    /// address.
    #[verifier::rlimit(100)]
    fn apply_base(&mut self, bp: &mut BufferPool, wrapped: &Vec<Option<i64>>)
        requires
            old(bp).wf(),
            old(self).wf(*old(bp)),
            wrapped@.len() == old(self).ncols_total(),
            wrapped@[old(self).ncols_total() - 1] == Some(old(self).next_rid as i64),
            old(self).next_rid + 1 <= 0x7fff_ffff_ffff_ffff,
            old(self).next_rid + 1 <= usize::MAX,
        ensures
            final(bp).wf(),
            final(self).wf(*final(bp)),
            final(bp).names() == old(bp).names(),
            table_files_grow(
                *old(bp),
                *final(bp),
                old(self).table_identifier,
                old(self).ncols_total(),
            ),
            final(self).next_rid == old(self).next_rid + 1,
            final(self).rows@ == old(self).rows@.push(
                RowMeta {
                    is_base: true,
                    chain: old(self).next_rid as int,
                    link: old(self).next_rid as int,
                    depth: 0,
                },
            ),
            forall|c: int| 0 <= c < old(self).num_columns ==> final(self).row_cell(
                *final(bp),
                old(self).next_rid as int,
                c,
            ) == wrapped@[c],
            final(self).indexer == old(self).indexer,
            final(self).name == old(self).name,
            final(self).num_columns == old(self).num_columns,
            final(self).key_column == old(self).key_column,
            final(self).table_identifier == old(self).table_identifier,
            final(self).dead_rids == old(self).dead_rids,
            final(self).page_directory@ == old(self).page_directory@.push(
                final(self).page_directory@.last(),
            ),
    {
        let ghost pre = *old(self);
        let ghost pre_bp = *old(bp);
        let last = self.next_page_range;
        let ghost b = pre.next_rid as int;
        let ghost mut case_b = false;
        let ghost mut bpa = *bp;
        let ghost mut bpb = *bp;
        let ghost mut nr_snap = pre.page_ranges@[0];
        let (ri, p, off) = match self.page_ranges[last].insert_base(bp, wrapped) {
            Ok(po) => (last, po.0, po.1),
            Err(_) => {
                // This page range is full: add a new range and retry.
                proof {
                    case_b = true;
                    bpa = *bp;
                }
                let nr = PageRange::new(
                    self.table_identifier,
                    self.num_columns + NUM_METADATA_COLS,
                    bp,
                );
                proof {
                    bpb = *bp;
                    nr_snap = nr;
                }
                self.page_ranges.push(nr);
                let cur_len = self.page_ranges.len();
                self.next_page_range = cur_len - 1;
                let fresh_index = self.next_page_range;
                let r2 = self.page_ranges[fresh_index].insert_base(bp, wrapped);
                match r2 {
                    Ok(po2) => (fresh_index, po2.0, po2.1),
                    Err(_) => {
                        proof {
                            assert(false);
                        }
                        (fresh_index, 0, 0)
                    },
                }
            },
        };
        self.page_directory.push(Address::new(ri, p, off));
        self.row_kinds.push(true);
        proof {
            self.rows@ = self.rows@.push(
                RowMeta { is_base: true, chain: b, link: b, depth: 0 },
            );
        }
        self.next_rid = self.next_rid + 1;
        proof {
            let post = *self;
            let postbp = *bp;
            let ria = ri as int;
            let written = post.page_ranges@[ria].base_pages@[p as int];
            assert(written.wf(postbp)) by {
                assert(post.page_ranges@[ria].wf(postbp));
            }
            // When the written page did not exist before, its physical
            // pages were not allocated before.
            assert(!pre.valid_lp(ria, true, p as int) ==> !pre_bp.is_allocated(
                written.columns@[0],
            )) by {
                if !pre.valid_lp(ria, true, p as int) {
                    if case_b {
                        assert(ria == pre.page_ranges@.len());
                        assert(p == 0);
                        assert(written == nr_snap.base_pages@[0]);
                        assert(!bpa.is_allocated(nr_snap.base_pages@[0].columns@[0]));
                        assert(pre_bp.is_allocated(written.columns@[0]) ==> bpa.is_allocated(
                            written.columns@[0],
                        ));
                    } else {
                        assert(ria == last);
                        assert(p >= pre.page_ranges@[ria].base_pages@.len());
                        assert(written == post.page_ranges@[ria].base_pages@.last());
                        assert(!pre_bp.is_allocated(written.columns@[0]));
                    }
                }
            }
            // Every pre-existing logical page kept its content.
            assert forall|r2: int, p2: int, k2: bool|
                pre.valid_lp(r2, k2, p2) implies post.valid_lp(r2, k2, p2) && (#[trigger] post.lp_at(
                r2,
                k2,
                p2,
            )) == pre.lp_at(r2, k2, p2) && (!(r2 == ria && k2 && p2 == p) ==> post.lp_at(
                r2,
                k2,
                p2,
            ).wf(postbp) && post.lp_at(r2, k2, p2).cursor(postbp) == pre.lp_at(r2, k2, p2).cursor(
                pre_bp,
            ) && (forall|cc: int, off2: int|
                0 <= cc < post.lp_at(r2, k2, p2).columns@.len() ==> post.lp_at(r2, k2, p2).cell(
                    postbp,
                    cc,
                    off2,
                ) == pre.lp_at(r2, k2, p2).cell(pre_bp, cc, off2))) by {
                let lp = pre.lp_at(r2, k2, p2);
                assert(lp.wf(pre_bp)) by {
                    assert(pre.page_ranges@[r2].wf(pre_bp));
                }
                assert(post.lp_at(r2, k2, p2) == pre.lp_at(r2, k2, p2)) by {
                    if case_b {
                        assert(post.page_ranges@[r2] == self.page_ranges@[r2]);
                    }
                }
                if !(r2 == ria && k2 && p2 == p) {
                    assert(lp.tid() != written.tid() || lp.index() != written.index()) by {
                        if r2 == ria && !case_b {
                            assert(post.page_ranges@[ria].wf(postbp));
                        } else {
                            if lp.index() == written.index() && lp.tid() == written.tid() {
                                if pre.valid_lp(ria, true, p as int) {
                                    assert(pre.lp_at(ria, true, p as int) == written);
                                    assert(pre.valid_lp(r2, k2, p2));
                                } else {
                                    assert(!pre_bp.is_allocated(written.columns@[0]));
                                    assert(pre_bp.is_allocated(lp.columns@[0]));
                                    assert(written.columns@[0] == lp.columns@[0]);
                                }
                                assert(false);
                            }
                        }
                    }
                    if case_b {
                        PageRange::lemma_lp_preserved(lp, pre_bp, bpa);
                        PageRange::lemma_lp_preserved(lp, bpa, bpb);
                        PageRange::lemma_lp_stable(lp, bpb, postbp, written);
                        assert(lp.cursor(postbp) == lp.cursor(pre_bp));
                        assert(forall|cc: int, off2: int|
                            0 <= cc < lp.columns@.len() ==> lp.cell(postbp, cc, off2) == lp.cell(
                                pre_bp,
                                cc,
                                off2,
                            ));
                    } else {
                        PageRange::lemma_lp_stable(lp, pre_bp, postbp, written);
                    }
                }
            }
            // Ranges are well formed.
            assert forall|r2: int| 0 <= r2 < post.page_ranges@.len() implies (
            #[trigger] post.page_ranges@[r2]).wf(postbp) && post.page_ranges@[r2].num_updates
                < THRESHOLD by {
                if r2 != ria {
                    assert(post.page_ranges@[r2].base_pages == pre.page_ranges@[r2].base_pages);
                    assert(post.page_ranges@[r2].tail_pages == pre.page_ranges@[r2].tail_pages);
                    assert(post.page_ranges@[r2].num_updates == pre.page_ranges@[r2].num_updates);
                    assert forall|p2: int|
                        0 <= p2 < post.page_ranges@[r2].base_pages@.len() implies (
                    #[trigger] post.page_ranges@[r2].base_pages@[p2]).wf(postbp) by {
                        assert(post.lp_at(r2, true, p2) == post.page_ranges@[r2].base_pages@[p2]);
                        assert(pre.valid_lp(r2, true, p2));
                    }
                    assert forall|p2: int|
                        0 <= p2 < post.page_ranges@[r2].tail_pages@.len() implies (
                    #[trigger] post.page_ranges@[r2].tail_pages@[p2]).wf(postbp) by {
                        assert(post.lp_at(r2, false, p2) == post.page_ranges@[r2].tail_pages@[p2]);
                        assert(pre.valid_lp(r2, false, p2));
                    }
                }
            }
            // Cross-range distinctness.
            assert forall|r1: int, p1: int, k1: bool, r2: int, p2: int, k2: bool|
                post.valid_lp(r1, k1, p1) && post.valid_lp(r2, k2, p2) && r1 != r2
                    implies #[trigger] post.lp_at(r1, k1, p1).index() != #[trigger] post.lp_at(
                r2,
                k2,
                p2,
            ).index() by {
                if pre.valid_lp(r1, k1, p1) && pre.valid_lp(r2, k2, p2) {
                    assert(post.lp_at(r1, k1, p1) == pre.lp_at(r1, k1, p1));
                    assert(post.lp_at(r2, k2, p2) == pre.lp_at(r2, k2, p2));
                } else {
                    let fr = if pre.valid_lp(r1, k1, p1) {
                        r2
                    } else {
                        r1
                    };
                    let fk = if pre.valid_lp(r1, k1, p1) {
                        k2
                    } else {
                        k1
                    };
                    let fp = if pre.valid_lp(r1, k1, p1) {
                        p2
                    } else {
                        p1
                    };
                    let ot = if pre.valid_lp(r1, k1, p1) {
                        pre.lp_at(r1, k1, p1)
                    } else {
                        pre.lp_at(r2, k2, p2)
                    };
                    let nu = post.lp_at(fr, fk, fp);
                    assert(pre_bp.is_allocated(ot.columns@[0])) by {
                        if pre.valid_lp(r1, k1, p1) {
                            assert(pre.page_ranges@[r1].wf(pre_bp));
                        } else {
                            assert(pre.page_ranges@[r2].wf(pre_bp));
                        }
                    }
                    assert(!pre_bp.is_allocated(nu.columns@[0]));
                    assert(nu.wf(postbp)) by {
                        assert(post.page_ranges@[fr].wf(postbp));
                    }
                    if nu.index() == ot.index() && nu.tid() == ot.tid() {
                        assert(nu.columns@[0] == ot.columns@[0]);
                        assert(false);
                    }
                }
            }
            // Rows.
            assert forall|rid: int| 0 <= rid < post.next_rid implies post.row_ok(postbp, rid) by {
                if rid == b {
                    assert(post.rows@[b].link == b);
                    assert(written.cell(postbp, post.ncols_total() - 1, off as int) == wrapped@[
                        post.ncols_total() - 1
                    ]);
                } else {
                    assert(pre.row_ok(pre_bp, rid));
                    assert(post.rows@[rid] == pre.rows@[rid]);
                    let a = pre.page_directory@[rid];
                    let m = pre.rows@[rid];
                    assert(post.page_directory@[rid] == a);
                    let lp = pre.lp_for(rid);
                    assert(post.lp_for(rid) == lp);
                    assert((post.row_cell(postbp, rid, post.ncols_total() - 1) == pre.row_cell(
                        pre_bp,
                        rid,
                        post.ncols_total() - 1,
                    )) && (post.lp_for(rid).cursor(postbp) >= pre.lp_for(rid).cursor(pre_bp))) by {
                        if case_b {
                            assert(a.range < ria);
                            assert(pre.valid_lp(a.range as int, m.is_base, a.page as int));
                        } else if m.is_base && a.range == ria && a.page == p {
                            assert(a.offset < off) by {
                                assert(a.offset < lp.cursor(pre_bp));
                            }
                            assert(post.page_ranges@[ria].base_pages@[p as int].cell(
                                postbp,
                                post.ncols_total() - 1,
                                a.offset as int,
                            ) == pre.page_ranges@[ria].base_pages@[p as int].cell(
                                pre_bp,
                                post.ncols_total() - 1,
                                a.offset as int,
                            ));
                            assert(post.lp_for(rid) == post.page_ranges@[ria].base_pages@[
                                p as int
                            ]);
                            assert(post.lp_for(rid).cursor(postbp) == off + 1);
                        } else {
                            assert(pre.valid_lp(
                                a.range as int,
                                m.is_base,
                                a.page as int,
                            ));
                        }
                    }
                    assert(post.rows@[m.link].is_base == pre.rows@[m.link].is_base);
                    assert(post.rows@[m.link].chain == pre.rows@[m.link].chain);
                    assert(post.rows@[m.link].depth == pre.rows@[m.link].depth);
                    if !m.is_base {
                        assert(post.rows@[m.chain].is_base == pre.rows@[m.chain].is_base);
                    }
                }
            }
            // Address uniqueness.
            assert forall|r1: int, r2: int|
                0 <= r1 < r2 < post.next_rid && post.rows@[r1].is_base == post.rows@[
                    r2
                ].is_base implies #[trigger] post.page_directory@[r1]
                != #[trigger] post.page_directory@[r2] by {
                if r2 == b {
                    if post.rows@[r1].is_base && post.page_directory@[r1] == post.page_directory@[
                        b
                    ] {
                        let a = pre.page_directory@[r1];
                        assert(pre.row_ok(pre_bp, r1));
                        assert(a.range == ria && a.page == p && a.offset == off);
                        assert(pre.valid_lp(ria, true, p as int));
                        assert(pre.lp_for(r1) == written);
                        assert(a.offset < written.cursor(pre_bp));
                        assert(false);
                    }
                } else {
                    assert(pre.rows@[r1].is_base == post.rows@[r1].is_base);
                    assert(pre.rows@[r2].is_base == post.rows@[r2].is_base);
                }
            }
            assert(post.wf(postbp));
            assert forall|c: int|
                0 <= c < pre.num_columns implies post.row_cell(postbp, b, c) == wrapped@[c] by {
                assert(written.cell(postbp, c, off as int) == wrapped@[c]);
            }
            assert(post.page_directory@ =~= pre.page_directory@.push(
                post.page_directory@.last(),
            ));
        }
    }


    /// Create a new base record carrying `columns`, rejecting duplicate
    /// primary keys, and immediately append the chain-head tail copy.
    /// Returns false, changing nothing, when the column count is wrong or
    /// the primary key already exists.
    #[verifier::rlimit(100)]
    pub fn insert(&mut self, bp: &mut BufferPool, columns: Vec<i64>) -> (r: bool)
        requires
            old(bp).wf(),
            old(self).wf(*old(bp)),
            old(self).next_rid + 2 <= 0x7fff_ffff_ffff_ffff,
            old(self).next_rid + 2 <= usize::MAX,
        ensures
            final(bp).wf(),
            final(self).wf(*final(bp)),
            final(bp).names() == old(bp).names(),
            table_files_grow(
                *old(bp),
                *final(bp),
                old(self).table_identifier,
                old(self).ncols_total(),
            ),
            r <==> (columns@.len() == old(self).num_columns && old(self).key_rids(
                columns@[old(self).key_column as int],
            ).len() == 0),
            !r ==> *final(self) == *old(self) && BufferPool::preserves(*old(bp), *final(bp)),
            r ==> ({
                let b = old(self).next_rid as int;
                &&& final(self).next_rid == old(self).next_rid + 2
                &&& final(self).rows@.len() == old(self).rows@.len() + 2
                &&& final(self).rows@[b].is_base && final(self).rows@[b].link == b + 1
                &&& !final(self).rows@[b + 1].is_base && final(self).rows@[b + 1].chain == b
                    && final(self).rows@[b + 1].link == b && final(self).rows@[b + 1].depth == 1
                &&& final(self).latest(b) == b + 1
                &&& forall|c: int| 0 <= c < old(self).num_columns ==> final(self).row_cell(
                    *final(bp),
                    b + 1,
                    c,
                ) == Some(columns@[c])
                &&& final(self).key_rids(columns@[old(self).key_column as int]) == seq![
                    old(self).next_rid,
                ]
                &&& final(self).name == old(self).name
                &&& final(self).num_columns == old(self).num_columns
                &&& final(self).key_column == old(self).key_column
                &&& final(self).table_identifier == old(self).table_identifier
                &&& final(self).dead_rids == old(self).dead_rids
            }),
    {
        let ghost pre = *old(self);
        let ghost pre_bp = *old(bp);
        if columns.len() != self.num_columns {
            return false;
        }

        let key = columns[self.key_column];
        let matching_rids = self.locate_range(key, key, self.key_column);
        proof {
            lemma_range_single(pre.indexer.col(pre.key_column as int), key);
        }
        if matching_rids.len() != 0 {
            return false;
        }

        // Wrap the values and preemptively add the RID of the tail record
        // copy we will add later; until then the base row links to
        // itself.
        let b_rid = self.next_rid;
        let mut wrapped: Vec<Option<i64>> = Vec::new();
        let mut c: usize = 0;
        while c < self.num_columns
            invariant
                *self == pre,
                c == wrapped@.len() <= pre.num_columns,
                columns@.len() == pre.num_columns,
                forall|k: int| 0 <= k < c ==> wrapped@[k] == Some(columns@[k]),
            decreases pre.num_columns - c,
        {
            wrapped.push(Some(columns[c]));
            c = c + 1;
        }
        wrapped.push(Some(b_rid as i64));

        // Append the base row and record its address.
        self.apply_base(bp, &wrapped);
        let ghost mid1 = *self;
        let ghost bp1 = *bp;

        // Insert the new record into every column's index.
        self.indexer.insert(&columns, b_rid);
        let ghost mid2 = *self;
        proof {
            assert forall|c2: int, v: i64, j: int|
                0 <= c2 < mid2.indexer.b_trees@.len() && 0 <= j < rids_of(
                    mid2.indexer.col(c2),
                    v,
                ).len() implies #[trigger] rids_of(mid2.indexer.col(c2), v)[j] < mid2.next_rid
                && mid2.rows@[rids_of(mid2.indexer.col(c2), v)[j] as int].is_base by {
                let x = rids_of(mid2.indexer.col(c2), v)[j];
                lemma_col_step_members(
                    pre.indexer.b_trees@[c2],
                    mid2.indexer.b_trees@[c2],
                    None,
                    columns@[c2],
                    b_rid,
                );
                if x != b_rid {
                    assert(rids_of(pre.indexer.col(c2), v).contains(x));
                    let j2 = choose|j2: int|
                        0 <= j2 < rids_of(pre.indexer.col(c2), v).len() && rids_of(
                            pre.indexer.col(c2),
                            v,
                        )[j2] == x;
                    assert(rids_of(pre.indexer.col(c2), v)[j2] < pre.next_rid && pre.rows@[
                        rids_of(pre.indexer.col(c2), v)[j2] as int
                    ].is_base);
                }
            }
            assert forall|v: i64| #[trigger] rids_of(
                mid2.indexer.col(pre.key_column as int),
                v,
            ).len() <= 1 by {
                lemma_key_unique_col(
                    pre.indexer.b_trees@[pre.key_column as int],
                    mid2.indexer.b_trees@[pre.key_column as int],
                    None,
                    key,
                    b_rid,
                );
            }
            assert(mid2.wf(bp1)) by {
                assert forall|rid: int| 0 <= rid < mid2.next_rid implies mid2.row_ok(
                    bp1,
                    rid,
                ) by {
                    assert(mid1.row_ok(bp1, rid));
                    assert(mid2.lp_for(rid) == mid1.lp_for(rid));
                }
                assert forall|r1: int, p1: int, k1: bool, r2: int, p2: int, k2: bool|
                    mid2.valid_lp(r1, k1, p1) && mid2.valid_lp(r2, k2, p2) && r1 != r2
                        implies #[trigger] mid2.lp_at(r1, k1, p1).index()
                    != #[trigger] mid2.lp_at(r2, k2, p2).index() by {
                    assert(mid2.lp_at(r1, k1, p1) == mid1.lp_at(r1, k1, p1));
                    assert(mid2.lp_at(r2, k2, p2) == mid1.lp_at(r2, k2, p2));
                    assert(mid1.valid_lp(r1, k1, p1) && mid1.valid_lp(r2, k2, p2));
                }
            }
            assert(mid2.key_rids(key) == seq![b_rid]) by {
                lemma_key_unique_col(
                    pre.indexer.b_trees@[pre.key_column as int],
                    mid2.indexer.b_trees@[pre.key_column as int],
                    None,
                    key,
                    b_rid,
                );
            }
        }

        // Also add the tail record corresponding to this base record.
        let ok = self.update(bp, key, wrapped_without_meta(&wrapped, self.num_columns));
        proof {
            assert(ok);
            assert(final(self).key_rids(key) == seq![b_rid]);
        }
        true
    }


    /// A RID belongs to the chain of base record `rid`: it is the base
    /// itself or one of its tail rows.
    pub open spec fn in_chain(self, h: int, rid: int) -> bool {
        &&& 0 <= h < self.next_rid
        &&& (h == rid || (!self.rows@[h].is_base && self.rows@[h].chain == rid))
    }

    /// The row reached from `h` by walking `k` indirection hops
    /// backwards, stopping early at a base row.
    pub open spec fn version_target(self, h: int, k: nat) -> int
        decreases k,
    {
        if k == 0 || self.rows@[h].is_base {
            h
        } else {
            self.version_target(self.rows@[h].link, (k - 1) as nat)
        }
    }

    /// The row holding the requested relative version of a base record:
    /// the latest row when the record was never updated, else the row
    /// `-relative_version` hops before the latest, clamped at the chain
    /// head's predecessor walk into the base.
    pub open spec fn version_rid(self, b: int, relative_version: int) -> int {
        if self.rows@[b].link == b {
            b
        } else {
            self.version_target(self.rows@[b].link, (0 - relative_version) as nat)
        }
    }

    /// At relative version zero the walk goes nowhere: the selected row
    /// is the chain's latest row, so a version read at zero returns what
    /// a plain select returns.
    pub proof fn lemma_version_zero_is_latest(self, bp: BufferPool, b: int)
        requires
            self.wf(bp),
            0 <= b < self.next_rid,
            self.rows@[b].is_base,
        ensures
            self.version_rid(b, 0) == self.latest(b),
    {
        assert(self.row_ok(bp, b));
    }

    /// The version walk stays on the chain it started on.
    pub proof fn lemma_version_target_in_chain(self, bp: BufferPool, h: int, b: int, k: nat)
        requires
            self.wf(bp),
            0 <= b < self.next_rid,
            self.rows@[b].is_base,
            self.in_chain(h, b),
        ensures
            self.in_chain(self.version_target(h, k), b),
        decreases k,
    {
        if k == 0 || self.rows@[h].is_base {
        } else {
            assert(self.row_ok(bp, h));
            self.lemma_version_target_in_chain(bp, self.rows@[h].link, b, (k - 1) as nat);
        }
    }

    /// Walk the indirection chain backwards from `tail_rid` for
    /// `-relative_version` hops, stopping early at the base. Returns
    /// whether the final row is the base, and its RID.
    pub fn get_version(&self, bp: &mut BufferPool, rid: RID, tail_rid: RID, relative_version: i64) -> (r: (bool, RID))
        requires
            old(bp).wf(),
            self.wf(*old(bp)),
            relative_version <= 0,
            relative_version > i64::MIN,
            rid < self.next_rid,
            self.rows@[rid as int].is_base,
            self.in_chain(tail_rid as int, rid as int),
        ensures
            final(bp).wf(),
            self.wf(*final(bp)),
            BufferPool::preserves(*old(bp), *final(bp)),
            BufferPool::same_files(*old(bp), *final(bp)),
            (r.0 <==> r.1 == rid),
            self.in_chain(r.1 as int, rid as int),
            r.1 == self.version_target(tail_rid as int, (0 - relative_version) as nat),
    {
        let ghost pre_bp = *old(bp);
        let ghost t0 = tail_rid as int;
        let mut version: i64 = 0;
        let mut tail_rid = tail_rid;
        let mut projected_columns: Vec<usize> = Vec::new();
        let mut c: usize = 0;
        let total = self.num_columns + NUM_METADATA_COLS;
        while c < total
            invariant
                c == projected_columns@.len() <= total,
                total == self.ncols_total(),
                forall|k: int| 0 <= k < c ==> projected_columns@[k] == (if k == total - 1 {
                    1usize
                } else {
                    0usize
                }),
            decreases total - c,
        {
            if c == total - 1 {
                projected_columns.push(1);
            } else {
                projected_columns.push(0);
            }
            c = c + 1;
        }
        // Starting from the newest version, follow each row to its
        // predecessor.
        while version > relative_version && tail_rid != rid
            invariant
                bp.wf(),
                pre_bp.wf(),
                self.wf(pre_bp),
                self.wf(*bp),
                BufferPool::preserves(pre_bp, *bp),
                BufferPool::same_files(pre_bp, *bp),
                relative_version <= version <= 0,
                relative_version > i64::MIN,
                rid < self.next_rid,
                self.rows@[rid as int].is_base,
                self.in_chain(tail_rid as int, rid as int),
                self.version_target(t0, (0 - relative_version) as nat) == self.version_target(
                    tail_rid as int,
                    (version - relative_version) as nat,
                ),
                projected_columns@.len() == self.ncols_total(),
                projected_columns@[self.ncols_total() - 1] != 0,
            decreases version - relative_version,
        {
            proof {
                assert(self.row_ok(pre_bp, tail_rid as int));
            }
            let tail_address = self.page_directory[tail_rid];
            let ghost loop_bp = *bp;
            match self.page_ranges[tail_address.range].read_tail_record(
                bp,
                tail_address.page,
                tail_address.offset,
                &projected_columns,
            ) {
                Ok(tail_columns) => {
                    proof {
                        let lp = self.lp_for(tail_rid as int);
                        lp.lemma_proj_cells_last(
                            loop_bp,
                            tail_address.offset as int,
                            projected_columns@,
                            0,
                        );
                    }
                    let last = tail_columns[tail_columns.len() - 1];
                    let pred = match last {
                        Some(v) => v,
                        None => {
                            proof {
                                assert(false);
                            }
                            0
                        },
                    };
                    proof {
                        assert(pred == self.rows@[tail_rid as int].link as i64);
                        assert(0 <= self.rows@[tail_rid as int].link < self.next_rid);
                    }
                    tail_rid = pred as usize;
                },
                Err(_) => {
                    proof {
                        assert(false);
                    }
                },
            }
            proof {
                self.lemma_wf_preserved(pre_bp, *bp);
            }
            version = version - 1;
        }
        ((tail_rid == rid), tail_rid)
    }

    /// Select a record's row at a relative version: walk back from the
    /// latest row the requested number of hops, stopping at the base.
    fn select_by_rid_version(&self, bp: &mut BufferPool, rid: RID, proj: &Vec<usize>, relative_version: i64) -> (r: Result<Vec<Option<i64>>, DatabaseError>)
        requires
            old(bp).wf(),
            self.wf(*old(bp)),
            relative_version <= 0,
            relative_version > i64::MIN,
            rid < self.next_rid,
            self.rows@[rid as int].is_base,
        ensures
            final(bp).wf(),
            self.wf(*final(bp)),
            BufferPool::preserves(*old(bp), *final(bp)),
            BufferPool::same_files(*old(bp), *final(bp)),
            r matches Ok(v) && v@ == self.selected_row(
                *old(bp),
                self.version_rid(rid as int, relative_version as int),
                proj@,
            ),
    {
        let ghost pre_bp = *old(bp);
        let eff = self.build_eff_proj(proj);
        let a = self.page_directory[rid];
        proof {
            assert(self.row_ok(pre_bp, rid as int));
        }
        let cells = match self.page_ranges[a.range].read_base_record(bp, a.page, a.offset, &eff) {
            Ok(v) => v,
            Err(e) => {
                proof {
                    assert(false);
                }
                return Err(e);
            },
        };
        proof {
            let lp = self.lp_for(rid as int);
            lp.lemma_proj_cells_last(pre_bp, a.offset as int, eff@, 0);
        }
        let last = cells[cells.len() - 1];
        let link = match last {
            Some(l) => l,
            None => {
                proof {
                    assert(false);
                }
                0
            },
        };
        if link == rid as i64 {
            // There is no record more recent than this one: return it.
            let mut cells = cells;
            let length = cells.len() - 1;
            cells.truncate(length);
            proof {
                assert(self.version_rid(rid as int, relative_version as int) == rid);
                assert(cells@ =~= self.selected_row(pre_bp, rid as int, proj@));
                self.lemma_wf_preserved(pre_bp, *bp);
            }
            return Ok(cells);
        }
        let tail_rid = link as usize;
        proof {
            assert(tail_rid == self.rows@[rid as int].link);
            assert(self.in_chain(tail_rid as int, rid as int));
        }
        let ghost bp1 = *bp;
        proof {
            self.lemma_wf_preserved(pre_bp, bp1);
        }
        let (is_base, historic_rid) = self.get_version(bp, rid, tail_rid, relative_version);
        let ghost bp2 = *bp;
        proof {
            assert(self.row_ok(pre_bp, historic_rid as int));
        }
        let historic_address = self.page_directory[historic_rid];
        let res = if is_base {
            self.page_ranges[historic_address.range].read_base_record(
                bp,
                historic_address.page,
                historic_address.offset,
                &eff,
            )
        } else {
            self.page_ranges[historic_address.range].read_tail_record(
                bp,
                historic_address.page,
                historic_address.offset,
                &eff,
            )
        };
        let mut cols = match res {
            Ok(v) => v,
            Err(e) => {
                proof {
                    assert(false);
                }
                return Err(e);
            },
        };
        proof {
            let lp = self.lp_for(historic_rid as int);
            lp.lemma_proj_cells_last(bp2, historic_address.offset as int, eff@, 0);
            lp.lemma_proj_cells_stable(
                pre_bp,
                bp2,
                historic_address.offset as int,
                eff@,
                0,
            );
        }
        let length = cols.len() - 1;
        cols.truncate(length);
        proof {
            assert(historic_rid == self.version_rid(rid as int, relative_version as int));
            assert(cols@ =~= self.selected_row(pre_bp, historic_rid as int, proj@));
            self.lemma_wf_preserved(pre_bp, *bp);
        }
        Ok(cols)
    }

    /// Select the requested relative version of every record carrying the
    /// search key in the searched column.
    pub fn select_version(&self, bp: &mut BufferPool, search_key: i64, search_key_index: usize, proj: Vec<usize>, relative_version: i64) -> (r: Vec<Record>)
        requires
            old(bp).wf(),
            self.wf(*old(bp)),
            search_key_index < self.num_columns,
            relative_version <= 0,
            relative_version > i64::MIN,
        ensures
            final(bp).wf(),
            self.wf(*final(bp)),
            BufferPool::preserves(*old(bp), *final(bp)),
            BufferPool::same_files(*old(bp), *final(bp)),
            ({
                let rids = range_rids(
                    self.indexer.col(search_key_index as int),
                    search_key,
                    search_key,
                );
                &&& r@.len() == rids.len()
                &&& forall|i: int| 0 <= i < rids.len() ==> {
                    &&& (#[trigger] r@[i]).rid == rids[i]
                    &&& r@[i].key == search_key
                    &&& r@[i].columns@ == self.selected_row(
                        *old(bp),
                        self.version_rid(rids[i] as int, relative_version as int),
                        proj@,
                    )
                }
            }),
    {
        let ghost pre_bp = *old(bp);
        let rids = self.locate_range(search_key, search_key, search_key_index);
        let mut results: Vec<Record> = Vec::new();
        proof {
            lemma_range_single(self.indexer.col(search_key_index as int), search_key);
        }
        let mut i: usize = 0;
        while i < rids.len()
            invariant
                bp.wf(),
                pre_bp.wf(),
                self.wf(pre_bp),
                self.wf(*bp),
                BufferPool::preserves(pre_bp, *bp),
                BufferPool::same_files(pre_bp, *bp),
                i <= rids@.len(),
                rids@ == rids_of(self.indexer.col(search_key_index as int), search_key),
                search_key_index < self.num_columns,
                relative_version <= 0,
                relative_version > i64::MIN,
                results@.len() == i,
                forall|j: int| 0 <= j < i ==> {
                    &&& (#[trigger] results@[j]).rid == rids@[j]
                    &&& results@[j].key == search_key
                    &&& results@[j].columns@ == self.selected_row(
                        pre_bp,
                        self.version_rid(rids@[j] as int, relative_version as int),
                        proj@,
                    )
                },
            decreases rids@.len() - i,
        {
            let rid = rids[i];
            proof {
                assert(rids_of(self.indexer.col(search_key_index as int), search_key)[i as int]
                    < self.next_rid);
            }
            let ghost loop_pre = *bp;
            match self.select_by_rid_version(bp, rid, &proj, relative_version) {
                Ok(column_values) => {
                    proof {
                        let h = self.version_rid(rid as int, relative_version as int);
                        assert(self.in_chain(h, rid as int)) by {
                            assert(self.row_ok(pre_bp, rid as int));
                            if self.rows@[rid as int].link != rid {
                                self.lemma_version_target_in_chain(
                                    pre_bp,
                                    self.rows@[rid as int].link,
                                    rid as int,
                                    (0 - relative_version) as nat,
                                );
                            }
                        }
                        assert(self.row_ok(pre_bp, h));
                        self.lp_for(h).lemma_proj_cells_stable(
                            pre_bp,
                            loop_pre,
                            self.page_directory@[h].offset as int,
                            self.eff_proj(proj@),
                            0,
                        );
                    }
                    results.push(Record::new(rid, search_key, column_values));
                },
                Err(_) => {
                    proof {
                        assert(false);
                    }
                },
            }
            i = i + 1;
        }
        results
    }


    /// The first selected cell of a row, with the null sentinel and an
    /// empty selection read as zero.
    pub open spec fn first_val(s: Seq<Option<i64>>) -> i64 {
        if s.len() > 0 && s[0] is Some {
            s[0].unwrap()
        } else {
            0
        }
    }

    /// The wrapping sum over the first `n` records of the first projected
    /// cell of each record's latest row.
    pub open spec fn sum_prefix(self, bp: BufferPool, rids: Seq<RID>, proj: Seq<usize>, n: int) -> i64
        decreases n,
    {
        if n <= 0 {
            0
        } else {
            self.sum_prefix(bp, rids, proj, n - 1).wrapping_add(
                Table::first_val(self.selected_row(bp, self.latest(rids[n - 1] as int), proj)),
            )
        }
    }

    /// The wrapping sum over the first `n` records of the first projected
    /// cell of each record's row at the requested relative version.
    pub open spec fn sum_version_prefix(self, bp: BufferPool, rids: Seq<RID>, proj: Seq<usize>, relative_version: int, n: int) -> i64
        decreases n,
    {
        if n <= 0 {
            0
        } else {
            self.sum_version_prefix(bp, rids, proj, relative_version, n - 1).wrapping_add(
                Table::first_val(
                    self.selected_row(
                        bp,
                        self.version_rid(rids[n - 1] as int, relative_version),
                        proj,
                    ),
                ),
            )
        }
    }

    /// The projection selecting `column_index` and the indirection
    /// column.
    pub open spec fn onehot(self, column_index: int) -> Seq<usize> {
        Seq::new(
            (self.num_columns + 1) as nat,
            |c: int| if c == column_index || c == self.num_columns { 1usize } else { 0usize },
        )
    }

    /// Sum the latest value of one column over all records whose primary
    /// key lies in the inclusive range `[start_range, end_range]`. Cells
    /// holding the null sentinel count as zero; overflowing sums wrap.
    pub fn sum(&self, bp: &mut BufferPool, start_range: i64, end_range: i64, column_index: usize) -> (r: i64)
        requires
            old(bp).wf(),
            self.wf(*old(bp)),
            column_index < self.num_columns,
        ensures
            final(bp).wf(),
            self.wf(*final(bp)),
            BufferPool::preserves(*old(bp), *final(bp)),
            BufferPool::same_files(*old(bp), *final(bp)),
            r == self.sum_prefix(
                *old(bp),
                range_rids(
                    self.indexer.col(self.key_column as int),
                    start_range,
                    end_range,
                ),
                self.onehot(column_index as int),
                range_rids(
                    self.indexer.col(self.key_column as int),
                    start_range,
                    end_range,
                ).len() as int,
            ),
    {
        let ghost pre_bp = *old(bp);
        let rids = self.locate_range(start_range, end_range, self.key_column);
        let ghost orids = rids@;

        let mut projection: Vec<usize> = Vec::new();
        let mut c: usize = 0;
        while c < self.num_columns
            invariant
                c == projection@.len() <= self.num_columns,
                forall|k: int| 0 <= k < c ==> projection@[k] == (if k == column_index {
                    1usize
                } else {
                    0usize
                }),
            decreases self.num_columns - c,
        {
            if c == column_index {
                projection.push(1);
            } else {
                projection.push(0);
            }
            c = c + 1;
        }
        proof {
            assert(projection@.push(1usize) =~= self.onehot(column_index as int));
        }

        let mut sum: i64 = 0;
        let mut i: usize = 0;
        while i < rids.len()
            invariant
                bp.wf(),
                pre_bp.wf(),
                self.wf(pre_bp),
                self.wf(*bp),
                BufferPool::preserves(pre_bp, *bp),
                BufferPool::same_files(pre_bp, *bp),
                i <= rids@.len(),
                rids@ == orids,
                orids == range_rids(
                    self.indexer.col(self.key_column as int),
                    start_range,
                    end_range,
                ),
                column_index < self.num_columns,
                projection@.push(1usize) == self.onehot(column_index as int),
                sum == self.sum_prefix(pre_bp, orids, self.onehot(column_index as int), i as int),
            decreases rids@.len() - i,
        {
            let rid = rids[i];
            proof {
                assert(orids[i as int] < self.next_rid && self.rows@[orids[i as int] as int].is_base)
                    by {
                    lemma_range_rids_members(
                        self.indexer.col(self.key_column as int),
                        start_range,
                        end_range,
                    );
                    assert(rids_of(
                        self.indexer.col(self.key_column as int),
                        range_value_of(
                            self.indexer.col(self.key_column as int),
                            start_range,
                            end_range,
                            i as int,
                        ),
                    ).contains(orids[i as int]));
                }
            }
            let mut proj2 = copy_proj(&projection);
            proj2.push(1);
            let ghost loop_bp = *bp;
            match self.select_by_rid(bp, rid, &proj2) {
                Ok(row_vec) => {
                    let val: i64 = if row_vec.len() > 0 {
                        match row_vec[0] {
                            Some(v) => v,
                            None => 0,
                        }
                    } else {
                        0
                    };
                    proof {
                        let l = self.latest(rid as int);
                        assert(self.row_ok(pre_bp, rid as int));
                        assert(self.row_ok(pre_bp, l));
                        self.lp_for(l).lemma_proj_cells_stable(
                            pre_bp,
                            loop_bp,
                            self.page_directory@[l].offset as int,
                            self.eff_proj(proj2@),
                            0,
                        );
                        assert(row_vec@ == self.selected_row(pre_bp, l, proj2@));
                        assert(val == Table::first_val(row_vec@));
                        assert(self.sum_prefix(
                            pre_bp,
                            orids,
                            self.onehot(column_index as int),
                            i + 1,
                        ) == sum.wrapping_add(val));
                    }
                    sum = sum.wrapping_add(val);
                },
                Err(_) => {
                    proof {
                        assert(false);
                    }
                },
            }
            i = i + 1;
        }
        sum
    }

    /// Sum one column at a relative version over all records whose
    /// primary key lies in the inclusive range. Overflowing sums wrap.
    pub fn sum_version(&self, bp: &mut BufferPool, start_range: i64, end_range: i64, column_index: usize, relative_version: i64) -> (r: i64)
        requires
            old(bp).wf(),
            self.wf(*old(bp)),
            column_index < self.num_columns,
            relative_version <= 0,
            relative_version > i64::MIN,
        ensures
            final(bp).wf(),
            self.wf(*final(bp)),
            BufferPool::preserves(*old(bp), *final(bp)),
            BufferPool::same_files(*old(bp), *final(bp)),
            r == self.sum_version_prefix(
                *old(bp),
                range_rids(
                    self.indexer.col(self.key_column as int),
                    start_range,
                    end_range,
                ),
                Seq::new(self.num_columns as nat, |c: int| if c == column_index { 1usize } else { 0usize }),
                relative_version as int,
                range_rids(
                    self.indexer.col(self.key_column as int),
                    start_range,
                    end_range,
                ).len() as int,
            ),
    {
        let ghost pre_bp = *old(bp);
        let rids = self.locate_range(start_range, end_range, self.key_column);
        let ghost orids = rids@;

        let mut projection: Vec<usize> = Vec::new();
        let mut c: usize = 0;
        while c < self.num_columns
            invariant
                c == projection@.len() <= self.num_columns,
                forall|k: int| 0 <= k < c ==> projection@[k] == (if k == column_index {
                    1usize
                } else {
                    0usize
                }),
            decreases self.num_columns - c,
        {
            if c == column_index {
                projection.push(1);
            } else {
                projection.push(0);
            }
            c = c + 1;
        }
        let ghost pj = Seq::new(
            self.num_columns as nat,
            |c: int| if c == column_index { 1usize } else { 0usize },
        );
        proof {
            assert(projection@ =~= pj);
        }

        let mut sum: i64 = 0;
        let mut i: usize = 0;
        while i < rids.len()
            invariant
                bp.wf(),
                pre_bp.wf(),
                self.wf(pre_bp),
                self.wf(*bp),
                BufferPool::preserves(pre_bp, *bp),
                BufferPool::same_files(pre_bp, *bp),
                i <= rids@.len(),
                rids@ == orids,
                orids == range_rids(
                    self.indexer.col(self.key_column as int),
                    start_range,
                    end_range,
                ),
                projection@ == pj,
                column_index < self.num_columns,
                relative_version <= 0,
                relative_version > i64::MIN,
                sum == self.sum_version_prefix(pre_bp, orids, pj, relative_version as int, i as int),
            decreases rids@.len() - i,
        {
            let rid = rids[i];
            proof {
                lemma_range_rids_members(
                    self.indexer.col(self.key_column as int),
                    start_range,
                    end_range,
                );
                assert(rids_of(
                    self.indexer.col(self.key_column as int),
                    range_value_of(
                        self.indexer.col(self.key_column as int),
                        start_range,
                        end_range,
                        i as int,
                    ),
                ).contains(orids[i as int]));
            }
            let ghost loop_pre = *bp;
            match self.select_by_rid_version(bp, rid, &projection, relative_version) {
                Ok(row_vec) => {
                    let val: i64 = if row_vec.len() > 0 {
                        match row_vec[0] {
                            Some(v) => v,
                            None => 0,
                        }
                    } else {
                        0
                    };
                    proof {
                        let h = self.version_rid(rid as int, relative_version as int);
                        assert(self.in_chain(h, rid as int)) by {
                            assert(self.row_ok(pre_bp, rid as int));
                            if self.rows@[rid as int].link != rid {
                                self.lemma_version_target_in_chain(
                                    pre_bp,
                                    self.rows@[rid as int].link,
                                    rid as int,
                                    (0 - relative_version) as nat,
                                );
                            }
                        }
                        assert(self.row_ok(pre_bp, h));
                        self.lp_for(h).lemma_proj_cells_stable(
                            pre_bp,
                            loop_pre,
                            self.page_directory@[h].offset as int,
                            self.eff_proj(pj),
                            0,
                        );
                        assert(row_vec@ == self.selected_row(pre_bp, h, pj));
                        assert(val == Table::first_val(row_vec@));
                    }
                    sum = sum.wrapping_add(val);
                },
                Err(_) => {
                    proof {
                        assert(false);
                    }
                },
            }
            i = i + 1;
        }
        sum
    }

    /// The tail rows of a chain from `h` down to the chain head: `h`, its
    /// predecessor, and so on until the row whose predecessor is the
    /// chain's base record.
    pub open spec fn chain_from(self, h: RID) -> Seq<RID>
        decreases h,
    {
        let l = self.rows@[h as int].link;
        if l == self.rows@[h as int].chain || !(0 <= l < h) {
            seq![h]
        } else {
            seq![h] + self.chain_from(l as usize)
        }
    }

    /// Delete a record: append every row of its chain to the dead-RID
    /// list and remove their cell values from the indexer. Deleting an
    /// absent key succeeds silently.
    pub fn delete(&mut self, bp: &mut BufferPool, primary_key: i64) -> (r: Result<(), DatabaseError>)
        requires
            old(bp).wf(),
            old(self).wf(*old(bp)),
        ensures
            final(bp).wf(),
            final(self).wf(*final(bp)),
            BufferPool::preserves(*old(bp), *final(bp)),
            BufferPool::same_files(*old(bp), *final(bp)),
            r is Ok,
            final(self).next_rid == old(self).next_rid,
            final(self).rows == old(self).rows,
            final(self).page_directory == old(self).page_directory,
            final(self).page_ranges == old(self).page_ranges,
            final(self).name == old(self).name,
            final(self).num_columns == old(self).num_columns,
            final(self).key_column == old(self).key_column,
            final(self).table_identifier == old(self).table_identifier,
            old(self).dead_rids@.is_prefix_of(final(self).dead_rids@),
            old(self).key_rids(primary_key).len() == 0 ==> *final(self) == *old(self),
            old(self).key_rids(primary_key).len() > 0 ==> ({
                let b = old(self).key_rids(primary_key)[0];
                &&& final(self).key_rids(primary_key).len() == 0
                &&& final(self).dead_rids@ == old(self).dead_rids@.push(b) + (if old(self).rows@[b as int].link == b {
                    Seq::<RID>::empty()
                } else {
                    old(self).chain_from(old(self).rows@[b as int].link as usize)
                })
                &&& forall|c: int, v: i64|
                    0 <= c < old(self).num_columns ==> #[trigger] rids_of(
                        final(self).indexer.col(c),
                        v,
                    ) == rids_of(old(self).indexer.col(c), v) || rids_of(
                        final(self).indexer.col(c),
                        v,
                    ) == without_rid(rids_of(old(self).indexer.col(c), v), b)
            }),
    {
        let ghost pre = *old(self);
        let ghost pre_bp = *old(bp);
        // First, get the RID corresponding to the base record with this
        // primary key.
        let base_rids = self.locate_range(primary_key, primary_key, self.key_column);
        proof {
            lemma_range_single(pre.indexer.col(pre.key_column as int), primary_key);
        }
        if base_rids.len() == 0 {
            // Doesn't exist or has already been deleted: not an error.
            return Ok(());
        }
        let base_rid = base_rids[0];
        proof {
            assert(pre.key_rids(primary_key)[0] == base_rid);
            assert(base_rid < pre.next_rid && pre.rows@[base_rid as int].is_base);
            assert(pre.row_ok(pre_bp, base_rid as int));
        }
        let base_address = self.page_directory[base_rid];
        let full_proj = self.build_full_proj();
        let base_columns = match self.page_ranges[base_address.range].read_base_record(
            bp,
            base_address.page,
            base_address.offset,
            &full_proj,
        ) {
            Ok(v) => v,
            Err(e) => {
                proof {
                    assert(false);
                }
                return Ok(());
            },
        };
        proof {
            let blp = pre.lp_for(base_rid as int);
            blp.lemma_proj_cells_ones(pre_bp, base_address.offset as int, full_proj@, 0);
        }

        // Add the base record's RID to the list of dead RIDs and remove
        // its values from the indexer; the key entry is cleared outright,
        // so the key locates nothing afterwards even when the latest key
        // cell moved away from the searched value.
        self.dead_rids.push(base_rid);
        let elements = wrapped_without_meta(&base_columns, self.num_columns);
        let ghost idx_a = self.indexer;
        self.remove_from_index_checked(elements, base_rid);
        let ghost idx_b = self.indexer;
        self.clear_key_entry(primary_key, base_rid);
        proof {
            assert forall|c: int, v: i64|
                0 <= c < pre.num_columns implies #[trigger] rids_of(self.indexer.col(c), v)
                == rids_of(pre.indexer.col(c), v) || rids_of(self.indexer.col(c), v)
                == without_rid(rids_of(pre.indexer.col(c), v), base_rid) by {
                lemma_without_rid_idempotent(rids_of(pre.indexer.col(c), v), base_rid);
            }
            assert(rids_of(self.indexer.col(pre.key_column as int), primary_key) == without_rid(
                rids_of(pre.indexer.col(pre.key_column as int), primary_key),
                base_rid,
            )) by {
                lemma_without_rid_idempotent(
                    rids_of(pre.indexer.col(pre.key_column as int), primary_key),
                    base_rid,
                );
            }
            assert(without_rid(
                rids_of(pre.indexer.col(pre.key_column as int), primary_key),
                base_rid,
            ) =~= Seq::<RID>::empty()) by {
                let s0 = pre.key_rids(primary_key);
                assert(s0 == seq![base_rid]);
                assert(s0.last() == base_rid);
                assert(s0.drop_last() =~= Seq::<RID>::empty());
                assert(without_rid(s0, base_rid) == without_rid(s0.drop_last(), base_rid));
            }
        }

        // Now walk the chain of tail records, removing each one.
        let last = base_columns[base_columns.len() - 1];
        let tail_rid0 = match last {
            Some(v) => v,
            None => {
                proof {
                    assert(false);
                }
                0
            },
        };
        proof {
            assert(tail_rid0 == pre.rows@[base_rid as int].link as i64);
        }
        if tail_rid0 == base_rid as i64 {
            // There are no tail records: we're done.
            proof {
                pre.lemma_wf_preserved(pre_bp, *bp);
                self.lemma_wf_after_index_shrink(pre, *bp);
                assert(self.dead_rids@ =~= pre.dead_rids@.push(base_rid));
            }
            return Ok(());
        }

        let ghost pk_saved = primary_key;
        let ghost b_saved = base_rid;
        let mut tail_rid: usize = tail_rid0 as usize;
        proof {
            assert(pre.in_chain(tail_rid as int, base_rid as int));
            assert(self.dead_rids@ + pre.chain_from(tail_rid) =~= pre.dead_rids@.push(base_rid)
                + pre.chain_from(tail_rid));
        }
        loop
            invariant_except_break
                self.dead_rids@ + pre.chain_from(tail_rid) == pre.dead_rids@.push(base_rid)
                    + pre.chain_from(tail_rid0 as usize),
            invariant
                bp.wf(),
                pre_bp.wf(),
                pre.wf(pre_bp),
                BufferPool::preserves(pre_bp, *bp),
                BufferPool::same_files(pre_bp, *bp),
                pre.in_chain(tail_rid as int, base_rid as int),
                tail_rid != base_rid,
                base_rid < pre.next_rid,
                pre.rows@[base_rid as int].is_base,
                full_proj@.len() == pre.ncols_total(),
                forall|k: int| 0 <= k < full_proj@.len() ==> full_proj@[k] == 1usize,
                self.name == pre.name,
                self.table_identifier == pre.table_identifier,
                self.num_columns == pre.num_columns,
                self.key_column == pre.key_column,
                self.next_rid == pre.next_rid,
                self.page_ranges == pre.page_ranges,
                self.page_directory == pre.page_directory,
                self.next_page_range == pre.next_page_range,
                self.rows == pre.rows,
                self.row_kinds == pre.row_kinds,
                self.pending_merges == pre.pending_merges,
                pre.dead_rids@.is_prefix_of(self.dead_rids@),
                tail_rid0 == pre.rows@[base_rid as int].link as i64,
                primary_key == pk_saved,
                base_rid == b_saved,
                pre.key_rids(primary_key) == seq![base_rid],
                forall|c: int, v: i64|
                    0 <= c < pre.num_columns ==> #[trigger] rids_of(self.indexer.col(c), v)
                        == rids_of(pre.indexer.col(c), v) || rids_of(self.indexer.col(c), v)
                        == without_rid(rids_of(pre.indexer.col(c), v), base_rid),
                rids_of(self.indexer.col(pre.key_column as int), primary_key) == without_rid(
                    rids_of(pre.indexer.col(pre.key_column as int), primary_key),
                    base_rid,
                ),
                self.indexer.wf(),
                self.indexer.b_trees@.len() == pre.num_columns,
                self.indexer.enabled@.len() == pre.num_columns,
                forall|c2: int, v: i64, j: int|
                    0 <= c2 < self.indexer.b_trees@.len() && 0 <= j < rids_of(
                        self.indexer.col(c2),
                        v,
                    ).len() ==> #[trigger] rids_of(self.indexer.col(c2), v)[j] < pre.next_rid
                        && pre.rows@[rids_of(self.indexer.col(c2), v)[j] as int].is_base,
                forall|v: i64| #[trigger] rids_of(
                    self.indexer.col(pre.key_column as int),
                    v,
                ).len() <= 1,
            ensures
                self.dead_rids@ == pre.dead_rids@.push(base_rid) + pre.chain_from(
                    tail_rid0 as usize,
                ),
            decreases tail_rid,
        {
            proof {
                assert(pre.row_ok(pre_bp, tail_rid as int));
            }
            let tail_address = self.page_directory[tail_rid];
            let ghost loop_bp = *bp;
            let tail_columns = match self.page_ranges[tail_address.range].read_tail_record(
                bp,
                tail_address.page,
                tail_address.offset,
                &full_proj,
            ) {
                Ok(v) => v,
                Err(_) => {
                    proof {
                        assert(false);
                    }
                    break ;
                },
            };
            proof {
                let lp = pre.lp_for(tail_rid as int);
                lp.lemma_proj_cells_ones(loop_bp, tail_address.offset as int, full_proj@, 0);
                PageRange::lemma_lp_preserved(lp, pre_bp, loop_bp);
            }

            // Add this tail record's RID to the list of dead RIDs.
            let ghost dead_before = self.dead_rids@;
            self.dead_rids.push(tail_rid);

            // Calculate the RID of the previous tail record (or the base
            // record).
            let last = tail_columns[tail_columns.len() - 1];
            let prev_tail_rid = match last {
                Some(v) => v,
                None => {
                    proof {
                        assert(false);
                    }
                    0
                },
            };
            proof {
                assert(prev_tail_rid == pre.rows@[tail_rid as int].link as i64);
                assert(pre.rows@[tail_rid as int].link < tail_rid);
            }

            // Drop the indirection column and remove all value pairs from
            // the indexer.
            let elements = wrapped_without_meta(&tail_columns, self.num_columns);
            let ghost idx_step = self.indexer;
            self.remove_from_index_checked(elements, base_rid);
            proof {
                assert forall|c: int, v: i64|
                    0 <= c < pre.num_columns implies #[trigger] rids_of(self.indexer.col(c), v)
                    == rids_of(pre.indexer.col(c), v) || rids_of(self.indexer.col(c), v)
                    == without_rid(rids_of(pre.indexer.col(c), v), base_rid) by {
                    lemma_without_rid_idempotent(rids_of(pre.indexer.col(c), v), base_rid);
                    assert(rids_of(self.indexer.col(c), v) == rids_of(idx_step.col(c), v)
                        || rids_of(self.indexer.col(c), v) == without_rid(
                        rids_of(idx_step.col(c), v),
                        base_rid,
                    ));
                }
                assert(rids_of(self.indexer.col(pre.key_column as int), primary_key)
                    == without_rid(
                    rids_of(pre.indexer.col(pre.key_column as int), primary_key),
                    base_rid,
                )) by {
                    lemma_without_rid_idempotent(
                        rids_of(pre.indexer.col(pre.key_column as int), primary_key),
                        base_rid,
                    );
                }
            }

            if prev_tail_rid == base_rid as i64 {
                // We've returned to the base record: nothing more to do.
                proof {
                    assert(pre.chain_from(tail_rid) =~= seq![tail_rid]) by {
                        assert(pre.rows@[tail_rid as int].link
                            == pre.rows@[tail_rid as int].chain);
                    }
                    assert(self.dead_rids@ + Seq::<RID>::empty() =~= self.dead_rids@);
                    assert(dead_before + pre.chain_from(tail_rid) =~= self.dead_rids@);
                }
                break ;
            }
            proof {
                let nxt = pre.rows@[tail_rid as int].link;
                assert(pre.chain_from(tail_rid) =~= seq![tail_rid] + pre.chain_from(
                    nxt as usize,
                )) by {
                    assert(nxt != pre.rows@[tail_rid as int].chain);
                    assert(0 <= nxt < tail_rid);
                }
                assert(dead_before + pre.chain_from(tail_rid) =~= self.dead_rids@
                    + pre.chain_from(nxt as usize));
            }
            tail_rid = prev_tail_rid as usize;
        }
        proof {
            pre.lemma_wf_preserved(pre_bp, *bp);
            self.lemma_wf_after_index_shrink(pre, *bp);
        }
        Ok(())
    }

    /// Remove the pair (value, RID) from the primary-key column's index.
    fn clear_key_entry(&mut self, value: i64, rid: RID)
        requires
            old(self).indexer.wf(),
            old(self).key_column < old(self).indexer.b_trees@.len(),
            forall|c2: int, v: i64, j: int|
                0 <= c2 < old(self).indexer.b_trees@.len() && 0 <= j < rids_of(
                    old(self).indexer.col(c2),
                    v,
                ).len() ==> #[trigger] rids_of(old(self).indexer.col(c2), v)[j] < old(self).next_rid && old(self).rows@[rids_of(old(self).indexer.col(c2), v)[
                    j
                ] as int].is_base,
            forall|v: i64| #[trigger] rids_of(
                old(self).indexer.col(old(self).key_column as int),
                v,
            ).len() <= 1,
        ensures
            final(self).indexer.wf(),
            final(self).indexer.b_trees@.len() == old(self).indexer.b_trees@.len(),
            final(self).indexer.enabled == old(self).indexer.enabled,
            final(self).name == old(self).name,
            final(self).table_identifier == old(self).table_identifier,
            final(self).num_columns == old(self).num_columns,
            final(self).key_column == old(self).key_column,
            final(self).next_rid == old(self).next_rid,
            final(self).page_ranges == old(self).page_ranges,
            final(self).page_directory == old(self).page_directory,
            final(self).next_page_range == old(self).next_page_range,
            final(self).rows == old(self).rows,
            final(self).row_kinds == old(self).row_kinds,
            final(self).dead_rids == old(self).dead_rids,
            final(self).pending_merges == old(self).pending_merges,
            forall|c2: int, v: i64, j: int|
                0 <= c2 < final(self).indexer.b_trees@.len() && 0 <= j < rids_of(
                    final(self).indexer.col(c2),
                    v,
                ).len() ==> #[trigger] rids_of(final(self).indexer.col(c2), v)[j] < final(self).next_rid && final(self).rows@[rids_of(final(self).indexer.col(c2), v)[
                    j
                ] as int].is_base,
            forall|v: i64| #[trigger] rids_of(
                final(self).indexer.col(final(self).key_column as int),
                v,
            ).len() <= 1,
            forall|c2: int, v: i64|
                0 <= c2 < final(self).indexer.b_trees@.len() ==> #[trigger] rids_of(
                    final(self).indexer.col(c2),
                    v,
                ) == rids_of(old(self).indexer.col(c2), v) || rids_of(
                    final(self).indexer.col(c2),
                    v,
                ) == without_rid(rids_of(old(self).indexer.col(c2), v), rid),
            rids_of(
                final(self).indexer.col(final(self).key_column as int),
                value,
            ) == without_rid(
                rids_of(old(self).indexer.col(old(self).key_column as int), value),
                rid,
            ),
    {
        let ghost pre_idx = self.indexer;
        let ghost kc = self.key_column as int;
        let key_column = self.key_column;
        self.indexer.b_trees[key_column].remove(value, rid);
        proof {
            let colpre = pre_idx.b_trees@[kc];
            let colpost = self.indexer.b_trees@[kc];
            if has_value(colpre.entries@, value) {
                assert(index_removed(colpre, colpost, value, rid));
            } else {
                assert(colpost == colpre);
                assert(rids_of(colpre.entries@, value) =~= Seq::<RID>::empty());
                assert(without_rid(rids_of(colpre.entries@, value), rid)
                    =~= Seq::<RID>::empty());
            }
            assert forall|c2: int, v: i64|
                0 <= c2 < self.indexer.b_trees@.len() implies #[trigger] rids_of(
                self.indexer.col(c2),
                v,
            ) == rids_of(pre_idx.col(c2), v) || rids_of(self.indexer.col(c2), v) == without_rid(
                rids_of(pre_idx.col(c2), v),
                rid,
            ) by {
                if c2 != kc {
                    assert(self.indexer.b_trees@[c2] == pre_idx.b_trees@[c2]);
                } else {
                    if has_value(colpre.entries@, v) || has_value(colpost.entries@, v) {
                    }
                }
            }
            assert forall|c2: int, v: i64, j: int|
                0 <= c2 < self.indexer.b_trees@.len() && 0 <= j < rids_of(
                    self.indexer.col(c2),
                    v,
                ).len() implies #[trigger] rids_of(self.indexer.col(c2), v)[j] < self.next_rid
                && self.rows@[rids_of(self.indexer.col(c2), v)[j] as int].is_base by {
                let x = rids_of(self.indexer.col(c2), v)[j];
                if rids_of(self.indexer.col(c2), v) == rids_of(pre_idx.col(c2), v) {
                    assert(rids_of(pre_idx.col(c2), v)[j] == x);
                } else {
                    lemma_without_rid_sub(rids_of(pre_idx.col(c2), v), rid);
                    assert(rids_of(pre_idx.col(c2), v).contains(x));
                    let j2 = choose|j2: int|
                        0 <= j2 < rids_of(pre_idx.col(c2), v).len() && rids_of(
                            pre_idx.col(c2),
                            v,
                        )[j2] == x;
                    assert(rids_of(pre_idx.col(c2), v)[j2] == x);
                }
            }
            assert forall|v: i64| #[trigger] rids_of(
                self.indexer.col(kc),
                v,
            ).len() <= 1 by {
                lemma_without_rid_sub(rids_of(pre_idx.col(kc), v), rid);
                assert(rids_of(pre_idx.col(kc), v).len() <= 1);
            }
        }
    }

    /// Remove the pair (value, RID) from every column's index, keeping
    /// the indexer's validity and the primary-key uniqueness bound.
    fn remove_from_index_checked(&mut self, columns: Vec<Option<i64>>, rid: RID)
        requires
            old(self).indexer.wf(),
            columns@.len() == old(self).indexer.b_trees@.len(),
            old(self).key_column < old(self).indexer.b_trees@.len(),
            forall|c2: int, v: i64, j: int|
                0 <= c2 < old(self).indexer.b_trees@.len() && 0 <= j < rids_of(
                    old(self).indexer.col(c2),
                    v,
                ).len() ==> #[trigger] rids_of(old(self).indexer.col(c2), v)[j] < old(self).next_rid && old(self).rows@[rids_of(old(self).indexer.col(c2), v)[
                    j
                ] as int].is_base,
            forall|v: i64| #[trigger] rids_of(
                old(self).indexer.col(old(self).key_column as int),
                v,
            ).len() <= 1,
        ensures
            forall|c2: int, v: i64, j: int|
                0 <= c2 < final(self).indexer.b_trees@.len() && 0 <= j < rids_of(
                    final(self).indexer.col(c2),
                    v,
                ).len() ==> #[trigger] rids_of(final(self).indexer.col(c2), v)[j] < final(self).next_rid && final(self).rows@[rids_of(final(self).indexer.col(c2), v)[
                    j
                ] as int].is_base,
            forall|v: i64| #[trigger] rids_of(
                final(self).indexer.col(final(self).key_column as int),
                v,
            ).len() <= 1,
            final(self).indexer.wf(),
            final(self).indexer.b_trees@.len() == old(self).indexer.b_trees@.len(),
            final(self).indexer.enabled == old(self).indexer.enabled,
            final(self).name == old(self).name,
            final(self).table_identifier == old(self).table_identifier,
            final(self).num_columns == old(self).num_columns,
            final(self).key_column == old(self).key_column,
            final(self).next_rid == old(self).next_rid,
            final(self).page_ranges == old(self).page_ranges,
            final(self).page_directory == old(self).page_directory,
            final(self).next_page_range == old(self).next_page_range,
            final(self).rows == old(self).rows,
            final(self).row_kinds == old(self).row_kinds,
            final(self).dead_rids == old(self).dead_rids,
            final(self).pending_merges == old(self).pending_merges,
            forall|c2: int, v: i64, j: int|
                0 <= c2 < final(self).indexer.b_trees@.len() && 0 <= j < rids_of(
                    final(self).indexer.col(c2),
                    v,
                ).len() ==> #[trigger] rids_of(final(self).indexer.col(c2), v)[j] == rids_of(
                    old(self).indexer.col(c2),
                    v,
                )[j] || rids_of(old(self).indexer.col(c2), v).contains(
                    rids_of(final(self).indexer.col(c2), v)[j],
                ),
            forall|c2: int, v: i64|
                0 <= c2 < final(self).indexer.b_trees@.len() ==> #[trigger] rids_of(
                    final(self).indexer.col(c2),
                    v,
                ).len() <= rids_of(old(self).indexer.col(c2), v).len(),
            forall|c2: int, v: i64|
                0 <= c2 < final(self).indexer.b_trees@.len() ==> #[trigger] rids_of(
                    final(self).indexer.col(c2),
                    v,
                ) == rids_of(old(self).indexer.col(c2), v) || rids_of(
                    final(self).indexer.col(c2),
                    v,
                ) == without_rid(rids_of(old(self).indexer.col(c2), v), rid),
    {
        let ghost pre_idx = self.indexer;
        self.indexer.remove_from_index(columns, rid);
        proof {
            assert forall|c2: int, v: i64|
                0 <= c2 < self.indexer.b_trees@.len() implies rids_of(self.indexer.col(c2), v)
                == rids_of(pre_idx.col(c2), v) || rids_of(self.indexer.col(c2), v) == without_rid(
                rids_of(pre_idx.col(c2), v),
                rid,
            ) by {
                if columns@[c2] is Some && has_value(
                    pre_idx.b_trees@[c2].entries@,
                    columns@[c2].unwrap(),
                ) {
                    let cv = columns@[c2].unwrap();
                    assert(index_removed(
                        pre_idx.b_trees@[c2],
                        self.indexer.b_trees@[c2],
                        cv,
                        rid,
                    ));
                    if v != cv {
                        assert(rids_of(self.indexer.col(c2), v) == rids_of(pre_idx.col(c2), v));
                    }
                } else {
                    assert(self.indexer.b_trees@[c2] == pre_idx.b_trees@[c2]);
                }
            }
            assert forall|c2: int, v: i64, j: int|
                0 <= c2 < self.indexer.b_trees@.len() && 0 <= j < rids_of(
                    self.indexer.col(c2),
                    v,
                ).len() implies #[trigger] rids_of(self.indexer.col(c2), v)[j] < self.next_rid
                && self.rows@[rids_of(self.indexer.col(c2), v)[j] as int].is_base by {
                let x = rids_of(self.indexer.col(c2), v)[j];
                if rids_of(self.indexer.col(c2), v) == rids_of(pre_idx.col(c2), v) {
                    assert(rids_of(pre_idx.col(c2), v)[j] == x);
                } else {
                    lemma_without_rid_sub(rids_of(pre_idx.col(c2), v), rid);
                    assert(rids_of(pre_idx.col(c2), v).contains(x));
                    let j2 = choose|j2: int|
                        0 <= j2 < rids_of(pre_idx.col(c2), v).len() && rids_of(
                            pre_idx.col(c2),
                            v,
                        )[j2] == x;
                    assert(rids_of(pre_idx.col(c2), v)[j2] == x);
                }
            }
            assert forall|v: i64| #[trigger] rids_of(
                self.indexer.col(self.key_column as int),
                v,
            ).len() <= 1 by {
                let kc = self.key_column as int;
                assert(kc < self.indexer.b_trees@.len());
                lemma_without_rid_sub(rids_of(pre_idx.col(kc), v), rid);
                assert(rids_of(pre_idx.col(kc), v).len() <= 1);
            }
            assert forall|c2: int, v: i64|
                0 <= c2 < self.indexer.b_trees@.len() implies #[trigger] rids_of(
                self.indexer.col(c2),
                v,
            ).len() <= rids_of(pre_idx.col(c2), v).len() by {
                lemma_without_rid_sub(rids_of(pre_idx.col(c2), v), rid);
            }
            assert forall|c2: int, v: i64, j: int|
                0 <= c2 < self.indexer.b_trees@.len() && 0 <= j < rids_of(
                    self.indexer.col(c2),
                    v,
                ).len() implies #[trigger] rids_of(self.indexer.col(c2), v)[j] == rids_of(
                pre_idx.col(c2),
                v,
            )[j] || rids_of(pre_idx.col(c2), v).contains(
                rids_of(self.indexer.col(c2), v)[j],
            ) by {
                if rids_of(self.indexer.col(c2), v) != rids_of(pre_idx.col(c2), v) {
                    lemma_without_rid_sub(rids_of(pre_idx.col(c2), v), rid);
                }
            }
        }
    }

    /// The table stays well formed when only the indexer changed and
    /// every registered record id was registered before.
    proof fn lemma_wf_after_index_shrink(self, pre: Table, bp: BufferPool)
        requires
            pre.wf(bp),
            self.name == pre.name,
            self.table_identifier == pre.table_identifier,
            self.num_columns == pre.num_columns,
            self.key_column == pre.key_column,
            self.next_rid == pre.next_rid,
            self.page_ranges == pre.page_ranges,
            self.page_directory == pre.page_directory,
            self.next_page_range == pre.next_page_range,
            self.rows == pre.rows,
            self.row_kinds == pre.row_kinds,
            self.indexer.wf(),
            self.indexer.b_trees@.len() == pre.num_columns,
            self.indexer.enabled@.len() == pre.num_columns,
            forall|c2: int, v: i64, j: int|
                0 <= c2 < self.indexer.b_trees@.len() && 0 <= j < rids_of(
                    self.indexer.col(c2),
                    v,
                ).len() ==> #[trigger] rids_of(self.indexer.col(c2), v)[j] < pre.next_rid
                    && pre.rows@[rids_of(self.indexer.col(c2), v)[j] as int].is_base,
            forall|v: i64| #[trigger] rids_of(
                self.indexer.col(pre.key_column as int),
                v,
            ).len() <= 1,
        ensures
            self.wf(bp),
    {
        assert forall|rid: int| 0 <= rid < self.next_rid implies self.row_ok(bp, rid) by {
            assert(pre.row_ok(bp, rid));
            assert(self.lp_for(rid) == pre.lp_for(rid));
        }
        assert forall|r1: int, p1: int, k1: bool, r2: int, p2: int, k2: bool|
            self.valid_lp(r1, k1, p1) && self.valid_lp(r2, k2, p2) && r1 != r2
                implies #[trigger] self.lp_at(r1, k1, p1).index() != #[trigger] self.lp_at(
            r2,
            k2,
            p2,
        ).index() by {
            assert(self.lp_at(r1, k1, p1) == pre.lp_at(r1, k1, p1));
            assert(self.lp_at(r2, k2, p2) == pre.lp_at(r2, k2, p2));
            assert(pre.valid_lp(r1, k1, p1) && pre.valid_lp(r2, k2, p2));
        }
    }


    /// One hop along the indirection metadata: a base row's latest tail,
    /// a tail row's predecessor.
    pub open spec fn hop(self, h: int) -> int {
        self.rows@[h].link
    }

    /// The row reached after `k` hops from `h`.
    pub open spec fn walk(self, h: int, k: nat) -> int
        decreases k,
    {
        if k == 0 {
            h
        } else {
            self.walk(self.hop(h), (k - 1) as nat)
        }
    }

    /// Following indirection from any row of a base record's chain
    /// reaches the base record in exactly as many hops as updates that
    /// row reflects.
    pub proof fn lemma_chain_reaches_base(self, bp: BufferPool, h: int, b: int)
        requires
            self.wf(bp),
            0 <= b < self.next_rid,
            self.rows@[b].is_base,
            self.in_chain(h, b),
        ensures
            self.walk(h, self.rows@[h].depth) == b,
        decreases self.rows@[h].depth,
    {
        if h == b {
            assert(self.row_ok(bp, b));
            assert(self.rows@[b].depth == 0);
        } else {
            assert(self.row_ok(bp, h));
            let l = self.rows@[h].link;
            assert(self.in_chain(l, b));
            assert(self.rows@[h].depth == self.rows@[l].depth + 1);
            self.lemma_chain_reaches_base(bp, l, b);
            assert(self.walk(h, self.rows@[h].depth) == self.walk(l, self.rows@[l].depth));
        }
    }

    /// For every base record, following indirection zero or more times
    /// terminates at the base record: the base row's indirection points
    /// at the latest row of its chain, and walking that chain backwards
    /// reaches the base within a number of hops equal to the number of
    /// updates applied to the record.
    pub proof fn lemma_indirection_terminates(self, bp: BufferPool, b: int)
        requires
            self.wf(bp),
            0 <= b < self.next_rid,
            self.rows@[b].is_base,
        ensures
            self.in_chain(self.latest(b), b),
            self.walk(self.latest(b), self.rows@[self.latest(b)].depth) == b,
    {
        assert(self.row_ok(bp, b));
        assert(self.in_chain(self.latest(b), b));
        self.lemma_chain_reaches_base(bp, self.latest(b), b);
    }

    /// A point query on the primary-key index returns at most one record
    /// id, and any id it returns is a live base record. Together with the
    /// contracts of insert (which registers exactly one id for a fresh
    /// key) and update (which keeps a moved key at exactly one id), every
    /// key inserted and not deleted locates exactly one base record.
    pub proof fn lemma_primary_key_unique(self, bp: BufferPool, k: i64)
        requires
            self.wf(bp),
        ensures
            range_rids(self.indexer.col(self.key_column as int), k, k) == self.key_rids(k),
            self.key_rids(k).len() <= 1,
            forall|j: int|
                0 <= j < self.key_rids(k).len() ==> #[trigger] self.key_rids(k)[j] < self.next_rid
                    && self.rows@[self.key_rids(k)[j] as int].is_base,
    {
        lemma_range_single(self.indexer.col(self.key_column as int), k);
    }


    /// Collect this table's metadata for persistence: every field the
    /// embedder must write to reopen the table later.
    pub fn metadata(&self) -> (r: crate::persistables::TableMetadata)
        ensures
            r.name@ == self.name@,
            r.table_identifier == self.table_identifier,
            r.num_columns == self.num_columns,
            r.key_column == self.key_column,
            r.next_rid == self.next_rid,
            r.next_page_range == self.next_page_range,
            r.page_directory@ == self.page_directory@,
            r.dead_rids@ == self.dead_rids@,
            r.row_kinds@ == self.row_kinds@,
            r.indexer.b_trees@.len() == self.indexer.b_trees@.len(),
            r.indexer.enabled@ == self.indexer.enabled@,
            forall|c: int| 0 <= c < self.indexer.b_trees@.len() ==> #[trigger] r.indexer.b_trees@[
                c
            ].entries@.len() == self.indexer.b_trees@[c].entries@.len(),
            forall|c: int, k: int|
                0 <= c < self.indexer.b_trees@.len() && 0 <= k < self.indexer.b_trees@[
                    c
                ].entries@.len() ==> {
                    &&& (#[trigger] r.indexer.b_trees@[c].entries@[k]).value
                        == self.indexer.b_trees@[c].entries@[k].value
                    &&& r.indexer.b_trees@[c].entries@[k].rids@ == self.indexer.b_trees@[
                        c
                    ].entries@[k].rids@
                },
            r.page_ranges@.len() == self.page_ranges@.len(),
            forall|i: int| 0 <= i < r.page_ranges@.len() ==> {
                &&& (#[trigger] r.page_ranges@[i]).next_base_page == self.page_ranges@[
                    i
                ].next_base_page
                &&& r.page_ranges@[i].tps == self.page_ranges@[i].tps
                &&& r.page_ranges@[i].base_pages@.len() == self.page_ranges@[i].base_pages@.len()
                &&& r.page_ranges@[i].tail_pages@.len() == self.page_ranges@[i].tail_pages@.len()
                &&& (forall|p: int|
                    0 <= p < r.page_ranges@[i].base_pages@.len()
                        ==> (#[trigger] r.page_ranges@[i].base_pages@[p]).columns@
                        == self.page_ranges@[i].base_pages@[p].columns@)
                &&& (forall|p: int|
                    0 <= p < r.page_ranges@[i].tail_pages@.len()
                        ==> (#[trigger] r.page_ranges@[i].tail_pages@[p]).columns@
                        == self.page_ranges@[i].tail_pages@[p].columns@)
            },
    {
        let mut page_ranges: Vec<crate::persistables::PageRangePersistable> = Vec::new();
        let mut i: usize = 0;
        while i < self.page_ranges.len()
            invariant
                i == page_ranges@.len() <= self.page_ranges@.len(),
                forall|k: int| 0 <= k < i ==> {
                    &&& (#[trigger] page_ranges@[k]).next_base_page == self.page_ranges@[
                        k
                    ].next_base_page
                    &&& page_ranges@[k].tps == self.page_ranges@[k].tps
                    &&& page_ranges@[k].base_pages@.len() == self.page_ranges@[
                        k
                    ].base_pages@.len()
                    &&& page_ranges@[k].tail_pages@.len() == self.page_ranges@[
                        k
                    ].tail_pages@.len()
                    &&& (forall|p: int|
                        0 <= p < page_ranges@[k].base_pages@.len()
                            ==> (#[trigger] page_ranges@[k].base_pages@[p]).columns@
                            == self.page_ranges@[k].base_pages@[p].columns@)
                    &&& (forall|p: int|
                        0 <= p < page_ranges@[k].tail_pages@.len()
                            ==> (#[trigger] page_ranges@[k].tail_pages@[p]).columns@
                            == self.page_ranges@[k].tail_pages@[p].columns@)
                },
            decreases self.page_ranges@.len() - i,
        {
            let pr = &self.page_ranges[i];
            let mut base_pages: Vec<crate::persistables::LogicalPagePersistable> = Vec::new();
            let mut p: usize = 0;
            while p < pr.base_pages.len()
                invariant
                    p == base_pages@.len() <= pr.base_pages@.len(),
                    forall|k: int| 0 <= k < p ==> (#[trigger] base_pages@[k]).columns@
                        == pr.base_pages@[k].columns@,
                decreases pr.base_pages@.len() - p,
            {
                let lp = pr.base_pages[p].duplicate();
                base_pages.push(
                    crate::persistables::LogicalPagePersistable { columns: lp.columns },
                );
                p = p + 1;
            }
            let mut tail_pages: Vec<crate::persistables::LogicalPagePersistable> = Vec::new();
            let mut q: usize = 0;
            while q < pr.tail_pages.len()
                invariant
                    q == tail_pages@.len() <= pr.tail_pages@.len(),
                    forall|k: int| 0 <= k < q ==> (#[trigger] tail_pages@[k]).columns@
                        == pr.tail_pages@[k].columns@,
                decreases pr.tail_pages@.len() - q,
            {
                let lp = pr.tail_pages[q].duplicate();
                tail_pages.push(
                    crate::persistables::LogicalPagePersistable { columns: lp.columns },
                );
                q = q + 1;
            }
            page_ranges.push(
                crate::persistables::PageRangePersistable {
                    base_pages,
                    tail_pages,
                    next_base_page: pr.next_base_page,
                    tps: pr.tps,
                },
            );
            i = i + 1;
        }
        let mut page_directory: Vec<Address> = Vec::new();
        let mut d: usize = 0;
        while d < self.page_directory.len()
            invariant
                d == page_directory@.len() <= self.page_directory@.len(),
                forall|k: int| 0 <= k < d ==> page_directory@[k] == self.page_directory@[k],
            decreases self.page_directory@.len() - d,
        {
            page_directory.push(self.page_directory[d]);
            d = d + 1;
        }
        let mut dead_rids: Vec<RID> = Vec::new();
        let mut e: usize = 0;
        while e < self.dead_rids.len()
            invariant
                e == dead_rids@.len() <= self.dead_rids@.len(),
                forall|k: int| 0 <= k < e ==> dead_rids@[k] == self.dead_rids@[k],
            decreases self.dead_rids@.len() - e,
        {
            dead_rids.push(self.dead_rids[e]);
            e = e + 1;
        }
        let mut row_kinds: Vec<bool> = Vec::new();
        let mut g: usize = 0;
        while g < self.row_kinds.len()
            invariant
                g == row_kinds@.len() <= self.row_kinds@.len(),
                forall|k: int| 0 <= k < g ==> row_kinds@[k] == self.row_kinds@[k],
            decreases self.row_kinds@.len() - g,
        {
            row_kinds.push(self.row_kinds[g]);
            g = g + 1;
        }
        proof {
            assert(page_directory@ =~= self.page_directory@);
            assert(dead_rids@ =~= self.dead_rids@);
            assert(row_kinds@ =~= self.row_kinds@);
        }
        crate::persistables::TableMetadata {
            name: clone_name(&self.name),
            table_identifier: self.table_identifier,
            num_columns: self.num_columns,
            key_column: self.key_column,
            next_rid: self.next_rid,
            page_ranges,
            page_directory,
            next_page_range: self.next_page_range,
            dead_rids,
            row_kinds,
            indexer: copy_indexer(&self.indexer),
        }
    }


    /// Install a consolidated page into one user column of a base page of
    /// a range, with a masked write. The table stays well formed: the
    /// indirection column and every other page keep their content.
    #[verifier::rlimit(100)]
    fn merge_mask_write(&self, bp: &mut BufferPool, ri: usize, p: usize, c: usize, page: crate::bufferpool::Page)
        requires
            old(bp).wf(),
            self.wf(*old(bp)),
            ri < self.page_ranges@.len(),
            p < self.page_ranges@[ri as int].base_pages@.len(),
            c < self.num_columns,
            page.wf(),
        ensures
            final(bp).wf(),
            self.wf(*final(bp)),
            final(bp).names() == old(bp).names(),
            BufferPool::same_files(*old(bp), *final(bp)),
            forall|x: PhysicalPageID| old(bp).is_allocated(x) <==> final(bp).is_allocated(x),
            forall|x: PhysicalPageID|
                old(bp).is_allocated(x) && x != self.page_ranges@[ri as int].base_pages@[
                    p as int
                ].columns@[c as int] ==> #[trigger] final(bp).page_at(x) == old(bp).page_at(x),
            forall|h: int| 0 <= h < self.next_rid ==> #[trigger] self.row_cell(
                *final(bp),
                h,
                self.ncols_total() - 1,
            ) == self.row_cell(*old(bp), h, self.ncols_total() - 1),
            forall|h: int, cc: int|
                0 <= h < self.next_rid && !self.rows@[h].is_base && 0 <= cc < self.ncols_total()
                    ==> #[trigger] self.row_cell(*final(bp), h, cc) == self.row_cell(
                    *old(bp),
                    h,
                    cc,
                ),
    {
        let ghost pre_bp = *old(bp);
        let target = self.page_ranges[ri].base_pages[p].columns[c];
        proof {
            assert(self.page_ranges@[ri as int].wf(pre_bp));
            assert(self.page_ranges@[ri as int].base_pages@[p as int].wf(pre_bp));
        }
        bp.write_page_masked(page, target);
        proof {
            let postbp = *bp;
            let wlp = self.page_ranges@[ri as int].base_pages@[p as int];
            // Every logical page of the table is still well formed: the
            // written page's cursor cell was preserved by the masked
            // write, and no other page changed.
            assert(BufferPool::view_cursor(postbp.page_at(target)) == BufferPool::view_cursor(
                pre_bp.page_at(target),
            )) by {
                pre_bp.lemma_page_at_wf(target);
            }
            assert forall|r2: int, p2: int, k2: bool|
                self.valid_lp(r2, k2, p2) implies (#[trigger] self.lp_at(r2, k2, p2)).wf(postbp)
                && self.lp_at(r2, k2, p2).cursor(postbp) == self.lp_at(r2, k2, p2).cursor(pre_bp)
                && (forall|cc: int, off: int|
                0 <= cc < self.lp_at(r2, k2, p2).columns@.len() && cc != self.ncols_total() - 1
                    && !(r2 == ri && k2 && p2 == p && cc == c) ==> #[trigger] self.lp_at(
                    r2,
                    k2,
                    p2,
                ).cell(postbp, cc, off) == self.lp_at(r2, k2, p2).cell(pre_bp, cc, off)) && (
                forall|off: int|
                    #[trigger] self.lp_at(r2, k2, p2).cell(postbp, self.ncols_total() - 1, off)
                        == self.lp_at(r2, k2, p2).cell(pre_bp, self.ncols_total() - 1, off)) by {
                let lp = self.lp_at(r2, k2, p2);
                assert(lp.wf(pre_bp)) by {
                    assert(self.page_ranges@[r2].wf(pre_bp));
                }
                if lp.tid() == target.table_identifier && lp.columns@[0].page_index
                    == target.page_index {
                    // Only the written page of this logical page changed,
                    // and only below the cursor cell.
                    assert(r2 == ri && k2 && p2 == p) by {
                        assert(self.valid_lp(ri as int, true, p as int));
                        assert(self.lp_at(ri as int, true, p as int) == wlp);
                        assert(wlp.wf(pre_bp)) by {
                            assert(self.page_ranges@[ri as int].wf(pre_bp));
                        }
                        assert(target.page_index == wlp.columns@[0].page_index);
                        if !(r2 == ri && k2 && p2 == p) {
                            if r2 != ri {
                                assert(self.lp_at(r2, k2, p2).index() != self.lp_at(
                                    ri as int,
                                    true,
                                    p as int,
                                ).index());
                            } else {
                                assert(self.page_ranges@[ri as int].wf(pre_bp));
                                if k2 {
                                    assert(self.page_ranges@[ri as int].base_pages@[p2].index()
                                        != self.page_ranges@[ri as int].base_pages@[
                                        p as int
                                    ].index());
                                } else {
                                    assert(self.page_ranges@[ri as int].base_pages@[
                                        p as int
                                    ].index() != self.page_ranges@[ri as int].tail_pages@[
                                        p2
                                    ].index());
                                }
                            }
                            assert(false);
                        }
                    }
                    assert(lp == wlp);
                    assert forall|cc: int|
                        0 <= cc < lp.columns@.len() implies BufferPool::view_cursor(
                        postbp.page_at(#[trigger] lp.columns@[cc]),
                    ) == BufferPool::view_cursor(pre_bp.page_at(lp.columns@[cc])) by {
                        if lp.columns@[cc] != target {
                            assert(postbp.page_at(lp.columns@[cc]) == pre_bp.page_at(
                                lp.columns@[cc],
                            ));
                        }
                    }
                    assert(lp.wf(postbp));
                    assert forall|cc: int, off: int|
                        0 <= cc < lp.columns@.len() && cc != self.ncols_total() - 1 && !(r2 == ri
                            && k2 && p2 == p && cc == c) implies #[trigger] lp.cell(
                        postbp,
                        cc,
                        off,
                    ) == lp.cell(pre_bp, cc, off) by {
                        assert(lp.columns@[cc] != target);
                    }
                    assert forall|off: int|
                        #[trigger] lp.cell(postbp, self.ncols_total() - 1, off) == lp.cell(
                        pre_bp,
                        self.ncols_total() - 1,
                        off,
                    ) by {
                        assert(lp.columns@[self.ncols_total() - 1] != target);
                    }
                } else {
                    assert forall|cc: int|
                        0 <= cc < lp.columns@.len() implies postbp.page_at(
                        #[trigger] lp.columns@[cc],
                    ) == pre_bp.page_at(lp.columns@[cc]) by {
                        assert(lp.columns@[cc] != target);
                    }
                    assert(lp.wf(postbp));
                }
            }
            assert forall|rid: int| 0 <= rid < self.next_rid implies self.row_ok(postbp, rid) by {
                assert(self.row_ok(pre_bp, rid));
                let a = self.page_directory@[rid];
                let m = self.rows@[rid];
                assert(self.valid_lp(a.range as int, m.is_base, a.page as int));
                assert(self.lp_at(a.range as int, m.is_base, a.page as int) == self.lp_for(rid));
            }
            assert(self.wf(postbp));
            assert forall|h: int|
                0 <= h < self.next_rid implies #[trigger] self.row_cell(
                postbp,
                h,
                self.ncols_total() - 1,
            ) == self.row_cell(pre_bp, h, self.ncols_total() - 1) by {
                assert(self.row_ok(pre_bp, h));
                let a = self.page_directory@[h];
                let m = self.rows@[h];
                assert(self.valid_lp(a.range as int, m.is_base, a.page as int));
                assert(self.lp_at(a.range as int, m.is_base, a.page as int) == self.lp_for(h));
            }
            assert forall|h: int, cc: int|
                0 <= h < self.next_rid && !self.rows@[h].is_base && 0 <= cc
                    < self.ncols_total() implies #[trigger] self.row_cell(postbp, h, cc)
                == self.row_cell(pre_bp, h, cc) by {
                assert(self.row_ok(pre_bp, h));
                let a = self.page_directory@[h];
                assert(self.valid_lp(a.range as int, false, a.page as int));
                assert(self.lp_at(a.range as int, false, a.page as int) == self.lp_for(h));
            }
        }
    }

    /// Consolidate the oldest pending merge request: for every base page
    /// of the request's range, copy the latest tail value of each user
    /// column over the base cells, and advance the range's tail-page
    /// sequence to the largest tail RID consolidated. Rows whose
    /// indirection points at themselves are left as they stand. Directory
    /// entries are immutable once recorded, so the live directory is a
    /// superset of the request's snapshot and resolves every chain the
    /// snapshot knew of.
    #[verifier::rlimit(100)]
    pub fn process_next_merge(&mut self, bp: &mut BufferPool)
        requires
            old(bp).wf(),
            old(self).wf(*old(bp)),
        ensures
            final(bp).wf(),
            final(self).wf(*final(bp)),
            final(bp).names() == old(bp).names(),
            BufferPool::same_files(*old(bp), *final(bp)),
            final(self).next_rid == old(self).next_rid,
            final(self).rows == old(self).rows,
            final(self).page_directory == old(self).page_directory,
            final(self).indexer == old(self).indexer,
            final(self).dead_rids == old(self).dead_rids,
            final(self).name == old(self).name,
            final(self).num_columns == old(self).num_columns,
            final(self).key_column == old(self).key_column,
            final(self).table_identifier == old(self).table_identifier,
            old(self).pending_merges@.len() == 0 ==> *final(self) == *old(self)
                && BufferPool::preserves(*old(bp), *final(bp)),
            old(self).pending_merges@.len() > 0 ==> final(self).pending_merges@ == old(self).pending_merges@.drop_first(),
            // Consolidation never touches indirection cells or tail rows:
            // chains and version reads are unaffected.
            forall|h: int| 0 <= h < old(self).next_rid ==> #[trigger] final(self).row_cell(
                *final(bp),
                h,
                old(self).ncols_total() - 1,
            ) == old(self).row_cell(*old(bp), h, old(self).ncols_total() - 1),
            forall|h: int, cc: int|
                0 <= h < old(self).next_rid && !old(self).rows@[h].is_base && 0 <= cc < old(self).ncols_total() ==> #[trigger] final(self).row_cell(*final(bp), h, cc) == old(self).row_cell(*old(bp), h, cc),
            // Only the request's range changes, and its watermark never
            // goes backwards.
            final(self).page_ranges@.len() == old(self).page_ranges@.len(),
            forall|r2: int|
                0 <= r2 < old(self).page_ranges@.len() && (old(self).pending_merges@.len() == 0
                    || r2 != old(self).pending_merges@[0].range_index) ==> #[trigger] final(self).page_ranges@[r2] == old(self).page_ranges@[r2],
            old(self).pending_merges@.len() > 0 && old(self).pending_merges@[0].range_index < old(self).page_ranges@.len() ==> ({
                let ri = old(self).pending_merges@[0].range_index as int;
                &&& final(self).page_ranges@[ri].base_pages == old(self).page_ranges@[
                    ri
                ].base_pages
                &&& final(self).page_ranges@[ri].tail_pages == old(self).page_ranges@[
                    ri
                ].tail_pages
                &&& final(self).page_ranges@[ri].next_base_page == old(self).page_ranges@[
                    ri
                ].next_base_page
                &&& final(self).page_ranges@[ri].num_updates == old(self).page_ranges@[
                    ri
                ].num_updates
                &&& final(self).page_ranges@[ri].tps >= old(self).page_ranges@[ri].tps
            }),
    {
        let ghost pre = *old(self);
        let ghost pre_bp = *old(bp);
        if self.pending_merges.len() == 0 {
            return ;
        }
        let req = self.pending_merges.remove(0);
        proof {
            assert(self.pending_merges@ =~= pre.pending_merges@.drop_first());
        }
        let ri = req.range_index;
        proof {
            assert(self.wf(*bp)) by {
                assert forall|rid: int| 0 <= rid < self.next_rid implies self.row_ok(
                    *bp,
                    rid,
                ) by {
                    assert(pre.row_ok(pre_bp, rid));
                    assert(self.lp_for(rid) == pre.lp_for(rid));
                }
                assert forall|r1: int, p1: int, k1: bool, r2: int, p2: int, k2: bool|
                    self.valid_lp(r1, k1, p1) && self.valid_lp(r2, k2, p2) && r1 != r2
                        implies #[trigger] self.lp_at(r1, k1, p1).index() != #[trigger] self.lp_at(
                    r2,
                    k2,
                    p2,
                ).index() by {
                    assert(self.lp_at(r1, k1, p1) == pre.lp_at(r1, k1, p1));
                    assert(self.lp_at(r2, k2, p2) == pre.lp_at(r2, k2, p2));
                    assert(pre.valid_lp(r1, k1, p1) && pre.valid_lp(r2, k2, p2));
                }
            }
        }
        if ri >= self.page_ranges.len() {
            proof {
                assert forall|h: int, cc: int|
                    0 <= h < self.next_rid && 0 <= cc < self.ncols_total()
                        implies #[trigger] self.row_cell(*bp, h, cc) == pre.row_cell(
                    pre_bp,
                    h,
                    cc,
                ) by {
                    assert(self.lp_for(h) == pre.lp_for(h));
                }
            }
            return ;
        }
        let mut max_tps = self.page_ranges[ri].tps;
        let total = self.num_columns + NUM_METADATA_COLS;

        let mut p: usize = 0;
        while p < self.page_ranges[ri].base_pages.len()
            invariant
                bp.wf(),
                self.wf(*bp),
                ri < self.page_ranges@.len(),
                total == self.ncols_total(),
                self.num_columns >= 1,
                bp.names() == pre_bp.names(),
                BufferPool::same_files(pre_bp, *bp),
                forall|h: int| 0 <= h < self.next_rid ==> #[trigger] self.row_cell(
                    *bp,
                    h,
                    self.ncols_total() - 1,
                ) == self.row_cell(pre_bp, h, self.ncols_total() - 1),
                forall|h: int, cc: int|
                    0 <= h < self.next_rid && !self.rows@[h].is_base && 0 <= cc
                        < self.ncols_total() ==> #[trigger] self.row_cell(*bp, h, cc)
                        == self.row_cell(pre_bp, h, cc),
                max_tps >= self.page_ranges@[ri as int].tps,
            decreases self.page_ranges@[ri as int].base_pages@.len() - p,
        {
            let ghost loop_bp = *bp;
            proof {
                assert(self.page_ranges@[ri as int].wf(loop_bp));
                assert(self.page_ranges@[ri as int].base_pages@[p as int].wf(loop_bp));
            }
            let ind_ppid = self.page_ranges[ri].base_pages[p].columns[total - 1];
            let ind_page = bp.request_page(ind_ppid);
            proof {
                self.lemma_wf_preserved(loop_bp, *bp);
                self.lemma_row_cells_preserved(loop_bp, *bp);
            }
            let cursor = ind_page.cursor_slot();

            let mut c: usize = 0;
            while c < self.num_columns
                invariant
                    bp.wf(),
                    self.wf(*bp),
                    ri < self.page_ranges@.len(),
                    p < self.page_ranges@[ri as int].base_pages@.len(),
                    total == self.ncols_total(),
                    cursor <= CELLS_PER_PAGE - 1,
                    ind_page.wf(),
                    bp.names() == pre_bp.names(),
                    BufferPool::same_files(pre_bp, *bp),
                    max_tps <= usize::MAX,
                    max_tps >= self.page_ranges@[ri as int].tps,
                    forall|h: int| 0 <= h < self.next_rid ==> #[trigger] self.row_cell(
                        *bp,
                        h,
                        self.ncols_total() - 1,
                    ) == self.row_cell(pre_bp, h, self.ncols_total() - 1),
                    forall|h: int, cc: int|
                        0 <= h < self.next_rid && !self.rows@[h].is_base && 0 <= cc
                            < self.ncols_total() ==> #[trigger] self.row_cell(*bp, h, cc)
                            == self.row_cell(pre_bp, h, cc),
                decreases self.num_columns - c,
            {
                let ghost col_bp = *bp;
                proof {
                    assert(self.page_ranges@[ri as int].wf(col_bp));
                    assert(self.page_ranges@[ri as int].base_pages@[p as int].wf(col_bp));
                }
                let col_ppid = self.page_ranges[ri].base_pages[p].columns[c];
                let mut merged = bp.request_page(col_ppid);
                proof {
                    self.lemma_wf_preserved(col_bp, *bp);
                    self.lemma_row_cells_preserved(col_bp, *bp);
                }
                let mut changed = false;

                let mut j: usize = 0;
                while j < cursor
                    invariant
                        bp.wf(),
                        self.wf(*bp),
                        ri < self.page_ranges@.len(),
                        p < self.page_ranges@[ri as int].base_pages@.len(),
                        c < self.num_columns,
                        total == self.ncols_total(),
                        cursor <= CELLS_PER_PAGE - 1,
                        ind_page.wf(),
                        merged.wf(),
                        bp.names() == pre_bp.names(),
                        BufferPool::same_files(pre_bp, *bp),
                        max_tps <= usize::MAX,
                        max_tps >= self.page_ranges@[ri as int].tps,
                    max_tps >= self.page_ranges@[ri as int].tps,
                        forall|h: int| 0 <= h < self.next_rid ==> #[trigger] self.row_cell(
                            *bp,
                            h,
                            self.ncols_total() - 1,
                        ) == self.row_cell(pre_bp, h, self.ncols_total() - 1),
                        forall|h: int, cc: int|
                            0 <= h < self.next_rid && !self.rows@[h].is_base && 0 <= cc
                                < self.ncols_total() ==> #[trigger] self.row_cell(*bp, h, cc)
                                == self.row_cell(pre_bp, h, cc),
                    decreases cursor - j,
                {
                    match ind_page.read(j) {
                        Ok(Some(link)) => {
                            if link >= 0 && (link as usize) < self.page_directory.len() {
                                let tail_rid = link as usize;
                                let addr = self.page_directory[tail_rid];
                                // A row whose indirection points at its own
                                // slot was never updated: leave it alone.
                                let self_row = addr.range == ri && addr.page == p && addr.offset
                                    == j;
                                if !self_row && addr.range == ri && addr.page
                                    < self.page_ranges[ri].tail_pages.len() && addr.offset
                                    < CELLS_PER_PAGE - 1 {
                                    let ghost read_bp = *bp;
                                    proof {
                                        assert(self.page_ranges@[ri as int].wf(*bp));
                                        assert(self.page_ranges@[ri as int].tail_pages@[
                                            addr.page as int
                                        ].wf(*bp));
                                    }
                                    let tail_ppid =
                                        self.page_ranges[ri].tail_pages[addr.page].columns[c];
                                    let tail_cell = bp.read(tail_ppid, addr.offset);
                                    proof {
                                        self.lemma_wf_preserved(read_bp, *bp);
                                        self.lemma_row_cells_preserved(read_bp, *bp);
                                    }
                                    match tail_cell {
                                        Ok(Some(tail_val)) => {
                                            let _ = merged.write(j, Some(tail_val));
                                            changed = true;
                                            if tail_rid > max_tps {
                                                max_tps = tail_rid;
                                            }
                                        },
                                        _ => {},
                                    }
                                }
                            }
                        },
                        _ => {},
                    }
                    j = j + 1;
                }

                if changed {
                    self.merge_mask_write(bp, ri, p, c, merged);
                }
                c = c + 1;
            }
            p = p + 1;
        }

        // Publish the largest consolidated tail RID to the range's
        // tail-page sequence.
        let ghost before_tps = *self;
        let zr = &mut self.page_ranges[ri];
        zr.tps = max_tps;
        proof {
            let post = *self;
            let postbp = *bp;
            assert forall|rid: int| 0 <= rid < post.next_rid implies post.row_ok(
                postbp,
                rid,
            ) by {
                assert(before_tps.row_ok(postbp, rid));
                assert(post.lp_for(rid) == before_tps.lp_for(rid));
            }
            assert forall|r1: int, p1: int, k1: bool, r2: int, p2: int, k2: bool|
                post.valid_lp(r1, k1, p1) && post.valid_lp(r2, k2, p2) && r1 != r2
                    implies #[trigger] post.lp_at(r1, k1, p1).index() != #[trigger] post.lp_at(
                r2,
                k2,
                p2,
            ).index() by {
                assert(post.lp_at(r1, k1, p1) == before_tps.lp_at(r1, k1, p1));
                assert(post.lp_at(r2, k2, p2) == before_tps.lp_at(r2, k2, p2));
                assert(before_tps.valid_lp(r1, k1, p1) && before_tps.valid_lp(r2, k2, p2));
            }
            assert(post.wf(postbp));
            assert forall|h: int, cc: int|
                0 <= h < pre.next_rid && 0 <= cc < pre.ncols_total() implies #[trigger] post.row_cell(
                postbp,
                h,
                cc,
            ) == before_tps.row_cell(postbp, h, cc) by {
                assert(before_tps.row_ok(postbp, h));
                let a = before_tps.page_directory@[h];
                assert(post.page_ranges@[a.range as int].base_pages == before_tps.page_ranges@[
                    a.range as int
                ].base_pages);
                assert(post.page_ranges@[a.range as int].tail_pages == before_tps.page_ranges@[
                    a.range as int
                ].tail_pages);
                assert(post.lp_for(h) == before_tps.lp_for(h));
            }
        }
    }

    /// The record ids registered under `v` in the primary-key column.
    pub open spec fn key_rids(self, v: i64) -> Seq<RID> {
        rids_of(self.indexer.col(self.key_column as int), v)
    }

    /// A requested new primary-key value is admissible: it has no index
    /// entry, or its only entry is the record being updated.
    pub open spec fn pk_admissible(self, nk: i64, b: RID) -> bool {
        self.key_rids(nk).len() == 0 || self.key_rids(nk) == seq![b]
    }

    /// Update an existing record: append a tail row with the cumulative
    /// values (the provided value of each column when present, else the
    /// latest value), update the indexer for every changed column, and
    /// point the base row's indirection at the new tail. Returns false,
    /// changing nothing, when the column count is wrong, the key is
    /// absent, or a requested new primary-key value already belongs to
    /// another record.
    #[verifier::rlimit(100)]
    pub fn update(&mut self, bp: &mut BufferPool, key: i64, columns: Vec<Option<i64>>) -> (r: bool)
        requires
            old(bp).wf(),
            old(self).wf(*old(bp)),
            old(self).next_rid + 1 <= 0x7fff_ffff_ffff_ffff,
            old(self).next_rid + 1 <= usize::MAX,
        ensures
            final(bp).wf(),
            final(self).wf(*final(bp)),
            final(bp).names() == old(bp).names(),
            table_files_grow(
                *old(bp),
                *final(bp),
                old(self).table_identifier,
                old(self).ncols_total(),
            ),
            r <==> ({
                &&& columns@.len() == old(self).num_columns
                &&& old(self).key_rids(key).len() > 0
                &&& (columns@[old(self).key_column as int] matches Some(nk) ==> old(self).pk_admissible(nk, old(self).key_rids(key)[0]))
            }),
            !r ==> *final(self) == *old(self) && BufferPool::preserves(*old(bp), *final(bp)),
            r ==> ({
                let b = old(self).key_rids(key)[0] as int;
                let l = old(self).rows@[b].link;
                let t_new = old(self).next_rid as int;
                &&& final(self).next_rid == old(self).next_rid + 1
                &&& final(self).rows@ == old(self).rows@.push(
                    RowMeta {
                        is_base: false,
                        chain: b,
                        link: l,
                        depth: (old(self).rows@[l].depth + 1) as nat,
                    },
                ).update(
                    b,
                    RowMeta { is_base: true, chain: b, link: t_new, depth: 0 },
                )
                &&& final(self).latest(b) == t_new
                &&& forall|c: int|
                    0 <= c < old(self).num_columns ==> final(self).row_cell(
                        *final(bp),
                        t_new,
                        c,
                    ) == (if columns@[c] is Some {
                        columns@[c]
                    } else {
                        old(self).row_cell(*old(bp), l, c)
                    })
                &&& (columns@[old(self).key_column as int] matches Some(nk) ==> final(self).key_rids(nk) == seq![b as RID])
                &&& (columns@[old(self).key_column as int] is None ==> final(self).indexer.col(
                    old(self).key_column as int,
                ) == old(self).indexer.col(old(self).key_column as int))
                &&& forall|c: int|
                    0 <= c < old(self).num_columns && columns@[c] is None
                        ==> #[trigger] final(self).indexer.b_trees@[c] == old(self).indexer.b_trees@[c]
                &&& forall|c: int|
                    0 <= c < old(self).num_columns && columns@[c] is Some ==> col_stepped(
                        old(self).indexer.b_trees@[c],
                        #[trigger] final(self).indexer.b_trees@[c],
                        old(self).row_cell(*old(bp), l, c),
                        columns@[c].unwrap(),
                        b as RID,
                    )
                &&& ({
                    let ri = old(self).page_directory@[b].range as int;
                    &&& (old(self).page_ranges@[ri].num_updates + 1 >= THRESHOLD ==> {
                        &&& final(self).pending_merges@.len() == old(self).pending_merges@.len() + 1
                        &&& final(self).pending_merges@.drop_last() == old(self).pending_merges@
                        &&& final(self).pending_merges@.last().range_index == ri
                        &&& final(self).page_ranges@[ri].num_updates == 0
                    })
                    &&& (old(self).page_ranges@[ri].num_updates + 1 < THRESHOLD ==> {
                        &&& final(self).pending_merges == old(self).pending_merges
                        &&& final(self).page_ranges@[ri].num_updates == old(self).page_ranges@[
                            ri
                        ].num_updates + 1
                    })
                })
                &&& final(self).name == old(self).name
                &&& final(self).num_columns == old(self).num_columns
                &&& final(self).key_column == old(self).key_column
                &&& final(self).table_identifier == old(self).table_identifier
                &&& final(self).dead_rids == old(self).dead_rids
                &&& final(self).page_directory@ == old(self).page_directory@.push(
                    final(self).page_directory@.last(),
                )
            }),
    {
        let ghost pre = *old(self);
        let ghost pre_bp = *old(bp);
        if columns.len() != self.num_columns {
            return false;
        }

        let key_value = key;
        let matching_rids = self.locate_range(key_value, key_value, self.key_column);
        proof {
            lemma_range_single(pre.indexer.col(pre.key_column as int), key);
        }

        if matching_rids.len() == 0 {
            return false;
        }

        let base_rid = matching_rids[0];
        let ghost b = base_rid as int;
        proof {
            assert(pre.key_rids(key)[0] == base_rid);
            assert(base_rid < pre.next_rid && pre.rows@[b].is_base);
            assert(pre.row_ok(pre_bp, b));
        }
        let base_address = self.page_directory[base_rid];
        proof {
            assert(pre.lp_for(b).wf(pre_bp)) by {
                assert(pre.page_ranges@[base_address.range as int].wf(pre_bp));
            }
            assert(base_address.offset < CELLS_PER_PAGE - 1);
        }

        // Grab the base row, because we need its indirection column.
        let full_proj = self.build_full_proj();
        let base_columns = match self.page_ranges[base_address.range].read_base_record(
            bp,
            base_address.page,
            base_address.offset,
            &full_proj,
        ) {
            Ok(v) => v,
            Err(e) => {
                proof {
                    assert(false);
                }
                return false;
            },
        };
        proof {
            let blp = pre.page_ranges@[base_address.range as int].base_pages@[
                base_address.page as int
            ];
            assert(pre.lp_for(b) == blp);
            assert(base_columns@ == blp.proj_cells(
                pre_bp,
                base_address.offset as int,
                full_proj@,
            ));
            blp.lemma_proj_cells_ones(pre_bp, base_address.offset as int, full_proj@, 0);
            assert(base_columns@.len() == pre.ncols_total());
            assert forall|cc: int|
                0 <= cc < pre.ncols_total() implies base_columns@[cc] == blp.cell(
                pre_bp,
                cc,
                base_address.offset as int,
            ) by {
                assert(blp.proj_cells_from(pre_bp, base_address.offset as int, full_proj@, 0)[
                    cc
                ] == blp.cell(pre_bp, cc, base_address.offset as int));
            }
            assert(base_columns@[pre.ncols_total() - 1] == blp.cell(
                pre_bp,
                pre.ncols_total() - 1,
                base_address.offset as int,
            ));
        }
        let ind = match base_columns[base_columns.len() - 1] {
            Some(l) => l,
            None => {
                proof {
                    assert(false);
                }
                0
            },
        };
        let ghost l = pre.rows@[b].link;
        proof {
            assert(base_columns@[pre.ncols_total() - 1] == pre.row_cell(
                pre_bp,
                b,
                pre.ncols_total() - 1,
            ));
            assert(pre.row_cell(pre_bp, b, pre.ncols_total() - 1) == Some(l as i64));
            assert(ind == l as i64);
            assert(pre.row_ok(pre_bp, l));
            assert(pre.lp_for(l).wf(pre_bp)) by {
                assert(pre.page_ranges@[pre.page_directory@[l].range as int].wf(pre_bp));
            }
            assert(pre.page_directory@[l].offset < CELLS_PER_PAGE - 1);
            assert(l <= 0x7fff_ffff_ffff_ffff);
        }

        // Since we are using the cumulative update scheme, grab the
        // remaining values from the latest version.
        let ghost bp1 = *bp;
        let latest_vals = if ind != base_rid as i64 {
            proof {
                assert(ind as usize == l);
            }
            let tail_address = self.page_directory[ind as usize];
            match self.page_ranges[tail_address.range].read_tail_record(
                bp,
                tail_address.page,
                tail_address.offset,
                &full_proj,
            ) {
                Ok(v) => v,
                Err(e) => {
                    proof {
                        assert(false);
                    }
                    return false;
                },
            }
        } else {
            base_columns
        };
        proof {
            pre.lp_for(l).lemma_proj_cells_ones(
                bp1,
                pre.page_directory@[l].offset as int,
                full_proj@,
                0,
            );
            pre.lp_for(l).lemma_proj_cells_stable(
                pre_bp,
                bp1,
                pre.page_directory@[l].offset as int,
                full_proj@,
                0,
            );
            assert forall|c: int|
                0 <= c < pre.ncols_total() implies latest_vals@[c] == pre.row_cell(
                pre_bp,
                l,
                c,
            ) by {
                if ind == base_rid as i64 {
                    assert(l == b);
                    assert(latest_vals@[c] == pre.lp_for(b).cell(
                        pre_bp,
                        c,
                        base_address.offset as int,
                    ));
                    assert(pre.page_directory@[l] == base_address);
                } else {
                    assert(pre.lp_for(l) == pre.page_ranges@[
                        pre.page_directory@[l].range as int
                    ].tail_pages@[pre.page_directory@[l].page as int]);
                    assert(pre.lp_for(l).proj_cells_from(
                        bp1,
                        pre.page_directory@[l].offset as int,
                        full_proj@,
                        0,
                    )[c] == pre.lp_for(l).cell(bp1, c, pre.page_directory@[l].offset as int));
                    assert(latest_vals@[c] == pre.lp_for(l).cell(
                        bp1,
                        c,
                        pre.page_directory@[l].offset as int,
                    ));
                }
            }
        }

        // A new primary-key value must not collide with another record.
        match columns[self.key_column] {
            Some(nk) => {
                let existing = self.locate_range(nk, nk, self.key_column);
                proof {
                    lemma_range_single(pre.indexer.col(pre.key_column as int), nk);
                }
                if existing.len() > 0 && !(existing.len() == 1 && existing[0] == base_rid) {
                    proof {
                        self.lemma_wf_preserved(pre_bp, *bp);
                        assert(!pre.pk_admissible(nk, base_rid)) by {
                            if pre.key_rids(nk).len() == 0 {
                            } else if pre.key_rids(nk) == seq![base_rid] {
                                assert(existing@[0] == base_rid);
                            }
                        }
                    }
                    return false;
                }
                proof {
                    assert(pre.pk_admissible(nk, base_rid)) by {
                        if pre.key_rids(nk).len() > 0 {
                            assert(pre.key_rids(nk).len() == 1);
                            assert(pre.key_rids(nk) =~= seq![base_rid]);
                        }
                    }
                }
            },
            None => {},
        }

        // Build the cumulative row and update the indexer for every
        // changed column.
        let ghost idx0 = self.indexer;
        let mut cumulative: Vec<Option<i64>> = Vec::new();
        let mut c: usize = 0;
        while c < self.num_columns
            invariant
                c == cumulative@.len() <= self.num_columns,
                columns@.len() == self.num_columns,
                latest_vals@.len() == pre.ncols_total(),
                pre.num_columns == self.num_columns,
                pre.key_column == self.key_column,
                idx0 == pre.indexer,
                self.name == pre.name,
                self.table_identifier == pre.table_identifier,
                self.next_rid == pre.next_rid,
                self.page_ranges == pre.page_ranges,
                self.page_directory == pre.page_directory,
                self.next_page_range == pre.next_page_range,
                self.dead_rids == pre.dead_rids,
                self.pending_merges == pre.pending_merges,
                self.row_kinds == pre.row_kinds,
                self.rows == pre.rows,
                pre.wf(pre_bp),
                b == base_rid as int,
                base_rid < pre.next_rid,
                pre.rows@[b].is_base,
                self.indexer.wf(),
                self.indexer.b_trees@.len() == pre.indexer.b_trees@.len(),
                self.indexer.enabled == pre.indexer.enabled,
                forall|k: int| 0 <= k < c ==> cumulative@[k] == (if columns@[k] is Some {
                    columns@[k]
                } else {
                    latest_vals@[k]
                }),
                forall|k: int| c <= k < pre.indexer.b_trees@.len() ==> self.indexer.b_trees@[k]
                    == pre.indexer.b_trees@[k],
                forall|k: int|
                    0 <= k < c && columns@[k] is None ==> #[trigger] self.indexer.b_trees@[k]
                        == pre.indexer.b_trees@[k],
                forall|k: int|
                    0 <= k < c && columns@[k] is Some ==> col_stepped(
                        pre.indexer.b_trees@[k],
                        #[trigger] self.indexer.b_trees@[k],
                        latest_vals@[k],
                        columns@[k].unwrap(),
                        base_rid,
                    ),
                forall|k: int| 0 <= k < pre.ncols_total() ==> latest_vals@[k] == pre.row_cell(
                    pre_bp,
                    l,
                    k,
                ),
                forall|c2: int, v: i64, j: int|
                    0 <= c2 < self.indexer.b_trees@.len() && 0 <= j < rids_of(
                        self.indexer.col(c2),
                        v,
                    ).len() ==> #[trigger] rids_of(self.indexer.col(c2), v)[j] < pre.next_rid
                        && pre.rows@[rids_of(self.indexer.col(c2), v)[j] as int].is_base,
                forall|v: i64| #[trigger] rids_of(
                    self.indexer.col(pre.key_column as int),
                    v,
                ).len() <= 1,
                columns@[pre.key_column as int] matches Some(nk) ==> pre.pk_admissible(
                    nk,
                    base_rid,
                ),
                c > pre.key_column ==> (columns@[pre.key_column as int] matches Some(nk)
                    ==> rids_of(self.indexer.col(pre.key_column as int), nk) == seq![base_rid]),
                c > pre.key_column ==> (columns@[pre.key_column as int] is None
                    ==> self.indexer.col(pre.key_column as int) == pre.indexer.col(
                    pre.key_column as int,
                )),
            decreases pre.num_columns - c,
        {
            let ghost idx_pre = self.indexer;
            match columns[c] {
                None => {
                    cumulative.push(latest_vals[c]);
                },
                Some(v) => {
                    cumulative.push(Some(v));
                    match latest_vals[c] {
                        Some(ov) => {
                            self.indexer.update_column_index(ov, v, c, base_rid);
                        },
                        None => {
                            self.indexer.add_column_index(v, c, base_rid);
                        },
                    }
                    proof {
                        let colpre = idx_pre.b_trees@[c as int];
                        let colpost = self.indexer.b_trees@[c as int];
                        assert(col_stepped(colpre, colpost, latest_vals@[c as int], v, base_rid));
                        lemma_col_step_members(colpre, colpost, latest_vals@[c as int], v, base_rid);
                        if c == pre.key_column {
                            lemma_key_unique_col(colpre, colpost, latest_vals@[c as int], v, base_rid);
                        }
                        assert forall|c2: int, v2: i64, j: int|
                            0 <= c2 < self.indexer.b_trees@.len() && 0 <= j < rids_of(
                                self.indexer.col(c2),
                                v2,
                            ).len() implies #[trigger] rids_of(self.indexer.col(c2), v2)[j]
                            < pre.next_rid && pre.rows@[rids_of(self.indexer.col(c2), v2)[
                            j
                        ] as int].is_base by {
                            if c2 == c {
                                let x = rids_of(self.indexer.col(c2), v2)[j];
                                if x != base_rid {
                                    assert(rids_of(idx_pre.col(c2), v2).contains(x));
                                    let j2 = choose|j2: int|
                                        0 <= j2 < rids_of(idx_pre.col(c2), v2).len() && rids_of(
                                            idx_pre.col(c2),
                                            v2,
                                        )[j2] == x;
                                    assert(rids_of(idx_pre.col(c2), v2)[j2] < pre.next_rid
                                        && pre.rows@[rids_of(idx_pre.col(c2), v2)[
                                        j2
                                    ] as int].is_base);
                                }
                            } else {
                                assert(self.indexer.b_trees@[c2] == idx_pre.b_trees@[c2]);
                                assert(rids_of(self.indexer.col(c2), v2) == rids_of(
                                    idx_pre.col(c2),
                                    v2,
                                ));
                                assert(rids_of(idx_pre.col(c2), v2)[j] < pre.next_rid
                                    && pre.rows@[rids_of(idx_pre.col(c2), v2)[j] as int].is_base);
                            }
                        }
                        assert forall|v2: i64| #[trigger] rids_of(
                            self.indexer.col(pre.key_column as int),
                            v2,
                        ).len() <= 1 by {
                            if c != pre.key_column {
                                assert(self.indexer.b_trees@[pre.key_column as int]
                                    == idx_pre.b_trees@[pre.key_column as int]);
                                assert(rids_of(idx_pre.col(pre.key_column as int), v2).len()
                                    <= 1);
                            } else {
                                assert(self.indexer.col(pre.key_column as int)
                                    == colpost.entries@);
                                assert(rids_of(colpost.entries@, v2).len() <= 1);
                            }
                        }
                    }
                },
            }
            c = c + 1;
        }
        cumulative.push(None);

        // At this point `cumulative` has all of our changes and the
        // original data that wasn't updated.
        let ghost bp2 = *bp;
        let ghost mid = *self;
        proof {
            pre.lemma_wf_preserved(pre_bp, bp2);
            assert(mid.wf(bp2)) by {
                assert forall|rid: int| 0 <= rid < mid.next_rid implies mid.row_ok(bp2, rid) by {
                    assert(pre.row_ok(bp2, rid));
                    assert(mid.lp_for(rid) == pre.lp_for(rid));
                }
                assert forall|r1: int, p1: int, k1: bool, r2: int, p2: int, k2: bool|
                    mid.valid_lp(r1, k1, p1) && mid.valid_lp(r2, k2, p2) && r1 != r2
                        implies #[trigger] mid.lp_at(r1, k1, p1).index() != #[trigger] mid.lp_at(
                    r2,
                    k2,
                    p2,
                ).index() by {
                    assert(mid.lp_at(r1, k1, p1) == pre.lp_at(r1, k1, p1));
                    assert(mid.lp_at(r2, k2, p2) == pre.lp_at(r2, k2, p2));
                    assert(pre.valid_lp(r1, k1, p1) && pre.valid_lp(r2, k2, p2));
                }
            }
            assert(ind == mid.rows@[b].link as i64);
        }
        self.apply_tail(bp, base_rid, base_address, ind, &cumulative);
        proof {
            let post = *self;
            let t_new = pre.next_rid as int;
            assert forall|cc: int|
                0 <= cc < pre.num_columns implies post.row_cell(*bp, t_new, cc) == (if columns@[
                cc
            ] is Some {
                columns@[cc]
            } else {
                pre.row_cell(pre_bp, l, cc)
            }) by {
                assert(post.row_cell(*bp, t_new, cc) == cumulative@[cc]);
            }
            assert(post.page_directory@ =~= pre.page_directory@.push(
                post.page_directory@.last(),
            ));
        }
        true
    }

}

} // verus!
