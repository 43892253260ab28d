//! Prototype hash-map index from values to record ids.

use vstd::prelude::*;

use std::collections::HashMap;

verus! {

broadcast use vstd::std_specs::hash::group_hash_axioms;

/// Prototype hashmap index mapping column values to the record ids that
/// carry them. The ordered per-column indexes of the table are kept by
/// the indexer; this structure serves point lookups alone.
pub struct HashMapIndex {
    /// Maps values to RIDs.
    hashmap: HashMap<i64, Vec<usize>>,
}

/// Copy a vector of record ids.
fn copy_rids(v: &Vec<usize>) -> (r: Vec<usize>)
    ensures
        r@ == v@,
{
    let mut r: Vec<usize> = Vec::new();
    let mut i: usize = 0;
    while i < v.len()
        invariant
            i == r@.len() <= v@.len(),
            forall|j: int| 0 <= j < i ==> r@[j] == v@[j],
        decreases v@.len() - i,
    {
        r.push(v[i]);
        i = i + 1;
    }
    assert(r@ =~= v@);
    r
}

impl HashMapIndex {
    /// The records registered under each value.
    pub closed spec fn view(&self) -> Map<i64, Seq<usize>> {
        self.hashmap@.map_values(|v: Vec<usize>| v@)
    }

    /// Create a new hashmap index.
    pub fn new() -> (r: Self)
        ensures
            r@ == Map::<i64, Seq<usize>>::empty(),
    {
        let hashmap: HashMap<i64, Vec<usize>> = HashMap::new();
        let r = HashMapIndex { hashmap };
        proof {
            assert(r@ =~= Map::<i64, Seq<usize>>::empty());
        }
        r
    }

    /// Add a RID associated with a value.
    pub fn add_hash(&mut self, value: i64, rid: usize)
        ensures
            old(self)@.contains_key(value) ==> final(self)@ == old(self)@.insert(
                value,
                old(self)@[value].push(rid),
            ),
            !old(self)@.contains_key(value) ==> final(self)@ == old(self)@.insert(
                value,
                seq![rid],
            ),
    {
        let mut updated: Vec<usize> = match self.hashmap.get(&value) {
            Some(existing) => copy_rids(existing),
            None => Vec::new(),
        };
        updated.push(rid);
        let ghost was_there = self@.contains_key(value);
        self.hashmap.insert(value, updated);
        proof {
            if was_there {
                assert(final(self)@ =~= old(self)@.insert(value, old(self)@[value].push(rid)));
            } else {
                assert(final(self)@ =~= old(self)@.insert(value, seq![rid]));
            }
        }
    }

    /// Remove every occurrence of a RID associated with a value. The
    /// value must have been inserted into the index before.
    pub fn delete_hash(&mut self, value: i64, rid: usize)
        requires
            old(self)@.contains_key(value),
        ensures
            final(self)@ == old(self)@.insert(
                value,
                old(self)@[value].filter(|r: usize| r != rid),
            ),
    {
        let ghost pred = |r: usize| r != rid;
        let existing = self.hashmap.get(&value).unwrap();
        let mut kept: Vec<usize> = Vec::new();
        let mut i: usize = 0;
        while i < existing.len()
            invariant
                i <= existing@.len(),
                pred == (|r: usize| r != rid),
                kept@ == existing@.take(i as int).filter(pred),
            decreases existing@.len() - i,
    {
            proof {
                reveal(Seq::filter);
                let t1 = existing@.take(i + 1);
                assert(t1.drop_last() =~= existing@.take(i as int));
                assert(t1.last() == existing@[i as int]);
                assert(t1.filter(pred) == if pred(existing@[i as int]) {
                    existing@.take(i as int).filter(pred).push(existing@[i as int])
                } else {
                    existing@.take(i as int).filter(pred)
                });
            }
            if existing[i] != rid {
                kept.push(existing[i]);
            }
            i = i + 1;
        }
        proof {
            reveal(Seq::filter);
            assert(existing@.take(existing@.len() as int) =~= existing@);
        }
        self.hashmap.insert(value, kept);
        proof {
            assert(final(self)@ =~= old(self)@.insert(
                value,
                old(self)@[value].filter(pred),
            ));
        }
    }
}

} // verus!
