//! The commit graph: a store of commit records that finds a record by its id,
//! and the parent links that the records spell out.

use crate::commit::{CommitId, CommitRecord};
use std::collections::HashMap;
use vstd::prelude::*;

verus! {

/// A snapshot of the commits that the repository has handed over.
///
/// No two records share an id. A parent that a record names may be absent:
/// the walk reports it as missing.
pub struct CommitGraph {
    records: Vec<CommitRecord>,
    /// For the upper bits of an id, the places of the records whose ids have them.
    index: HashMap<u128, Vec<usize>>,
}

impl View for CommitGraph {
    type V = Seq<CommitRecord>;

    closed spec fn view(&self) -> Seq<CommitRecord> {
        self.records@
    }
}

/// No two records of `records` share an id.
pub open spec fn distinct_ids(records: Seq<CommitRecord>) -> bool {
    forall|i: int, j: int|
        0 <= i < records.len() && 0 <= j < records.len() && #[trigger] records[i].id
            == #[trigger] records[j].id ==> i == j
}

/// Some record of `records` has the id `id`.
pub open spec fn holds(records: Seq<CommitRecord>, id: CommitId) -> bool {
    exists|i: int| 0 <= i < records.len() && #[trigger] records[i].id == id
}

/// The place of the record with the id `id`, where there is one.
pub open spec fn place(records: Seq<CommitRecord>, id: CommitId) -> int {
    choose|i: int| 0 <= i < records.len() && #[trigger] records[i].id == id
}

/// `parent` is named as a parent by the record of `child`.
pub open spec fn links(records: Seq<CommitRecord>, child: CommitId, parent: CommitId) -> bool {
    exists|i: int, k: int|
        0 <= i < records.len() && 0 <= k < records[i].parent_ids@.len() && #[trigger] records[i].id
            == child && #[trigger] records[i].parent_ids@[k] == parent
}

/// The place `i` is listed in `bucket`.
spec fn listed(bucket: Seq<usize>, i: int) -> bool {
    exists|a: int| 0 <= a < bucket.len() && (#[trigger] bucket[a]) == i
}

/// The index lists every record under the upper bits of its id, and nothing else.
spec fn index_of_records(records: Seq<CommitRecord>, index: Map<u128, Vec<usize>>) -> bool {
    &&& forall|i: int|
        0 <= i < records.len() ==> index.contains_key((#[trigger] records[i]).id.high) && listed(
            index[records[i].id.high]@,
            i,
        )
    &&& forall|k: u128, a: int|
        index.contains_key(k) && 0 <= a < index[k]@.len() ==> (#[trigger] index[k]@[a])
            < records.len() && records[index[k]@[a] as int].id.high == k
}

impl CommitGraph {
    /// The index finds every record, and only records.
    pub closed spec fn indexed(&self) -> bool {
        index_of_records(self.records@, self.index@)
    }

    /// The invariant of the store: ids are distinct, and the index is in step
    /// with the records.
    pub open spec fn wf(&self) -> bool {
        distinct_ids(self@) && self.indexed()
    }

    /// The graph holds a record with this id.
    pub open spec fn contains(&self, id: CommitId) -> bool {
        holds(self@, id)
    }

    /// An empty graph.
    pub fn new() -> (g: CommitGraph)
        ensures
            g.wf(),
            g@.len() == 0,
    {
        CommitGraph { records: Vec::new(), index: HashMap::new() }
    }

    /// The number of records.
    pub fn len(&self) -> (n: usize)
        ensures
            n == self@.len(),
    {
        self.records.len()
    }

    /// The record at a place of the store.
    pub fn record_at(&self, i: usize) -> (r: &CommitRecord)
        requires
            i < self@.len(),
        ensures
            *r == self@[i as int],
    {
        &self.records[i]
    }

    /// The place of the record with the id `id`, or `None` where the graph holds none.
    pub fn position(&self, id: CommitId) -> (r: Option<usize>)
        requires
            self.wf(),
        ensures
            match r {
                Some(i) => i < self@.len() && self@[i as int].id == id && i == place(self@, id),
                None => !self.contains(id),
            },
    {
        broadcast use vstd::std_specs::hash::group_hash_axioms;

        let bucket: &Vec<usize> = match self.index.get(&id.high) {
            Some(bucket) => bucket,
            None => {
                return None;
            },
        };
        let n: usize = bucket.len();
        let mut a: usize = 0;
        while a < n
            invariant
                self.wf(),
                self.index@.contains_key(id.high),
                *bucket == self.index@[id.high],
                n == bucket@.len(),
                a <= n,
                forall|b: int| 0 <= b < a ==> self.records@[(#[trigger] bucket@[b]) as int].id != id,
            decreases n - a,
        {
            let p: usize = bucket[a];
            if self.records[p].id == id {
                return Some(p);
            }
            a += 1;
        }
        proof {
            if self.contains(id) {
                let i = place(self@, id);
                assert(listed(bucket@, i));
            }
        }
        None
    }

    /// The record with the id `id`, or `None` where the graph holds none.
    pub fn get(&self, id: CommitId) -> (r: Option<&CommitRecord>)
        requires
            self.wf(),
        ensures
            match r {
                Some(rec) => self.contains(id) && *rec == self@[place(self@, id)],
                None => !self.contains(id),
            },
    {
        match self.position(id) {
            Some(i) => Some(&self.records[i]),
            None => None,
        }
    }

    /// Adds a record, unless one with its id is there already.
    ///
    /// Returns whether the record was added.
    pub fn insert(&mut self, record: CommitRecord) -> (added: bool)
        requires
            old(self).wf(),
        ensures
            final(self).wf(),
            added == !old(self).contains(record.id),
            added ==> final(self)@ == old(self)@.push(record),
            !added ==> final(self)@ == old(self)@,
    {
        broadcast use vstd::std_specs::hash::group_hash_axioms;

        if self.position(record.id).is_some() {
            return false;
        }
        let n: usize = self.records.len();
        let high: u128 = record.id.high;
        let ghost records0 = self.records@;
        let ghost index0 = self.index@;
        let mut bucket: Vec<usize> = match self.index.remove(&high) {
            Some(bucket) => bucket,
            None => Vec::new(),
        };
        let ghost bucket0 = bucket@;
        bucket.push(n);
        let ghost listing = bucket;
        self.index.insert(high, bucket);
        self.records.push(record);
        proof {
            let records = self.records@;
            let index = self.index@;
            assert(index == index0.insert(high, listing));
            assert(index0.contains_key(high) ==> bucket0 == index0[high]@);
            assert forall|i: int| 0 <= i < records.len() implies index.contains_key(
                (#[trigger] records[i]).id.high,
            ) && listed(index[records[i].id.high]@, i) by {
                if i < n {
                    assert(records[i] == records0[i]);
                    assert(index0.contains_key(records0[i].id.high));
                    if records[i].id.high == high {
                        assert(listed(bucket0, i));
                        let a = choose|a: int| 0 <= a < bucket0.len() && (#[trigger] bucket0[a]) == i;
                        assert(listing@[a] == i);
                    }
                } else {
                    assert(listing@[bucket0.len() as int] == n);
                }
            }
            assert forall|k: u128, a: int|
                index.contains_key(k) && 0 <= a < index[k]@.len() implies (#[trigger] index[k]@[a])
                < records.len() && records[index[k]@[a] as int].id.high == k by {
                if k == high {
                    if a < bucket0.len() {
                        assert(index0[k]@[a] < records0.len());
                        assert(records[index0[k]@[a] as int] == records0[index0[k]@[a] as int]);
                    }
                } else {
                    assert(index0[k]@[a] < records0.len());
                    assert(records[index0[k]@[a] as int] == records0[index0[k]@[a] as int]);
                }
            }
            assert forall|i: int, j: int|
                0 <= i < records.len() && 0 <= j < records.len() && #[trigger] records[i].id
                    == #[trigger] records[j].id implies i == j by {
                if i < n && j < n {
                    assert(records0[i].id == records0[j].id);
                } else if i < n {
                    assert(records0[i].id == record.id);
                } else if j < n {
                    assert(records0[j].id == record.id);
                }
            }
        }
        true
    }
}

} // verus!
