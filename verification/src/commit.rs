//! Commits as the engine sees them: plain values handed over by the repository.

use vstd::prelude::*;

verus! {

/// The identity of a commit: a 160-bit content hash, held as its upper 128 and
/// lower 32 bits.
#[derive(Clone, Copy, Debug, PartialEq, Eq, Structural, Hash)]
pub struct CommitId {
    pub high: u128,
    pub low: u32,
}

impl CommitId {
    /// Builds an id from the two halves of its hash.
    pub fn new(high: u128, low: u32) -> (id: CommitId)
        ensures
            id == (CommitId { high, low }),
    {
        CommitId { high, low }
    }

    /// The order of ids: by the upper bits, then by the lower ones.
    pub open spec fn precedes(self, other: CommitId) -> bool {
        self.high < other.high || (self.high == other.high && self.low < other.low)
    }

    /// Whether `self` comes strictly before `other` in the order of ids.
    pub fn is_before(&self, other: &CommitId) -> (b: bool)
        ensures
            b == self.precedes(*other),
    {
        self.high < other.high || (self.high == other.high && self.low < other.low)
    }
}

/// Who made a change, and when.
///
/// A name or an address that the repository could not decode is absent.
#[derive(Clone, Debug)]
pub struct Signature {
    pub name: Option<String>,
    pub email: Option<String>,
    /// Seconds since the epoch.
    pub seconds: i64,
    /// Offset of the signer's time zone from UTC, in minutes.
    pub offset_minutes: i32,
}

/// One commit of the graph. The engine reads records and never changes them.
#[derive(Clone, Debug)]
pub struct CommitRecord {
    pub id: CommitId,
    pub author: Signature,
    pub committer: Signature,
    /// The message, absent where the repository could not decode it.
    pub message: Option<String>,
    /// The parents in the order the commit names them.
    pub parent_ids: Vec<CommitId>,
}

impl CommitRecord {
    /// The number of parents: none for a root, more than one for a merge.
    pub fn parent_count(&self) -> (n: usize)
        ensures
            n == self.parent_ids@.len(),
    {
        self.parent_ids.len()
    }

    /// The time by which commits are ordered: the committer's.
    pub open spec fn time(&self) -> int {
        self.committer.seconds as int
    }
}

} // verus!
