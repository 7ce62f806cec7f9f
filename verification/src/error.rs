//! The ways in which a query fails.

use crate::commit::CommitId;
use vstd::prelude::*;

verus! {

/// A revision expression could not be turned into commits. The walk does not start.
#[derive(Clone, Debug, PartialEq, Eq)]
pub enum ResolutionError {
    /// The expression names nothing in the repository.
    NotFound(String),
    /// The expression names more than one object.
    Ambiguous(String),
    /// The two ends of a range share no ancestor.
    NoMergeBase(CommitId, CommitId),
    /// No expression was given and the repository has no current head.
    NoHead,
    /// A reply came that does not fit what was asked: a range where one commit
    /// was asked for, or a reply when nothing was pending.
    OutOfTurn,
}

/// The walk could not go on: the graph is not what a repository holds.
#[derive(Clone, Copy, Debug, PartialEq, Eq, Structural)]
pub enum GraphError {
    /// The walk reached this id, and the graph holds no record of it.
    Missing(CommitId),
    /// This commit is its own ancestor, so no order puts children before parents.
    Cycle(CommitId),
}

/// The repository could not compare the trees of a commit.
#[derive(Clone, Copy, Debug, PartialEq, Eq, Structural)]
pub enum DiffError {
    /// The tree of this commit could not be read.
    Tree(CommitId),
    /// The comparison that ends at this commit failed.
    Diff(CommitId),
}

} // verus!
