//! Rendering the patch of a commit as plain text.

use crate::commit::{CommitId, CommitRecord};
use crate::error::DiffError;
use vstd::prelude::*;

verus! {

/// What kind of line a line of a patch is.
#[derive(Clone, Copy, Debug, PartialEq, Eq, Structural)]
pub enum Origin {
    /// A line that both sides hold.
    Context,
    /// A line that the commit added.
    Addition,
    /// A line that the commit took away.
    Deletion,
    /// Anything else: the header of a file or of a hunk, a note on binary content.
    Other,
}

/// One line of a patch, as the repository hands it over.
#[derive(Clone, Debug, PartialEq, Eq)]
pub struct PatchLine {
    pub origin: Origin,
    /// The line as it stands in the patch, without its marker.
    pub content: Vec<u8>,
}

/// Against what the patch of a commit is made.
#[derive(Clone, Copy, Debug, PartialEq, Eq, Structural)]
pub enum PatchPlan {
    /// A merge: it gets no patch.
    Skip,
    /// A root: its tree is compared with the empty tree.
    AgainstEmpty,
    /// A commit with one parent: its tree is compared with that parent's.
    AgainstParent(CommitId),
}

/// The kind of line that a marker character stands for.
pub open spec fn origin_for(marker: char) -> Origin {
    if marker == ' ' {
        Origin::Context
    } else if marker == '+' {
        Origin::Addition
    } else if marker == '-' {
        Origin::Deletion
    } else {
        Origin::Other
    }
}

/// The marker that a line of this kind begins with, as bytes: one character
/// for context, additions and deletions, nothing for the rest.
pub open spec fn prefix_of(origin: Origin) -> Seq<u8> {
    match origin {
        Origin::Context => seq![0x20u8],
        Origin::Addition => seq![0x2bu8],
        Origin::Deletion => seq![0x2du8],
        Origin::Other => Seq::empty(),
    }
}

/// A line as text: its marker, then its content as it is.
pub open spec fn rendered_line(line: PatchLine) -> Seq<u8> {
    prefix_of(line.origin) + line.content@
}

/// The lines as text, one after the other.
pub open spec fn rendered(lines: Seq<PatchLine>) -> Seq<u8>
    decreases lines.len(),
{
    if lines.len() == 0 {
        Seq::empty()
    } else {
        rendered(lines.drop_last()) + rendered_line(lines.last())
    }
}

/// Against what the patch of a commit is made, by the number of its parents.
pub open spec fn plan_for(commit: &CommitRecord) -> PatchPlan {
    if commit.parent_ids.len() > 1 {
        PatchPlan::Skip
    } else if commit.parent_ids.len() == 1 {
        PatchPlan::AgainstParent(commit.parent_ids@[0])
    } else {
        PatchPlan::AgainstEmpty
    }
}

/// The kind of line that a marker character stands for: a blank for context,
/// `+` for an addition, `-` for a deletion.
pub fn origin_of(marker: char) -> (origin: Origin)
    ensures
        origin == origin_for(marker),
{
    if marker == ' ' {
        Origin::Context
    } else if marker == '+' {
        Origin::Addition
    } else if marker == '-' {
        Origin::Deletion
    } else {
        Origin::Other
    }
}

/// Against what the patch of a commit is made. A merge gets none.
pub fn plan_patch(commit: &CommitRecord) -> (plan: PatchPlan)
    ensures
        plan == plan_for(commit),
{
    let count: usize = commit.parent_ids.len();
    if count > 1 {
        PatchPlan::Skip
    } else if count == 1 {
        PatchPlan::AgainstParent(commit.parent_ids[0])
    } else {
        PatchPlan::AgainstEmpty
    }
}

/// Appends a line to the text: its marker, then its content.
pub fn render_line(line: &PatchLine, out: &mut Vec<u8>)
    ensures
        final(out)@ == old(out)@ + rendered_line(*line),
{
    let ghost start = out@;
    match line.origin {
        Origin::Context => {
            out.push(0x20u8);
        },
        Origin::Addition => {
            out.push(0x2bu8);
        },
        Origin::Deletion => {
            out.push(0x2du8);
        },
        Origin::Other => {},
    }
    assert(out@ =~= start + prefix_of(line.origin));
    let ghost marked = out@;
    let n: usize = line.content.len();
    let mut i: usize = 0;
    while i < n
        invariant
            n == line.content@.len(),
            i <= n,
            out@ == marked + line.content@.subrange(0, i as int),
        decreases n - i,
    {
        out.push(line.content[i]);
        i += 1;
        assert(out@ =~= marked + line.content@.subrange(0, i as int));
    }
    assert(line.content@.subrange(0, n as int) =~= line.content@);
    assert(out@ =~= start + rendered_line(*line));
}

/// The lines of a patch as text.
pub fn render_patch(lines: &Vec<PatchLine>) -> (text: Vec<u8>)
    ensures
        text@ == rendered(lines@),
{
    let mut text: Vec<u8> = Vec::new();
    let n: usize = lines.len();
    let mut i: usize = 0;
    while i < n
        invariant
            n == lines@.len(),
            i <= n,
            text@ == rendered(lines@.subrange(0, i as int)),
        decreases n - i,
    {
        render_line(&lines[i], &mut text);
        i += 1;
        assert(lines@.subrange(0, i as int).drop_last() =~= lines@.subrange(0, i - 1));
    }
    assert(lines@.subrange(0, n as int) =~= lines@);
    text
}

/// The patch of one commit as text, from what the repository made of the
/// comparison: the text of its lines, or the error with which the comparison
/// failed. The error ends the patch of this commit only.
pub fn render(diff: &Result<Vec<PatchLine>, DiffError>) -> (r: Result<Vec<u8>, DiffError>)
    ensures
        match *diff {
            Ok(lines) => r matches Ok(text) && text@ == rendered(lines@),
            Err(e) => r == Err::<Vec<u8>, DiffError>(e),
        },
{
    match diff {
        Ok(lines) => Ok(render_patch(lines)),
        Err(e) => Err(*e),
    }
}

} // verus!
