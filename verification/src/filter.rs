//! The filter: which commits of a walk a query keeps.
//!
//! A commit is kept when it passes, in this order, the bounds on its number of
//! parents, the test of the paths it touches, and the tests of its author, its
//! committer and its message. What a commit touches only the repository can
//! tell, so the filter asks: it names the comparison it needs, and goes on
//! with the answer.

use crate::commit::{CommitId, CommitRecord, Signature};
use crate::error::DiffError;
use crate::text::{contains, is_substring};
use vstd::prelude::*;

verus! {

/// What the caller said about the number of parents a commit may have.
#[derive(Clone, Copy, Debug)]
pub struct ParentFlags {
    /// Keep merges only: two parents at least, unless a minimum is given.
    pub merges: bool,
    /// Keep no merges: fewer than two parents, unless a maximum is given.
    pub no_merges: bool,
    /// Ask for no minimum, whatever else is set.
    pub no_min_parents: bool,
    /// Ask for no maximum, whatever else is set.
    pub no_max_parents: bool,
    /// The least number of parents.
    pub min_parents: Option<usize>,
    /// The bound that the number of parents must stay below.
    pub max_parents: Option<usize>,
}

impl ParentFlags {
    /// The least number of parents that these flags ask for.
    pub open spec fn lower(self) -> usize {
        if self.no_min_parents {
            0
        } else {
            match self.min_parents {
                Some(n) => n,
                None => if self.merges {
                    2
                } else {
                    0
                },
            }
        }
    }

    /// The bound that these flags put above the number of parents, if any.
    pub open spec fn upper(self) -> Option<usize> {
        if self.no_max_parents {
            None
        } else {
            match self.max_parents {
                Some(n) => Some(n),
                None => if self.no_merges {
                    Some(1)
                } else {
                    None
                },
            }
        }
    }

    /// Flags with nothing set.
    pub fn new() -> (flags: ParentFlags)
        ensures
            flags == (ParentFlags {
                merges: false,
                no_merges: false,
                no_min_parents: false,
                no_max_parents: false,
                min_parents: None,
                max_parents: None,
            }),
            flags.lower() == 0,
            flags.upper() == None::<usize>,
    {
        ParentFlags {
            merges: false,
            no_merges: false,
            no_min_parents: false,
            no_max_parents: false,
            min_parents: None,
            max_parents: None,
        }
    }

    /// The least number of parents that a kept commit has.
    pub fn min_parents(&self) -> (n: usize)
        ensures
            n == self.lower(),
    {
        if self.no_min_parents {
            return 0;
        }
        match self.min_parents {
            Some(n) => n,
            None => if self.merges {
                2
            } else {
                0
            },
        }
    }

    /// The number that the parents of a kept commit stay below, or `None`
    /// where any number is kept.
    pub fn max_parents(&self) -> (n: Option<usize>)
        ensures
            n == self.upper(),
    {
        if self.no_max_parents {
            return None;
        }
        match self.max_parents {
            Some(n) => Some(n),
            None => if self.no_merges {
                Some(1)
            } else {
                None
            },
        }
    }
}

/// How the flags set the bounds where no number is given: no bound at all
/// without flags; two parents at least for merges only, and none where no
/// minimum is asked for; fewer than two parents for no merges, and no bound
/// where no maximum is asked for.
pub proof fn lemma_parent_bound_defaults(flags: ParentFlags)
    ensures
        flags.no_min_parents ==> flags.lower() == 0,
        flags.no_max_parents ==> flags.upper() == None::<usize>,
        !flags.no_min_parents && flags.min_parents is None ==> flags.lower() == (if flags.merges {
            2usize
        } else {
            0usize
        }),
        !flags.no_max_parents && flags.max_parents is None ==> flags.upper() == (
        if flags.no_merges {
            Some(1usize)
        } else {
            None
        }),
        !flags.no_min_parents && flags.min_parents is Some ==> flags.lower()
            == flags.min_parents->0,
        !flags.no_max_parents && flags.max_parents is Some ==> flags.upper() == flags.max_parents,
{
}

/// What a query keeps.
#[derive(Clone, Debug)]
pub struct FilterSpec {
    /// Text that the author's name or address must hold.
    pub author: Option<String>,
    /// Text that the committer's name or address must hold.
    pub committer: Option<String>,
    /// Text that the message must hold.
    pub message: Option<String>,
    /// The least number of parents.
    pub min_parents: usize,
    /// The number that the parents stay below, if any.
    pub max_parents: Option<usize>,
    /// The paths of interest; none means every commit is of interest.
    pub path_patterns: Vec<String>,
}

/// A comparison that the filter needs from the repository.
#[derive(Clone, Copy, Debug, PartialEq, Eq, Structural)]
pub enum Probe {
    /// Does the tree of this root commit hold a path among the patterns?
    RootTree,
    /// Does the commit differ from its parent of this number on a path among
    /// the patterns?
    ParentDiff(usize),
}

/// Where the filter stands with a commit.
#[derive(Clone, Copy, Debug, PartialEq, Eq, Structural)]
pub enum Verdict {
    /// The commit is kept.
    Accept,
    /// The commit is dropped.
    Reject,
    /// The filter needs the answer to this comparison to go on.
    Ask(Probe),
}

/// The repository's answer says that a path among the patterns is touched.
/// A comparison that failed counts as not touching.
pub open spec fn touches(answer: Result<bool, DiffError>) -> bool {
    answer == Ok::<bool, DiffError>(true)
}

/// The answer for the comparison of number `i`, a failure where none was given.
pub open spec fn answer_at(answers: Seq<Result<bool, DiffError>>, i: int) -> Result<
    bool,
    DiffError,
> {
    if 0 <= i < answers.len() {
        answers[i]
    } else {
        Err(DiffError::Diff(CommitId { high: 0, low: 0 }))
    }
}

/// The signature holds `wanted` in its name or in its address; a part that is
/// absent holds nothing. With nothing wanted every signature passes.
pub open spec fn signature_matches(sig: Signature, wanted: Option<String>) -> bool {
    match wanted {
        None => true,
        Some(w) => (sig.name matches Some(n) && is_substring(n@, w@)) || (sig.email matches Some(
            e,
        ) && is_substring(e@, w@)),
    }
}

/// The message holds `wanted`; an absent message holds nothing. With nothing
/// wanted every message passes.
pub open spec fn message_matches(message: Option<String>, wanted: Option<String>) -> bool {
    match wanted {
        None => true,
        Some(w) => message matches Some(m) && is_substring(m@, w@),
    }
}

impl FilterSpec {
    /// The number of parents is within the bounds: the minimum at least, and
    /// below the maximum where there is one.
    pub open spec fn within_bounds(&self, commit: &CommitRecord) -> bool {
        &&& commit.parent_ids.len() >= self.min_parents
        &&& self.max_parents matches Some(m) ==> commit.parent_ids.len() < m
    }

    /// The author, the committer and the message pass.
    pub open spec fn text_matches(&self, commit: &CommitRecord) -> bool {
        &&& signature_matches(commit.author, self.author)
        &&& signature_matches(commit.committer, self.committer)
        &&& message_matches(commit.message, self.message)
    }

    /// The commit is of interest for the paths: a root whose tree holds one of
    /// them; another commit that differs from every one of its parents on one
    /// of them. `answers` holds the repository's answer for the root's tree,
    /// or for each parent by its number.
    pub open spec fn path_relevant(commit: &CommitRecord, answers: Seq<Result<bool, DiffError>>) -> bool {
        if commit.parent_ids.len() == 0 {
            touches(answer_at(answers, 0))
        } else {
            forall|i: int|
                0 <= i < commit.parent_ids.len() ==> touches(#[trigger] answer_at(answers, i))
        }
    }

    /// The filter keeps the commit.
    pub open spec fn matches(&self, commit: &CommitRecord, answers: Seq<Result<bool, DiffError>>) -> bool {
        &&& self.within_bounds(commit)
        &&& self.path_patterns@.len() > 0 ==> Self::path_relevant(commit, answers)
        &&& self.text_matches(commit)
    }

    /// The verdict once the paths are settled: by author, committer and message.
    pub open spec fn text_verdict(&self, commit: &CommitRecord) -> Verdict {
        if self.text_matches(commit) {
            Verdict::Accept
        } else {
            Verdict::Reject
        }
    }

    /// Where the filter stands before any answer: a commit outside the bounds
    /// is dropped without a question.
    pub open spec fn first_verdict(&self, commit: &CommitRecord) -> Verdict {
        if !self.within_bounds(commit) {
            Verdict::Reject
        } else if self.path_patterns@.len() == 0 {
            self.text_verdict(commit)
        } else if commit.parent_ids.len() == 0 {
            Verdict::Ask(Probe::RootTree)
        } else {
            Verdict::Ask(Probe::ParentDiff(0))
        }
    }

    /// Where the filter stands after the answer to `probe`: the first answer
    /// that does not touch the paths drops the commit without another question.
    pub open spec fn next_verdict(
        &self,
        commit: &CommitRecord,
        probe: Probe,
        answer: Result<bool, DiffError>,
    ) -> Verdict {
        if !touches(answer) {
            Verdict::Reject
        } else {
            match probe {
                Probe::RootTree => self.text_verdict(commit),
                Probe::ParentDiff(i) => if i + 1 < commit.parent_ids.len() {
                    Verdict::Ask(Probe::ParentDiff((i + 1) as usize))
                } else {
                    self.text_verdict(commit)
                },
            }
        }
    }

    /// The end of the exchange that starts at `verdict`, each question
    /// answered from `answers`.
    pub open spec fn settle(
        &self,
        commit: &CommitRecord,
        answers: Seq<Result<bool, DiffError>>,
        verdict: Verdict,
    ) -> bool
        decreases
            match verdict {
                Verdict::Ask(Probe::ParentDiff(i)) => commit.parent_ids.len() - i,
                _ => 0,
            },
    {
        match verdict {
            Verdict::Accept => true,
            Verdict::Reject => false,
            Verdict::Ask(Probe::RootTree) => self.text_matches(commit) && touches(
                answer_at(answers, 0),
            ),
            Verdict::Ask(Probe::ParentDiff(i)) => if i + 1 < commit.parent_ids.len() {
                touches(answer_at(answers, i as int)) && self.settle(
                    commit,
                    answers,
                    Verdict::Ask(Probe::ParentDiff((i + 1) as usize)),
                )
            } else {
                self.text_matches(commit) && touches(answer_at(answers, i as int))
            },
        }
    }

    /// A filter that keeps every commit.
    pub fn new() -> (spec: FilterSpec)
        ensures
            spec.author is None,
            spec.committer is None,
            spec.message is None,
            spec.min_parents == 0,
            spec.max_parents is None,
            spec.path_patterns@.len() == 0,
    {
        FilterSpec {
            author: None,
            committer: None,
            message: None,
            min_parents: 0,
            max_parents: None,
            path_patterns: Vec::new(),
        }
    }

    /// Sets the bounds on the number of parents as the flags ask.
    pub fn with_parent_flags(self, flags: &ParentFlags) -> (spec: FilterSpec)
        ensures
            spec.min_parents == flags.lower(),
            spec.max_parents == flags.upper(),
            spec.author == self.author,
            spec.committer == self.committer,
            spec.message == self.message,
            spec.path_patterns == self.path_patterns,
    {
        FilterSpec {
            author: self.author,
            committer: self.committer,
            message: self.message,
            min_parents: flags.min_parents(),
            max_parents: flags.max_parents(),
            path_patterns: self.path_patterns,
        }
    }

    /// Whether the number of parents is within the bounds.
    pub fn parents_in_bounds(&self, commit: &CommitRecord) -> (b: bool)
        ensures
            b == self.within_bounds(commit),
    {
        let count: usize = commit.parent_ids.len();
        if count < self.min_parents {
            return false;
        }
        match self.max_parents {
            Some(m) => count < m,
            None => true,
        }
    }

    /// Whether the author, the committer and the message pass.
    pub fn text_passes(&self, commit: &CommitRecord) -> (b: bool)
        ensures
            b == self.text_matches(commit),
    {
        signature_passes(&commit.author, &self.author) && signature_passes(
            &commit.committer,
            &self.committer,
        ) && message_passes(&commit.message, &self.message)
    }

    /// Starts on a commit: the verdict, or the first question.
    pub fn begin(&self, commit: &CommitRecord) -> (v: Verdict)
        ensures
            v == self.first_verdict(commit),
    {
        if !self.parents_in_bounds(commit) {
            Verdict::Reject
        } else if self.path_patterns.len() == 0 {
            self.text_decision(commit)
        } else if commit.parent_ids.len() == 0 {
            Verdict::Ask(Probe::RootTree)
        } else {
            Verdict::Ask(Probe::ParentDiff(0))
        }
    }

    /// Goes on with the repository's answer to `probe`: the verdict, or the
    /// next question.
    pub fn resume(&self, commit: &CommitRecord, probe: Probe, answer: &Result<bool, DiffError>) -> (v:
        Verdict)
        ensures
            v == self.next_verdict(commit, probe, *answer),
    {
        let touched: bool = match answer {
            Ok(t) => *t,
            Err(_) => false,
        };
        if !touched {
            return Verdict::Reject;
        }
        match probe {
            Probe::RootTree => self.text_decision(commit),
            Probe::ParentDiff(i) => {
                if i < usize::MAX && i + 1 < commit.parent_ids.len() {
                    Verdict::Ask(Probe::ParentDiff(i + 1))
                } else {
                    self.text_decision(commit)
                }
            },
        }
    }

    /// The verdict by author, committer and message.
    fn text_decision(&self, commit: &CommitRecord) -> (v: Verdict)
        ensures
            v == self.text_verdict(commit),
    {
        if self.text_passes(commit) {
            Verdict::Accept
        } else {
            Verdict::Reject
        }
    }

    /// Decides on a commit with the repository's answers at hand: for a root
    /// the answer for its tree, for another commit one answer for each parent.
    /// An answer that is not there counts as a failure.
    pub fn evaluate(&self, commit: &CommitRecord, answers: &Vec<Result<bool, DiffError>>) -> (b: bool)
        ensures
            b == self.matches(commit, answers@),
    {
        let mut verdict: Verdict = self.begin(commit);
        proof {
            self.lemma_steps_decide(commit, answers@);
        }
        loop
            invariant
                self.settle(commit, answers@, verdict) == self.matches(commit, answers@),
                verdict matches Verdict::Ask(Probe::ParentDiff(i)) ==> i < commit.parent_ids.len(),
            decreases
                    match verdict {
                        Verdict::Ask(Probe::ParentDiff(i)) => commit.parent_ids.len() - i + 1,
                        Verdict::Ask(Probe::RootTree) => 1,
                        _ => 0,
                    },
        {
            match verdict {
                Verdict::Accept => {
                    return true;
                },
                Verdict::Reject => {
                    return false;
                },
                Verdict::Ask(probe) => {
                    let at: usize = match probe {
                        Probe::RootTree => 0,
                        Probe::ParentDiff(i) => i,
                    };
                    let failed: Result<bool, DiffError> = Err(
                        DiffError::Diff(CommitId { high: 0, low: 0 }),
                    );
                    let answer: &Result<bool, DiffError> = if at < answers.len() {
                        &answers[at]
                    } else {
                        &failed
                    };
                    assert(*answer == answer_at(answers@, at as int));
                    verdict = self.resume(commit, probe, answer);
                },
            }
        }
    }

    /// Asking one question after the other, and answering each from
    /// `answers`, ends in keeping the commit exactly when the filter as a
    /// whole keeps it.
    pub proof fn lemma_steps_decide(
        &self,
        commit: &CommitRecord,
        answers: Seq<Result<bool, DiffError>>,
    )
        ensures
            self.settle(commit, answers, self.first_verdict(commit)) == self.matches(
                commit,
                answers,
            ),
    {
        if self.within_bounds(commit) && self.path_patterns@.len() > 0 && commit.parent_ids.len()
            > 0 {
            self.lemma_settle_parents(commit, answers, 0);
        }
    }

    /// From the question about parent `i` on, the exchange ends in keeping
    /// the commit exactly when every remaining answer touches the paths and
    /// the texts pass.
    proof fn lemma_settle_parents(
        &self,
        commit: &CommitRecord,
        answers: Seq<Result<bool, DiffError>>,
        i: usize,
    )
        requires
            i < commit.parent_ids.len(),
        ensures
            self.settle(commit, answers, Verdict::Ask(Probe::ParentDiff(i))) == (self.text_matches(
                commit,
            ) && forall|j: int|
                i <= j < commit.parent_ids.len() ==> touches(#[trigger] answer_at(answers, j))),
        decreases commit.parent_ids.len() - i,
    {
        if i + 1 < commit.parent_ids.len() {
            self.lemma_settle_parents(commit, answers, (i + 1) as usize);
        }
    }
}

/// Whether the signature holds `wanted` in its name or in its address.
pub fn signature_passes(sig: &Signature, wanted: &Option<String>) -> (b: bool)
    ensures
        b == signature_matches(*sig, *wanted),
{
    match wanted {
        None => true,
        Some(w) => {
            let in_name: bool = match &sig.name {
                Some(n) => contains(n.as_str(), w.as_str()),
                None => false,
            };
            if in_name {
                return true;
            }
            match &sig.email {
                Some(e) => contains(e.as_str(), w.as_str()),
                None => false,
            }
        },
    }
}

/// Whether the message holds `wanted`.
pub fn message_passes(message: &Option<String>, wanted: &Option<String>) -> (b: bool)
    ensures
        b == message_matches(*message, *wanted),
{
    match wanted {
        None => true,
        Some(w) => match message {
            Some(m) => contains(m.as_str(), w.as_str()),
            None => false,
        },
    }
}

} // verus!
