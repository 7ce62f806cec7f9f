//! Resolving revision expressions into the commits to start from and the
//! commits to exclude.
//!
//! Only the repository can say what an expression names, so the resolver asks:
//! it names what it needs next, and takes the repository's reply.

use crate::commit::CommitId;
use crate::error::ResolutionError;
use vstd::prelude::*;
use vstd::string::StrSliceExecFns;

verus! {

/// The commits a walk starts from, and the commits whose ancestry it leaves out.
#[derive(Clone, Debug, PartialEq, Eq)]
pub struct RevisionSet {
    pub push: Vec<CommitId>,
    pub hide: Vec<CommitId>,
}

/// What the resolver needs from the repository.
#[derive(Clone, Debug, PartialEq, Eq)]
pub enum Request {
    /// The one commit that this text names: it is to be excluded.
    Single(String),
    /// What this expression names: one commit, or a range.
    Revision(String),
    /// The merge base of these two commits.
    MergeBase(CommitId, CommitId),
    /// The commit at the repository's current head.
    Head,
}

/// What the repository says.
#[derive(Clone, Debug, PartialEq, Eq)]
pub enum Reply {
    /// One commit.
    Commit(CommitId),
    /// A range from one commit to another, and whether the walk is to start
    /// from their merge base as well.
    Range { from: CommitId, to: CommitId, want_merge_base: bool },
    /// The repository could not answer.
    Failed(ResolutionError),
}

/// What the resolver waits for.
pub enum Wanted {
    Nothing,
    Single(Seq<char>),
    Revision(Seq<char>),
    MergeBase(CommitId, CommitId),
    Head,
}

/// The expression excludes: it begins with `^`.
pub open spec fn is_exclusion(expr: Seq<char>) -> bool {
    expr.len() > 0 && expr[0] == '^'
}

/// The resolver as a value: the expressions, how many of them are resolved,
/// and what was found so far.
pub struct ResolverState {
    pub exprs: Seq<Seq<char>>,
    pub at: nat,
    pub base: Option<(CommitId, CommitId)>,
    pub head_done: bool,
    pub push: Seq<CommitId>,
    pub hide: Seq<CommitId>,
}

impl ResolverState {
    /// What the resolver waits for: first the merge base of the last range,
    /// then the next expression, and the head where no expression was given.
    pub open spec fn wanted(self) -> Wanted {
        if let Some((from, to)) = self.base {
            Wanted::MergeBase(from, to)
        } else if self.at < self.exprs.len() {
            let expr = self.exprs[self.at as int];
            if is_exclusion(expr) {
                Wanted::Single(expr.subrange(1, expr.len() as int))
            } else {
                Wanted::Revision(expr)
            }
        } else if self.exprs.len() == 0 && !self.head_done {
            Wanted::Head
        } else {
            Wanted::Nothing
        }
    }

    /// The state after a reply, or the error that ends the resolution.
    ///
    /// An excluded commit goes to `hide`. A single commit goes to `push`. Of a
    /// range the end goes to `push` and the start to `hide`, and the merge base
    /// of the two is asked for where the range wants it; it goes to `push`. The
    /// head goes to `push`. A failure ends the resolution with its error, and
    /// so does a reply that does not fit what was asked.
    pub open spec fn step(self, reply: Reply) -> Result<ResolverState, ResolutionError> {
        match reply {
            Reply::Failed(e) => Err(e),
            Reply::Commit(id) => match self.wanted() {
                Wanted::Nothing => Err(ResolutionError::OutOfTurn),
                Wanted::MergeBase(_, _) => Ok(
                    ResolverState { base: None, push: self.push.push(id), ..self },
                ),
                Wanted::Single(_) => Ok(
                    ResolverState { at: self.at + 1, hide: self.hide.push(id), ..self },
                ),
                Wanted::Revision(_) => Ok(
                    ResolverState { at: self.at + 1, push: self.push.push(id), ..self },
                ),
                Wanted::Head => Ok(
                    ResolverState { head_done: true, push: self.push.push(id), ..self },
                ),
            },
            Reply::Range { from, to, want_merge_base } => match self.wanted() {
                Wanted::Revision(_) => Ok(
                    ResolverState {
                        at: self.at + 1,
                        push: self.push.push(to),
                        hide: self.hide.push(from),
                        base: if want_merge_base {
                            Some((from, to))
                        } else {
                            None
                        },
                        ..self
                    },
                ),
                _ => Err(ResolutionError::OutOfTurn),
            },
        }
    }
}

/// Resolves a list of revision expressions, one question to the repository
/// at a time.
pub struct Resolver {
    exprs: Vec<String>,
    at: usize,
    base: Option<(CommitId, CommitId)>,
    head_done: bool,
    set: RevisionSet,
}

impl View for Resolver {
    type V = ResolverState;

    closed spec fn view(&self) -> ResolverState {
        ResolverState {
            exprs: Seq::new(self.exprs@.len(), |i: int| self.exprs@[i]@),
            at: self.at as nat,
            base: self.base,
            head_done: self.head_done,
            push: self.set.push@,
            hide: self.set.hide@,
        }
    }
}

impl Resolver {
    /// The resolver never counts past the expressions.
    pub closed spec fn wf(&self) -> bool {
        self.at <= self.exprs@.len()
    }

    /// A resolver for these expressions, with nothing resolved yet.
    pub fn new(exprs: Vec<String>) -> (resolver: Resolver)
        ensures
            resolver.wf(),
            resolver@.exprs.len() == exprs@.len(),
            forall|i: int| 0 <= i < exprs@.len() ==> #[trigger] resolver@.exprs[i] == exprs@[i]@,
            resolver@.at == 0,
            resolver@.base is None,
            !resolver@.head_done,
            resolver@.push.len() == 0,
            resolver@.hide.len() == 0,
    {
        Resolver {
            exprs,
            at: 0,
            base: None,
            head_done: false,
            set: RevisionSet { push: Vec::new(), hide: Vec::new() },
        }
    }

    /// What the resolver needs next, or `None` when all is resolved.
    pub fn pending(&self) -> (r: Option<Request>)
        requires
            self.wf(),
        ensures
            match r {
                None => self@.wanted() is Nothing,
                Some(Request::Single(text)) => self@.wanted() == Wanted::Single(text@),
                Some(Request::Revision(text)) => self@.wanted() == Wanted::Revision(text@),
                Some(Request::MergeBase(from, to)) => self@.wanted() == Wanted::MergeBase(from, to),
                Some(Request::Head) => self@.wanted() is Head,
            },
    {
        if let Some((from, to)) = self.base {
            return Some(Request::MergeBase(from, to));
        }
        if self.at < self.exprs.len() {
            let expr: &str = self.exprs[self.at].as_str();
            let n: usize = expr.unicode_len();
            if n > 0 && expr.get_char(0) == '^' {
                let rest: String = expr.substring_char(1, n).to_owned();
                Some(Request::Single(rest))
            } else {
                Some(Request::Revision(expr.to_owned()))
            }
        } else if self.exprs.len() == 0 && !self.head_done {
            Some(Request::Head)
        } else {
            None
        }
    }

    /// Takes the repository's reply to what was pending.
    ///
    /// On an error the resolver is gone, and with it what was found so far.
    pub fn supply(self, reply: Reply) -> (r: Result<Resolver, ResolutionError>)
        requires
            self.wf(),
        ensures
            match r {
                Ok(next) => next.wf() && self@.step(reply) == Ok::<
                    ResolverState,
                    ResolutionError,
                >(next@),
                Err(e) => self@.step(reply) == Err::<ResolverState, ResolutionError>(e),
            },
    {
        let Resolver { exprs, at, base, head_done, set } = self;
        let RevisionSet { push: mut starts, hide: mut excluded } = set;
        let asks_expr: bool = base.is_none() && at < exprs.len();
        let excludes: bool = if asks_expr {
            let expr: &str = exprs[at].as_str();
            expr.unicode_len() > 0 && expr.get_char(0) == '^'
        } else {
            false
        };
        let asks_head: bool = base.is_none() && !asks_expr && exprs.len() == 0 && !head_done;
        match reply {
            Reply::Failed(e) => Err(e),
            Reply::Commit(id) => {
                if base.is_some() {
                    starts.push(id);
                    let next = Resolver {
                        exprs,
                        at,
                        base: None,
                        head_done,
                        set: RevisionSet { push: starts, hide: excluded },
                    };
                    assert(next@ =~= self@.step(reply)->Ok_0);
                    Ok(next)
                } else if asks_expr {
                    if excludes {
                        excluded.push(id);
                    } else {
                        starts.push(id);
                    }
                    let next = Resolver {
                        exprs,
                        at: at + 1,
                        base,
                        head_done,
                        set: RevisionSet { push: starts, hide: excluded },
                    };
                    assert(next@ =~= self@.step(reply)->Ok_0);
                    Ok(next)
                } else if asks_head {
                    starts.push(id);
                    let next = Resolver {
                        exprs,
                        at,
                        base,
                        head_done: true,
                        set: RevisionSet { push: starts, hide: excluded },
                    };
                    assert(next@ =~= self@.step(reply)->Ok_0);
                    Ok(next)
                } else {
                    Err(ResolutionError::OutOfTurn)
                }
            },
            Reply::Range { from, to, want_merge_base } => {
                if asks_expr && !excludes {
                    starts.push(to);
                    excluded.push(from);
                    let next = Resolver {
                        exprs,
                        at: at + 1,
                        base: if want_merge_base {
                            Some((from, to))
                        } else {
                            None
                        },
                        head_done,
                        set: RevisionSet { push: starts, hide: excluded },
                    };
                    assert(next@ =~= self@.step(reply)->Ok_0);
                    Ok(next)
                } else {
                    Err(ResolutionError::OutOfTurn)
                }
            },
        }
    }

    /// The commits to start from and the commits to exclude, once nothing is
    /// pending; `None` while the resolver still waits for a reply.
    pub fn finish(self) -> (r: Option<RevisionSet>)
        requires
            self.wf(),
        ensures
            match r {
                Some(set) => self@.wanted() is Nothing && set.push@ == self@.push && set.hide@
                    == self@.hide,
                None => !(self@.wanted() is Nothing),
            },
    {
        let done: bool = self.base.is_none() && self.at >= self.exprs.len() && !(self.exprs.len()
            == 0 && !self.head_done);
        if done {
            Some(self.set)
        } else {
            None
        }
    }
}

} // verus!
