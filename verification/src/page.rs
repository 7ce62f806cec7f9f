//! Paging: leaving out the first commits that a query kept, and stopping after
//! a number of them.

use crate::commit::CommitId;
use vstd::prelude::*;

verus! {

/// The page of `items` that leaves out the first `skip` and holds at most
/// `limit` of what follows; all of it where there is no limit.
pub open spec fn page_of(items: Seq<CommitId>, skip: nat, limit: Option<usize>) -> Seq<CommitId> {
    let start = if skip <= items.len() {
        skip as int
    } else {
        items.len() as int
    };
    let end = match limit {
        Some(l) => if start + l <= items.len() {
            start + l
        } else {
            items.len() as int
        },
        None => items.len() as int,
    };
    items.subrange(start, end)
}

/// The number to skip where none is given.
pub open spec fn skip_or_none(skip: Option<usize>) -> nat {
    match skip {
        Some(k) => k as nat,
        None => 0,
    }
}

/// The page of `items`: without the first `skip` of them (none where `skip`
/// is absent), and at most `limit` long (unbounded where `limit` is absent).
pub fn paginate(items: &Vec<CommitId>, skip: Option<usize>, limit: Option<usize>) -> (page: Vec<
    CommitId,
>)
    ensures
        page@ == page_of(items@, skip_or_none(skip), limit),
{
    let n: usize = items.len();
    let k: usize = match skip {
        Some(k) => k,
        None => 0,
    };
    let start: usize = if k <= n {
        k
    } else {
        n
    };
    let end: usize = match limit {
        Some(l) => if l <= n - start {
            start + l
        } else {
            n
        },
        None => n,
    };
    let mut page: Vec<CommitId> = Vec::new();
    let mut i: usize = start;
    while i < end
        invariant
            start <= i <= end,
            end <= items@.len(),
            page@ == items@.subrange(start as int, i as int),
        decreases end - i,
    {
        page.push(items[i]);
        i += 1;
        assert(page@ =~= items@.subrange(start as int, i as int));
    }
    page
}

/// What becomes of a kept commit.
#[derive(Clone, Copy, Debug, PartialEq, Eq, Structural)]
pub enum PageStep {
    /// It is one of the first commits, which are left out.
    Skip,
    /// It is handed out.
    Emit,
    /// The page is full: neither this commit nor any later one is handed out.
    Stop,
}

/// Pages a stream of kept commits one by one, so that a consumer can stop
/// asking for commits once the page is full.
#[derive(Clone, Copy, Debug, PartialEq, Eq, Structural)]
pub struct Pager {
    /// How many commits are still to be left out.
    pub to_skip: usize,
    /// How many commits may still be handed out, where there is a limit.
    pub left: Option<usize>,
}

impl Pager {
    /// What becomes of the next kept commit.
    pub open spec fn step(self) -> PageStep {
        if self.left == Some(0usize) {
            PageStep::Stop
        } else if self.to_skip > 0 {
            PageStep::Skip
        } else {
            PageStep::Emit
        }
    }

    /// The pager after the next kept commit.
    pub open spec fn after(self) -> Pager {
        match self.step() {
            PageStep::Stop => self,
            PageStep::Skip => Pager { to_skip: (self.to_skip - 1) as usize, left: self.left },
            PageStep::Emit => Pager {
                to_skip: self.to_skip,
                left: match self.left {
                    Some(l) => Some((l - 1) as usize),
                    None => None,
                },
            },
        }
    }

    /// What the pager hands out of `items`, taken one by one.
    pub open spec fn emitted(self, items: Seq<CommitId>) -> Seq<CommitId>
        decreases items.len(),
    {
        if items.len() == 0 {
            Seq::empty()
        } else {
            match self.step() {
                PageStep::Stop => Seq::empty(),
                PageStep::Skip => self.after().emitted(items.drop_first()),
                PageStep::Emit => seq![items[0]] + self.after().emitted(items.drop_first()),
            }
        }
    }

    /// A pager that leaves out the first `skip` commits (none where `skip` is
    /// absent) and hands out at most `limit` (any number where `limit` is
    /// absent).
    pub fn new(skip: Option<usize>, limit: Option<usize>) -> (pager: Pager)
        ensures
            pager.to_skip == skip_or_none(skip),
            pager.left == limit,
    {
        Pager {
            to_skip: match skip {
                Some(k) => k,
                None => 0,
            },
            left: limit,
        }
    }

    /// Says what becomes of the next kept commit, and counts it.
    pub fn take(&mut self) -> (step: PageStep)
        ensures
            step == old(self).step(),
            *final(self) == old(self).after(),
    {
        match self.left {
            Some(l) => {
                if l == 0 {
                    return PageStep::Stop;
                }
                if self.to_skip > 0 {
                    self.to_skip = self.to_skip - 1;
                    return PageStep::Skip;
                }
                self.left = Some(l - 1);
                PageStep::Emit
            },
            None => {
                if self.to_skip > 0 {
                    self.to_skip = self.to_skip - 1;
                    return PageStep::Skip;
                }
                PageStep::Emit
            },
        }
    }

    /// Taking the commits one by one hands out the same page as cutting it
    /// out of the whole sequence.
    pub proof fn lemma_stream_is_page(self, items: Seq<CommitId>)
        ensures
            self.emitted(items) == page_of(items, self.to_skip as nat, self.left),
        decreases items.len(),
    {
        if items.len() == 0 {
            assert(self.emitted(items) =~= page_of(items, self.to_skip as nat, self.left));
        } else {
            let rest = items.drop_first();
            self.after().lemma_stream_is_page(rest);
            match self.step() {
                PageStep::Stop => {
                    assert(page_of(items, self.to_skip as nat, self.left) =~= Seq::<
                        CommitId,
                    >::empty());
                },
                PageStep::Skip => {
                    assert(page_of(rest, self.after().to_skip as nat, self.after().left)
                        =~= page_of(items, self.to_skip as nat, self.left));
                },
                PageStep::Emit => {
                    assert(seq![items[0]] + page_of(
                        rest,
                        self.after().to_skip as nat,
                        self.after().left,
                    ) =~= page_of(items, self.to_skip as nat, self.left));
                },
            }
        }
    }
}

/// A page holds nothing but what was there to page, in the same order, so no
/// commit that the filter dropped comes back: each item of the page is the
/// item of `items` that stands `skip` places further on.
pub proof fn lemma_page_within(items: Seq<CommitId>, skip: nat, limit: Option<usize>)
    ensures
        page_of(items, skip, limit).len() <= items.len(),
        limit matches Some(l) ==> page_of(items, skip, limit).len() <= l,
        forall|i: int|
            0 <= i < page_of(items, skip, limit).len() ==> skip + i < items.len() && #[trigger] page_of(
                items,
                skip,
                limit,
            )[i] == items[skip + i],
{
}

} // verus!
