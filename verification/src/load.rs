//! Filling the graph from the repository, one commit at a time.
//!
//! The loader names the commit it needs next; the caller fetches it and hands
//! it over. When the loader needs nothing more, the graph holds every commit
//! that the starting points and the excluded points reach.

use crate::commit::{CommitId, CommitRecord};
use crate::graph::{holds, links, CommitGraph};
use crate::reach::{
    chain_to, complete, is_chain, lemma_parent_reaches, lemma_root_reaches, reached_at, reaches,
    step_links,
};
use crate::resolve::RevisionSet;
use vstd::prelude::*;

verus! {

/// The id has a record, or waits to be fetched.
pub open spec fn known(records: Seq<CommitRecord>, waiting: Seq<CommitId>, id: CommitId) -> bool {
    holds(records, id) || waiting.contains(id)
}

/// Every root is known, and so is every parent that a record names.
pub open spec fn covered(
    records: Seq<CommitRecord>,
    waiting: Seq<CommitId>,
    roots: Seq<CommitId>,
) -> bool {
    &&& forall|r: int| 0 <= r < roots.len() ==> known(records, waiting, #[trigger] roots[r])
    &&& forall|i: int, s: int|
        0 <= i < records.len() && 0 <= s < records[i].parent_ids@.len() ==> known(
            records,
            waiting,
            #[trigger] records[i].parent_ids@[s],
        )
}

/// Where nothing waits, the graph holds every id on a chain from a root.
proof fn lemma_covered_chain(
    records: Seq<CommitRecord>,
    roots: Seq<CommitId>,
    p: Seq<CommitId>,
    j: int,
)
    requires
        covered(records, Seq::<CommitId>::empty(), roots),
        is_chain(records, p),
        roots.contains(p[0]),
        0 <= j < p.len(),
    ensures
        holds(records, p[j]),
    decreases j,
{
    if j == 0 {
        let r = choose|r: int| 0 <= r < roots.len() && roots[r] == p[0];
        assert(known(records, Seq::<CommitId>::empty(), roots[r]));
    } else {
        lemma_covered_chain(records, roots, p, j - 1);
        assert(step_links(records, p, j - 1));
        let (i, s) = choose|i: int, s: int|
            0 <= i < records.len() && 0 <= s < records[i].parent_ids@.len()
                && #[trigger] records[i].id == p[j - 1] && #[trigger] records[i].parent_ids@[s]
                == p[j];
        assert(known(records, Seq::<CommitId>::empty(), records[i].parent_ids@[s]));
    }
}

/// Where nothing waits, the graph is complete for the roots.
proof fn lemma_covered_is_complete(records: Seq<CommitRecord>, roots: Seq<CommitId>)
    requires
        covered(records, Seq::<CommitId>::empty(), roots),
    ensures
        complete(records, roots),
{
    assert forall|c: CommitId| #[trigger] reaches(records, roots, c) implies holds(records, c) by {
        let p = choose|p: Seq<CommitId>| #[trigger] chain_to(records, roots, p, c);
        lemma_covered_chain(records, roots, p, p.len() - 1);
    }
}

/// The roots reach every id that waits and every record that is loaded.
pub open spec fn needed(
    records: Seq<CommitRecord>,
    waiting: Seq<CommitId>,
    roots: Seq<CommitId>,
) -> bool {
    &&& forall|a: int| 0 <= a < waiting.len() ==> reaches(records, roots, #[trigger] waiting[a])
    &&& forall|i: int| 0 <= i < records.len() ==> #[trigger] reached_at(records, roots, i)
}

/// What the roots reach they still reach when the graph has a record more.
proof fn lemma_reach_grows(
    records: Seq<CommitRecord>,
    record: CommitRecord,
    roots: Seq<CommitId>,
    c: CommitId,
)
    requires
        reaches(records, roots, c),
    ensures
        reaches(records.push(record), roots, c),
{
    let more = records.push(record);
    let p = choose|p: Seq<CommitId>| #[trigger] chain_to(records, roots, p, c);
    assert forall|j: int| 0 <= j < p.len() - 1 implies #[trigger] step_links(more, p, j) by {
        assert(step_links(records, p, j));
        let (i, k) = choose|i: int, k: int|
            0 <= i < records.len() && 0 <= k < records[i].parent_ids@.len()
                && #[trigger] records[i].id == p[j] && #[trigger] records[i].parent_ids@[k] == p[j
                + 1];
        assert(more[i].id == p[j] && more[i].parent_ids@[k] == p[j + 1]);
    }
    assert(chain_to(more, roots, p, c));
}

/// Collects the commits that a walk will need.
pub struct Loader {
    graph: CommitGraph,
    waiting: Vec<CommitId>,
    roots: Vec<CommitId>,
}

impl Loader {
    /// The records loaded so far.
    pub closed spec fn records(&self) -> Seq<CommitRecord> {
        self.graph@
    }

    /// The ids that wait to be fetched, the next one last.
    pub closed spec fn waiting(&self) -> Seq<CommitId> {
        self.waiting@
    }

    /// The ids that the loading started from.
    pub closed spec fn roots(&self) -> Seq<CommitId> {
        self.roots@
    }

    /// The invariant of the loader: whatever the roots and the loaded records
    /// name is loaded or waits.
    pub closed spec fn wf(&self) -> bool {
        &&& self.graph.wf()
        &&& covered(self.graph@, self.waiting@, self.roots@)
        &&& needed(self.graph@, self.waiting@, self.roots@)
    }

    /// The loader holds and asks for nothing but what its roots reach.
    pub proof fn lemma_nothing_idle(&self)
        requires
            self.wf(),
        ensures
            needed(self.records(), self.waiting(), self.roots()),
    {
    }

    /// A loader for the walk from `set.push` that leaves out what `set.hide`
    /// reaches: both kinds of points are to be loaded with their ancestors.
    pub fn new(set: &RevisionSet) -> (loader: Loader)
        ensures
            loader.wf(),
            loader.records().len() == 0,
            loader.roots() == set.push@ + set.hide@,
            loader.waiting() == set.push@ + set.hide@,
    {
        let mut roots: Vec<CommitId> = Vec::new();
        let mut waiting: Vec<CommitId> = Vec::new();
        let mut i: usize = 0;
        while i < set.push.len()
            invariant
                i <= set.push@.len(),
                roots@ == set.push@.subrange(0, i as int),
                waiting@ == roots@,
            decreases set.push@.len() - i,
        {
            roots.push(set.push[i]);
            waiting.push(set.push[i]);
            i += 1;
            assert(roots@ =~= set.push@.subrange(0, i as int));
        }
        assert(set.push@.subrange(0, i as int) =~= set.push@);
        let mut j: usize = 0;
        while j < set.hide.len()
            invariant
                j <= set.hide@.len(),
                roots@ == set.push@ + set.hide@.subrange(0, j as int),
                waiting@ == roots@,
            decreases set.hide@.len() - j,
        {
            roots.push(set.hide[j]);
            waiting.push(set.hide[j]);
            j += 1;
            assert(roots@ =~= set.push@ + set.hide@.subrange(0, j as int));
        }
        assert(set.hide@.subrange(0, j as int) =~= set.hide@);
        let loader = Loader { graph: CommitGraph::new(), waiting, roots };
        assert forall|r: int| 0 <= r < loader.roots@.len() implies known(
            loader.graph@,
            loader.waiting@,
            #[trigger] loader.roots@[r],
        ) by {
            assert(loader.waiting@[r] == loader.roots@[r]);
        }
        assert forall|a: int| 0 <= a < loader.waiting@.len() implies reaches(
            loader.graph@,
            loader.roots@,
            #[trigger] loader.waiting@[a],
        ) by {
            lemma_root_reaches(loader.graph@, loader.roots@, a);
        }
        loader
    }

    /// The id of the commit to fetch next, or `None` when the graph holds all
    /// that the roots reach.
    pub fn next_wanted(&mut self) -> (r: Option<CommitId>)
        requires
            old(self).wf(),
        ensures
            final(self).wf(),
            final(self).records() == old(self).records(),
            final(self).roots() == old(self).roots(),
            match r {
                Some(id) => {
                    &&& !holds(final(self).records(), id)
                    &&& reaches(final(self).records(), final(self).roots(), id)
                    &&& final(self).waiting().len() > 0
                    &&& final(self).waiting().last() == id
                },
                None => {
                    &&& final(self).waiting().len() == 0
                    &&& complete(final(self).records(), final(self).roots())
                },
            },
    {
        while self.waiting.len() > 0
            invariant
                self.wf(),
                self.graph@ == old(self).graph@,
                self.roots@ == old(self).roots@,
            decreases self.waiting@.len(),
        {
            let id: CommitId = self.waiting[self.waiting.len() - 1];
            match self.graph.position(id) {
                None => {
                    return Some(id);
                },
                Some(_) => {
                    let ghost before = self.waiting@;
                    self.waiting.pop();
                    proof {
                        lemma_drop_known(self.graph@, before, self.roots@);
                        assert forall|a: int| 0 <= a < self.waiting@.len() implies reaches(
                            self.graph@,
                            self.roots@,
                            #[trigger] self.waiting@[a],
                        ) by {
                            assert(self.waiting@[a] == before[a]);
                        }
                    }
                },
            }
        }
        proof {
            assert(self.waiting@ =~= Seq::<CommitId>::empty());
            lemma_covered_is_complete(self.graph@, self.roots@);
        }
        None
    }

    /// Takes the commit that was asked for last. Its parents wait from now on.
    ///
    /// Returns whether the record was added: a record that was not asked for,
    /// or whose id has a record already, is dropped.
    pub fn supply(&mut self, record: CommitRecord) -> (added: bool)
        requires
            old(self).wf(),
        ensures
            final(self).wf(),
            final(self).roots() == old(self).roots(),
            added == (old(self).waiting().len() > 0 && old(self).waiting().last() == record.id
                && !holds(old(self).records(), record.id)),
            added ==> final(self).records() == old(self).records().push(record),
            !added ==> final(self).records() == old(self).records() && final(self).waiting()
                == old(self).waiting(),
    {
        let asked: bool = self.waiting.len() > 0 && self.waiting[self.waiting.len() - 1]
            == record.id;
        if !asked || self.graph.position(record.id).is_some() {
            return false;
        }
        let ghost waiting0 = self.waiting@;
        let ghost records0 = self.graph@;
        let n: usize = record.parent_ids.len();
        let mut s: usize = 0;
        while s < n
            invariant
                n == record.parent_ids@.len(),
                s <= n,
                self.graph.wf(),
                self.graph@ == records0,
                self.roots@ == old(self).roots@,
                covered(records0, self.waiting@, self.roots@),
                self.waiting@ == waiting0 + record.parent_ids@.subrange(0, s as int),
            decreases n - s,
        {
            let ghost before = self.waiting@;
            self.waiting.push(record.parent_ids[s]);
            proof {
                lemma_push_known(records0, before, self.roots@, record.parent_ids@[s as int]);
                assert(self.waiting@ =~= waiting0 + record.parent_ids@.subrange(0, s + 1));
            }
            s += 1;
        }
        let ghost parents = record.parent_ids@;
        let ghost id = record.id;
        let added: bool = self.graph.insert(record);
        proof {
            let after = self.graph@;
            let roots = self.roots@;
            assert(parents.subrange(0, n as int) =~= parents);
            assert(after[records0.len() as int].id == id);
            assert(after[records0.len() as int].parent_ids@ == parents);
            assert forall|r: int| 0 <= r < roots.len() implies known(
                after,
                self.waiting@,
                #[trigger] roots[r],
            ) by {
                assert(known(records0, self.waiting@, roots[r]));
                if holds(records0, roots[r]) {
                    lemma_push_holds(records0, record, roots[r]);
                }
            }
            assert forall|i: int, t: int|
                0 <= i < after.len() && 0 <= t < after[i].parent_ids@.len() implies known(
                after,
                self.waiting@,
                #[trigger] after[i].parent_ids@[t],
            ) by {
                if i < records0.len() {
                    assert(known(records0, self.waiting@, records0[i].parent_ids@[t]));
                    if holds(records0, records0[i].parent_ids@[t]) {
                        lemma_push_holds(records0, record, records0[i].parent_ids@[t]);
                    }
                } else {
                    assert(self.waiting@[waiting0.len() + t] == parents[t]);
                }
            }
            assert(reaches(records0, roots, waiting0[waiting0.len() - 1]));
            lemma_reach_grows(records0, record, roots, id);
            assert forall|a: int| 0 <= a < self.waiting@.len() implies reaches(
                after,
                roots,
                #[trigger] self.waiting@[a],
            ) by {
                if a < waiting0.len() {
                    assert(reaches(records0, roots, waiting0[a]));
                    lemma_reach_grows(records0, record, roots, waiting0[a]);
                } else {
                    let t = a - waiting0.len();
                    assert(self.waiting@[a] == parents[t]);
                    assert(links(after, id, parents[t]));
                    lemma_parent_reaches(after, roots, id, parents[t]);
                }
            }
            assert forall|i: int| 0 <= i < after.len() implies #[trigger] reached_at(
                after,
                roots,
                i,
            ) by {
                if i < records0.len() {
                    assert(reached_at(records0, roots, i));
                    lemma_reach_grows(records0, record, roots, records0[i].id);
                }
            }
        }
        added
    }

    /// The graph as loaded so far. Once `next_wanted` has returned `None` it
    /// holds all that the starting points and the excluded points reach.
    pub fn into_graph(self) -> (graph: CommitGraph)
        requires
            self.wf(),
        ensures
            graph.wf(),
            graph@ == self.records(),
    {
        self.graph
    }
}

/// A record more keeps what was held.
proof fn lemma_push_holds(records: Seq<CommitRecord>, record: CommitRecord, id: CommitId)
    requires
        holds(records, id),
    ensures
        holds(records.push(record), id),
{
    let i = choose|i: int| 0 <= i < records.len() && #[trigger] records[i].id == id;
    assert(records.push(record)[i].id == id);
}

/// An id more on the waiting list keeps everything known.
proof fn lemma_push_known(
    records: Seq<CommitRecord>,
    waiting: Seq<CommitId>,
    roots: Seq<CommitId>,
    id: CommitId,
)
    requires
        covered(records, waiting, roots),
    ensures
        covered(records, waiting.push(id), roots),
{
    let more = waiting.push(id);
    assert forall|x: CommitId| waiting.contains(x) implies more.contains(x) by {
        let a = choose|a: int| 0 <= a < waiting.len() && waiting[a] == x;
        assert(more[a] == x);
    }
    assert forall|r: int| 0 <= r < roots.len() implies known(records, more, #[trigger] roots[r]) by {
        assert(known(records, waiting, roots[r]));
    }
    assert forall|i: int, s: int|
        0 <= i < records.len() && 0 <= s < records[i].parent_ids@.len() implies known(
        records,
        more,
        #[trigger] records[i].parent_ids@[s],
    ) by {
        assert(known(records, waiting, records[i].parent_ids@[s]));
    }
}

/// Taking an id that has a record off the waiting list keeps everything known.
proof fn lemma_drop_known(records: Seq<CommitRecord>, waiting: Seq<CommitId>, roots: Seq<CommitId>)
    requires
        covered(records, waiting, roots),
        waiting.len() > 0,
        holds(records, waiting.last()),
    ensures
        covered(records, waiting.drop_last(), roots),
{
    let less = waiting.drop_last();
    assert forall|x: CommitId| known(records, waiting, x) implies known(records, less, x) by {
        if !holds(records, x) {
            let a = choose|a: int| 0 <= a < waiting.len() && waiting[a] == x;
            assert(less[a] == x);
        }
    }
    assert forall|r: int| 0 <= r < roots.len() implies known(records, less, #[trigger] roots[r]) by {
        assert(known(records, waiting, roots[r]));
    }
    assert forall|i: int, s: int|
        0 <= i < records.len() && 0 <= s < records[i].parent_ids@.len() implies known(
        records,
        less,
        #[trigger] records[i].parent_ids@[s],
    ) by {
        assert(known(records, waiting, records[i].parent_ids@[s]));
    }
}

} // verus!
