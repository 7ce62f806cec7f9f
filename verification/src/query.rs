//! The whole query: walk, filter, page.

use crate::commit::{CommitId, CommitRecord};
use crate::error::{DiffError, GraphError};
use crate::filter::FilterSpec;
use crate::graph::{holds, place, CommitGraph};
use crate::page::{lemma_page_within, page_of, paginate, skip_or_none};
use crate::reach::{complete, reaches};
use crate::resolve::RevisionSet;
use crate::walk::{acyclic_selection, is_walk, own_ancestor, selected, walk, SortMode};
use vstd::prelude::*;

verus! {

/// How a query walks and pages.
#[derive(Clone, Copy, Debug, PartialEq, Eq, Structural)]
pub struct WalkConfig {
    /// The order of the walk.
    pub order: SortMode,
    /// Whether the walk is read backwards.
    pub reversed: bool,
    /// How many kept commits are left out at the start; none where absent.
    pub skip: Option<usize>,
    /// How many kept commits are handed out at most; any number where absent.
    pub limit: Option<usize>,
}

impl WalkConfig {
    /// The configuration of a plain query: no order asked for, not reversed,
    /// nothing skipped, no limit.
    pub fn new() -> (config: WalkConfig)
        ensures
            config == (WalkConfig {
                order: SortMode::Unordered,
                reversed: false,
                skip: None,
                limit: None,
            }),
    {
        WalkConfig { order: SortMode::Unordered, reversed: false, skip: None, limit: None }
    }
}

/// The repository's answers for the record at the place `i`: none where the
/// table does not reach that far.
pub open spec fn answers_for(table: Seq<Vec<Result<bool, DiffError>>>, i: int) -> Seq<
    Result<bool, DiffError>,
> {
    if 0 <= i < table.len() {
        table[i]@
    } else {
        Seq::empty()
    }
}

/// The filter keeps the commit `id`: the graph holds it, and its record
/// passes with the answers that the table has for its place.
pub open spec fn keeps(
    records: Seq<CommitRecord>,
    filter: &FilterSpec,
    table: Seq<Vec<Result<bool, DiffError>>>,
    id: CommitId,
) -> bool {
    holds(records, id) && filter.matches(
        &records[place(records, id)],
        answers_for(table, place(records, id)),
    )
}

/// The commits of `ids` that the filter keeps, in their order.
pub open spec fn kept(
    records: Seq<CommitRecord>,
    filter: &FilterSpec,
    table: Seq<Vec<Result<bool, DiffError>>>,
    ids: Seq<CommitId>,
) -> Seq<CommitId>
    decreases ids.len(),
{
    if ids.len() == 0 {
        Seq::empty()
    } else {
        let rest = kept(records, filter, table, ids.drop_last());
        if keeps(records, filter, table, ids.last()) {
            rest.push(ids.last())
        } else {
            rest
        }
    }
}

/// What is kept was there, and the filter keeps it.
pub proof fn lemma_kept_pass(
    records: Seq<CommitRecord>,
    filter: &FilterSpec,
    table: Seq<Vec<Result<bool, DiffError>>>,
    ids: Seq<CommitId>,
)
    ensures
        kept(records, filter, table, ids).len() <= ids.len(),
        forall|i: int|
            0 <= i < kept(records, filter, table, ids).len() ==> {
                let c = #[trigger] kept(records, filter, table, ids)[i];
                ids.contains(c) && keeps(records, filter, table, c)
            },
    decreases ids.len(),
{
    if ids.len() > 0 {
        lemma_kept_pass(records, filter, table, ids.drop_last());
        let rest = kept(records, filter, table, ids.drop_last());
        assert forall|i: int| 0 <= i < kept(records, filter, table, ids).len() implies {
            let c = #[trigger] kept(records, filter, table, ids)[i];
            ids.contains(c) && keeps(records, filter, table, c)
        } by {
            let c = kept(records, filter, table, ids)[i];
            if i < rest.len() {
                assert(rest[i] == c);
                let a = choose|a: int| 0 <= a < ids.drop_last().len() && ids.drop_last()[a] == c;
                assert(ids[a] == c);
            } else {
                assert(ids[ids.len() - 1] == c);
            }
        }
    }
}

/// Paging comes after filtering: a page of the kept commits holds only
/// commits that the filter keeps, and what it leaves out or stops at is
/// counted in kept commits alone.
pub proof fn lemma_page_holds_kept_only(
    records: Seq<CommitRecord>,
    filter: &FilterSpec,
    table: Seq<Vec<Result<bool, DiffError>>>,
    ids: Seq<CommitId>,
    skip: nat,
    limit: Option<usize>,
)
    ensures
        forall|i: int|
            0 <= i < page_of(kept(records, filter, table, ids), skip, limit).len() ==> {
                let c = #[trigger] page_of(kept(records, filter, table, ids), skip, limit)[i];
                &&& keeps(records, filter, table, c)
                &&& skip + i < kept(records, filter, table, ids).len()
                &&& c == kept(records, filter, table, ids)[skip + i]
            },
{
    let all = kept(records, filter, table, ids);
    lemma_kept_pass(records, filter, table, ids);
    lemma_page_within(all, skip, limit);
    assert forall|i: int| 0 <= i < page_of(all, skip, limit).len() implies {
        let c = #[trigger] page_of(all, skip, limit)[i];
        &&& keeps(records, filter, table, c)
        &&& skip + i < all.len()
        &&& c == all[skip + i]
    } by {
        let c = page_of(all, skip, limit)[i];
        assert(c == all[skip + i]);
    }
}

/// The commits of `ids` that the filter keeps, in their order. `table` holds,
/// for the place of each record in the graph, the repository's answers about
/// the paths that the commit touches.
pub fn keep(
    graph: &CommitGraph,
    filter: &FilterSpec,
    table: &Vec<Vec<Result<bool, DiffError>>>,
    ids: &Vec<CommitId>,
) -> (out: Vec<CommitId>)
    requires
        graph.wf(),
    ensures
        out@ == kept(graph@, filter, table@, ids@),
{
    let none: Vec<Result<bool, DiffError>> = Vec::new();
    let mut out: Vec<CommitId> = Vec::new();
    let n: usize = ids.len();
    let mut i: usize = 0;
    while i < n
        invariant
            graph.wf(),
            n == ids@.len(),
            i <= n,
            none@.len() == 0,
            out@ == kept(graph@, filter, table@, ids@.subrange(0, i as int)),
        decreases n - i,
    {
        let id: CommitId = ids[i];
        let passes: bool = match graph.position(id) {
            None => false,
            Some(p) => {
                let answers: &Vec<Result<bool, DiffError>> = if p < table.len() {
                    &table[p]
                } else {
                    &none
                };
                assert(answers@ =~= answers_for(table@, p as int));
                filter.evaluate(graph.record_at(p), answers)
            },
        };
        if passes {
            out.push(id);
        }
        i += 1;
        assert(ids@.subrange(0, i as int).drop_last() =~= ids@.subrange(0, i - 1));
    }
    assert(ids@.subrange(0, n as int) =~= ids@);
    out
}

/// Filters `ids`, then pages what is kept.
pub fn select(
    graph: &CommitGraph,
    filter: &FilterSpec,
    table: &Vec<Vec<Result<bool, DiffError>>>,
    ids: &Vec<CommitId>,
    skip: Option<usize>,
    limit: Option<usize>,
) -> (out: Vec<CommitId>)
    requires
        graph.wf(),
    ensures
        out@ == page_of(kept(graph@, filter, table@, ids@), skip_or_none(skip), limit),
{
    let all: Vec<CommitId> = keep(graph, filter, table, ids);
    paginate(&all, skip, limit)
}

/// Runs a query on a graph: walks from `set.push` without what `set.hide`
/// reaches, filters the commits in the order of the walk, and pages what is
/// kept.
pub fn run(
    graph: &CommitGraph,
    set: &RevisionSet,
    config: &WalkConfig,
    filter: &FilterSpec,
    table: &Vec<Vec<Result<bool, DiffError>>>,
) -> (r: Result<Vec<CommitId>, GraphError>)
    requires
        graph.wf(),
    ensures
        match r {
            Ok(out) => {
                &&& complete(graph@, set.push@)
                &&& complete(graph@, set.hide@)
                &&& config.order == SortMode::Topological ==> acyclic_selection(
                    graph@,
                    set.push@,
                    set.hide@,
                )
                &&& exists|seq: Seq<CommitId>|
                    #[trigger] is_walk(
                        graph@,
                        set.push@,
                        set.hide@,
                        config.order,
                        config.reversed,
                        seq,
                    ) && out@ == page_of(
                        kept(graph@, filter, table@, seq),
                        skip_or_none(config.skip),
                        config.limit,
                    )
            },
            Err(GraphError::Missing(id)) => {
                &&& reaches(graph@, set.push@, id) || reaches(graph@, set.hide@, id)
                &&& !graph.contains(id)
            },
            Err(GraphError::Cycle(id)) => {
                &&& config.order == SortMode::Topological
                &&& complete(graph@, set.push@)
                &&& complete(graph@, set.hide@)
                &&& selected(graph@, set.push@, set.hide@, id)
                &&& own_ancestor(graph@, id)
            },
        },
{
    match walk(graph, &set.push, &set.hide, config.order, config.reversed) {
        Ok(seq) => Ok(select(graph, filter, table, &seq, config.skip, config.limit)),
        Err(e) => Err(e),
    }
}

} // verus!
