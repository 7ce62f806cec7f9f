//! The graph walk: which commits a query selects, and in what order they come.

use crate::commit::{CommitId, CommitRecord};
use crate::error::GraphError;
use crate::graph::{distinct_ids, holds, links, place, CommitGraph};
use crate::reach::{
    chain_to, complete, is_chain, lemma_parent_reaches, lists_marked, mark_ancestors,
    marks_ancestors, occurs, reached_at, reaches, step_links,
};
use crate::timeline::{comes_first, places, sort_by_time, time_sorted};
use crate::topo::{
    chosen_chain, lemma_place_of_record, names_parent, parents_first, parents_first_order,
    parents_held,
};
use vstd::prelude::*;

verus! {

/// The order in which the walk hands out commits.
#[derive(Clone, Copy, Debug, PartialEq, Eq, Structural)]
pub enum SortMode {
    /// The order in which the walk met the commits.
    Unordered,
    /// The latest commit first; among commits of one time, the smaller id first.
    Time,
    /// Every commit before each of its parents.
    Topological,
}

/// A commit is selected when the graph holds it, the starting points reach it
/// and no excluded point does: excluding a commit excludes all its ancestors.
pub open spec fn selected(
    records: Seq<CommitRecord>,
    push: Seq<CommitId>,
    hide: Seq<CommitId>,
    c: CommitId,
) -> bool {
    holds(records, c) && reaches(records, push, c) && !reaches(records, hide, c)
}

/// In `seq`, every commit stands before each parent it names.
pub open spec fn children_first(records: Seq<CommitRecord>, seq: Seq<CommitId>) -> bool {
    forall|a: int, b: int|
        0 <= a < seq.len() && 0 <= b < seq.len() && links(
            records,
            #[trigger] seq[a],
            #[trigger] seq[b],
        ) ==> a < b
}

/// In `seq`, a commit stands before every commit of an earlier time, and before
/// every commit of the same time with a larger id.
pub open spec fn latest_first(records: Seq<CommitRecord>, seq: Seq<CommitId>) -> bool {
    forall|a: int, b: int|
        0 <= a < b < seq.len() ==> comes_first(
            records,
            place(records, #[trigger] seq[a]),
            place(records, #[trigger] seq[b]),
        )
}

/// `seq` is in the order `mode`.
pub open spec fn in_order(records: Seq<CommitRecord>, mode: SortMode, seq: Seq<CommitId>) -> bool {
    match mode {
        SortMode::Unordered => true,
        SortMode::Time => latest_first(records, seq),
        SortMode::Topological => children_first(records, seq),
    }
}

/// `seq` is what a walk may hand out: every selected commit, each once, in
/// the order `mode`, read backwards where `reversed` is set.
pub open spec fn is_walk(
    records: Seq<CommitRecord>,
    push: Seq<CommitId>,
    hide: Seq<CommitId>,
    mode: SortMode,
    reversed: bool,
    seq: Seq<CommitId>,
) -> bool {
    &&& seq.no_duplicates()
    &&& forall|c: CommitId| seq.contains(c) <==> selected(records, push, hide, c)
    &&& in_order(
        records,
        mode,
        if reversed {
            seq.reverse()
        } else {
            seq
        },
    )
}

/// The commit `c` is its own ancestor: a chain of one parent link or more
/// leads from it back to it.
pub open spec fn own_ancestor(records: Seq<CommitRecord>, c: CommitId) -> bool {
    exists|p: Seq<CommitId>|
        #[trigger] is_chain(records, p) && p.len() >= 2 && p[0] == c && p.last() == c
}

/// No selected commit is its own ancestor.
pub open spec fn acyclic_selection(
    records: Seq<CommitRecord>,
    push: Seq<CommitId>,
    hide: Seq<CommitId>,
) -> bool {
    forall|c: CommitId| #[trigger] selected(records, push, hide, c) ==> !own_ancestor(records, c)
}

/// The place of `c` in `seq`.
pub open spec fn index_in(seq: Seq<CommitId>, c: CommitId) -> int {
    choose|a: int| 0 <= a < seq.len() && seq[a] == c
}

/// Roots that reach the start of a chain reach every id on it.
proof fn lemma_chain_reached(
    records: Seq<CommitRecord>,
    roots: Seq<CommitId>,
    p: Seq<CommitId>,
    j: int,
)
    requires
        is_chain(records, p),
        reaches(records, roots, p[0]),
        0 <= j < p.len(),
    ensures
        reaches(records, roots, p[j]),
    decreases j,
{
    if j > 0 {
        lemma_chain_reached(records, roots, p, j - 1);
        assert(step_links(records, p, j - 1));
        lemma_parent_reaches(records, roots, p[j - 1], p[j]);
    }
}

/// Roots that reach an id on a chain reach the end of the chain.
proof fn lemma_chain_end_reached(
    records: Seq<CommitRecord>,
    roots: Seq<CommitId>,
    p: Seq<CommitId>,
    j: int,
)
    requires
        is_chain(records, p),
        0 <= j < p.len(),
        reaches(records, roots, p[j]),
    ensures
        reaches(records, roots, p.last()),
    decreases p.len() - j,
{
    if j < p.len() - 1 {
        assert(step_links(records, p, j));
        lemma_parent_reaches(records, roots, p[j], p[j + 1]);
        lemma_chain_end_reached(records, roots, p, j + 1);
    }
}

/// Every id on a chain from a selected commit to a selected commit is selected.
proof fn lemma_chain_selected(
    records: Seq<CommitRecord>,
    push: Seq<CommitId>,
    hide: Seq<CommitId>,
    p: Seq<CommitId>,
    j: int,
)
    requires
        is_chain(records, p),
        selected(records, push, hide, p[0]),
        selected(records, push, hide, p.last()),
        0 <= j < p.len(),
    ensures
        selected(records, push, hide, p[j]),
{
    lemma_chain_reached(records, push, p, j);
    if reaches(records, hide, p[j]) {
        lemma_chain_end_reached(records, hide, p, j);
    }
    if j < p.len() - 1 {
        assert(step_links(records, p, j));
        let (i, k) = choose|i: int, k: int|
            0 <= i < records.len() && 0 <= k < records[i].parent_ids@.len()
                && #[trigger] records[i].id == p[j] && #[trigger] records[i].parent_ids@[k] == p[j
                + 1];
        assert(holds(records, p[j]));
    }
}

/// Along a chain between selected commits, a list that puts children first
/// moves to later and later places.
proof fn lemma_chain_moves_on(
    records: Seq<CommitRecord>,
    push: Seq<CommitId>,
    hide: Seq<CommitId>,
    seq: Seq<CommitId>,
    p: Seq<CommitId>,
    j: int,
)
    requires
        forall|c: CommitId| seq.contains(c) <==> selected(records, push, hide, c),
        children_first(records, seq),
        is_chain(records, p),
        selected(records, push, hide, p[0]),
        selected(records, push, hide, p.last()),
        1 <= j < p.len(),
    ensures
        0 <= index_in(seq, p[0]) < index_in(seq, p[j]) < seq.len(),
        seq[index_in(seq, p[j])] == p[j],
    decreases j,
{
    lemma_chain_selected(records, push, hide, p, j);
    lemma_chain_selected(records, push, hide, p, j - 1);
    assert(seq.contains(p[j]));
    assert(seq.contains(p[j - 1]));
    let a = index_in(seq, p[j - 1]);
    let b = index_in(seq, p[j]);
    assert(step_links(records, p, j - 1));
    assert(links(records, seq[a], seq[b]));
    if j > 1 {
        lemma_chain_moves_on(records, push, hide, seq, p, j - 1);
    }
}

/// In a list of the selected commits that puts every commit before its
/// parents, a commit stands before each of its ancestors in the list, however
/// long the chain of parent links between them.
pub proof fn lemma_ancestors_come_later(
    records: Seq<CommitRecord>,
    push: Seq<CommitId>,
    hide: Seq<CommitId>,
    seq: Seq<CommitId>,
    p: Seq<CommitId>,
)
    requires
        forall|c: CommitId| seq.contains(c) <==> selected(records, push, hide, c),
        children_first(records, seq),
        is_chain(records, p),
        p.len() >= 2,
        seq.contains(p[0]),
        seq.contains(p.last()),
    ensures
        0 <= index_in(seq, p[0]) < index_in(seq, p.last()) < seq.len(),
        seq[index_in(seq, p[0])] == p[0],
        seq[index_in(seq, p.last())] == p.last(),
{
    lemma_chain_moves_on(records, push, hide, seq, p, p.len() - 1);
}

/// Where a selected commit is its own ancestor, no list of the selected
/// commits puts every commit before its parents: a walk in topological order
/// succeeds only on a selection without such a commit.
pub proof fn lemma_order_needs_acyclic(
    records: Seq<CommitRecord>,
    push: Seq<CommitId>,
    hide: Seq<CommitId>,
    seq: Seq<CommitId>,
)
    requires
        forall|c: CommitId| seq.contains(c) <==> selected(records, push, hide, c),
        children_first(records, seq),
    ensures
        acyclic_selection(records, push, hide),
{
    assert forall|c: CommitId| #[trigger] selected(records, push, hide, c) implies !own_ancestor(
        records,
        c,
    ) by {
        if own_ancestor(records, c) {
            let p = choose|p: Seq<CommitId>|
                #[trigger] is_chain(records, p) && p.len() >= 2 && p[0] == c && p.last() == c;
            lemma_ancestors_come_later(records, push, hide, seq, p);
        }
    }
}

/// The ids of the records at the places that `s` lists.
pub open spec fn ids_of(records: Seq<CommitRecord>, s: Seq<usize>) -> Seq<CommitId> {
    Seq::new(s.len(), |a: int| records[s[a] as int].id)
}

/// Reversing a list of places keeps it a list of the same places.
proof fn lemma_reverse_places(records: Seq<CommitRecord>, s: Seq<usize>)
    requires
        places(records, s),
    ensures
        places(records, s.reverse()),
        forall|x: usize| s.reverse().contains(x) <==> s.contains(x),
{
    let r = s.reverse();
    assert forall|x: usize| r.contains(x) <==> s.contains(x) by {
        if r.contains(x) {
            let a = choose|a: int| 0 <= a < r.len() && r[a] == x;
            assert(s[s.len() - 1 - a] == x);
        }
        if s.contains(x) {
            let a = choose|a: int| 0 <= a < s.len() && s[a] == x;
            assert(r[s.len() - 1 - a] == x);
        }
    }
}

/// The ids of distinct places are distinct, and they are the ids of the listed records.
proof fn lemma_ids_of_places(records: Seq<CommitRecord>, s: Seq<usize>)
    requires
        distinct_ids(records),
        places(records, s),
    ensures
        ids_of(records, s).no_duplicates(),
        forall|c: CommitId|
            ids_of(records, s).contains(c) <==> holds(records, c) && occurs(s, place(records, c)),
{
    let ids = ids_of(records, s);
    assert forall|a: int, b: int| 0 <= a < ids.len() && 0 <= b < ids.len() && a != b implies ids[a]
        != ids[b] by {
        assert(s[a] != s[b]);
    }
    assert forall|c: CommitId| ids.contains(c) <==> holds(records, c) && occurs(
        s,
        place(records, c),
    ) by {
        if ids.contains(c) {
            let a = choose|a: int| 0 <= a < ids.len() && ids[a] == c;
            lemma_place_of_record(records, s[a] as int);
            assert(s[a] == place(records, c));
        }
        if holds(records, c) && occurs(s, place(records, c)) {
            let a = choose|a: int| 0 <= a < s.len() && (#[trigger] s[a]) == place(records, c);
            assert(ids[a] == c);
        }
    }
}

/// Places in time order give ids in time order.
proof fn lemma_ids_latest_first(records: Seq<CommitRecord>, s: Seq<usize>)
    requires
        distinct_ids(records),
        places(records, s),
        time_sorted(records, s),
    ensures
        latest_first(records, ids_of(records, s)),
{
    let ids = ids_of(records, s);
    assert forall|a: int, b: int| 0 <= a < b < ids.len() implies comes_first(
        records,
        place(records, #[trigger] ids[a]),
        place(records, #[trigger] ids[b]),
    ) by {
        lemma_place_of_record(records, s[a] as int);
        lemma_place_of_record(records, s[b] as int);
    }
}

/// Places listed parents first give, read backwards, ids listed children first.
proof fn lemma_ids_children_first(records: Seq<CommitRecord>, s: Seq<usize>)
    requires
        places(records, s),
        parents_first(records, s),
    ensures
        children_first(records, ids_of(records, s.reverse())),
{
    let r = s.reverse();
    let ids = ids_of(records, r);
    let n = s.len() as int;
    assert forall|a: int, b: int|
        0 <= a < ids.len() && 0 <= b < ids.len() && links(
            records,
            #[trigger] ids[a],
            #[trigger] ids[b],
        ) implies a < b by {
        assert(names_parent(records, s, n - 1 - a, n - 1 - b));
    }
}

/// The ids of a reversed list are the reversed ids of the list.
proof fn lemma_ids_of_reverse(records: Seq<CommitRecord>, s: Seq<usize>)
    ensures
        ids_of(records, s.reverse()) == ids_of(records, s).reverse(),
        ids_of(records, s.reverse()).reverse() == ids_of(records, s),
{
    assert(ids_of(records, s.reverse()) =~= ids_of(records, s).reverse());
    assert(ids_of(records, s).reverse().reverse() =~= ids_of(records, s));
}

/// A sequence read backwards holds the same ids.
proof fn lemma_reverse_ids(seq: Seq<CommitId>)
    ensures
        forall|c: CommitId| seq.reverse().contains(c) <==> seq.contains(c),
{
    let r = seq.reverse();
    assert forall|c: CommitId| r.contains(c) <==> seq.contains(c) by {
        if r.contains(c) {
            let a = choose|a: int| 0 <= a < r.len() && r[a] == c;
            assert(seq[seq.len() - 1 - a] == c);
        }
        if seq.contains(c) {
            let a = choose|a: int| 0 <= a < seq.len() && seq[a] == c;
            assert(r[seq.len() - 1 - a] == c);
        }
    }
}

/// Reading a sequence backwards twice gives the sequence.
pub proof fn lemma_reverse_twice(seq: Seq<CommitId>)
    ensures
        seq.reverse().reverse() == seq,
{
    assert(seq.reverse().reverse() =~= seq);
}

/// A walk read backwards is a walk of the same selection in the same order
/// with the opposite reading.
pub proof fn lemma_walk_backwards(
    records: Seq<CommitRecord>,
    push: Seq<CommitId>,
    hide: Seq<CommitId>,
    mode: SortMode,
    reversed: bool,
    seq: Seq<CommitId>,
)
    requires
        is_walk(records, push, hide, mode, reversed, seq),
    ensures
        is_walk(records, push, hide, mode, !reversed, seq.reverse()),
{
    let back = seq.reverse();
    lemma_reverse_ids(seq);
    lemma_reverse_twice(seq);
    assert forall|a: int, b: int| 0 <= a < back.len() && 0 <= b < back.len() && a != b implies back[a]
        != back[b] by {
        assert(seq[seq.len() - 1 - a] != seq[seq.len() - 1 - b]);
    }
    assert forall|c: CommitId| back.contains(c) <==> selected(records, push, hide, c) by {
        assert(back.contains(c) <==> seq.contains(c));
    }
    assert(back.reverse() == seq);
}

/// With nothing excluded, the selected commits are the starting points and
/// their ancestors that the graph holds.
pub proof fn lemma_selected_without_hide(
    records: Seq<CommitRecord>,
    push: Seq<CommitId>,
    c: CommitId,
)
    ensures
        selected(records, push, Seq::<CommitId>::empty(), c) <==> holds(records, c) && reaches(
            records,
            push,
            c,
        ),
{
    if reaches(records, Seq::<CommitId>::empty(), c) {
        let p = choose|p: Seq<CommitId>|
            #[trigger] chain_to(records, Seq::<CommitId>::empty(), p, c);
        assert(Seq::<CommitId>::empty().contains(p[0]));
    }
}

/// The ids of the records at the listed places, in the order of the list or backwards.
fn ids_at(graph: &CommitGraph, list: &Vec<usize>, backwards: bool) -> (ids: Vec<CommitId>)
    requires
        forall|a: int| 0 <= a < list@.len() ==> (#[trigger] list@[a]) < graph@.len(),
    ensures
        ids@ == ids_of(
            graph@,
            if backwards {
                list@.reverse()
            } else {
                list@
            },
        ),
{
    let n: usize = list.len();
    let ghost source = if backwards {
        list@.reverse()
    } else {
        list@
    };
    let mut ids: Vec<CommitId> = Vec::new();
    let mut a: usize = 0;
    while a < n
        invariant
            n == list@.len(),
            source.len() == n,
            source == if backwards {
                list@.reverse()
            } else {
                list@
            },
            forall|t: int| 0 <= t < list@.len() ==> (#[trigger] list@[t]) < graph@.len(),
            a <= n,
            ids@.len() == a,
            forall|t: int| 0 <= t < a ==> #[trigger] ids@[t] == graph@[source[t] as int].id,
        decreases n - a,
    {
        let at: usize = if backwards {
            list[n - 1 - a]
        } else {
            list[a]
        };
        ids.push(graph.record_at(at).id);
        a += 1;
    }
    assert(ids@ =~= ids_of(graph@, source));
    ids
}

/// Picks, of the places that the starting points reach, those that no excluded
/// point reaches: as marks, and as a list in the order of `met`.
fn choose_visible(pushed: &Vec<bool>, hidden: &Vec<bool>, met: &Vec<usize>) -> (r: (
    Vec<bool>,
    Vec<usize>,
))
    requires
        pushed@.len() == hidden@.len(),
        lists_marked(pushed@, met@),
    ensures
        r.0@.len() == pushed@.len(),
        forall|i: int| 0 <= i < pushed@.len() ==> #[trigger] r.0@[i] == (pushed@[i] && !hidden@[i]),
        lists_marked(r.0@, r.1@),
{
    let n: usize = pushed.len();
    let mut chosen: Vec<bool> = Vec::new();
    let mut i: usize = 0;
    while i < n
        invariant
            n == pushed@.len(),
            n == hidden@.len(),
            i <= n,
            chosen@.len() == i,
            forall|t: int| 0 <= t < i ==> #[trigger] chosen@[t] == (pushed@[t] && !hidden@[t]),
        decreases n - i,
    {
        chosen.push(pushed[i] && !hidden[i]);
        i += 1;
    }
    let mut members: Vec<usize> = Vec::new();
    let ghost mut source: Seq<int> = Seq::empty();
    let mut a: usize = 0;
    while a < met.len()
        invariant
            n == pushed@.len(),
            n == hidden@.len(),
            chosen@.len() == n,
            forall|t: int| 0 <= t < n ==> #[trigger] chosen@[t] == (pushed@[t] && !hidden@[t]),
            lists_marked(pushed@, met@),
            a <= met@.len(),
            source.len() == members@.len(),
            forall|t: int|
                0 <= t < members@.len() ==> 0 <= #[trigger] source[t] < a && members@[t]
                    == met@[source[t]] && chosen@[members@[t] as int],
            forall|s: int, t: int|
                0 <= s < t < members@.len() ==> #[trigger] source[s] < #[trigger] source[t],
            forall|b: int|
                0 <= b < a && chosen@[(#[trigger] met@[b]) as int] ==> occurs(
                    members@,
                    met@[b] as int,
                ),
        decreases met@.len() - a,
    {
        let v: usize = met[a];
        if chosen[v] {
            let ghost before = members@;
            members.push(v);
            proof {
                source = source.push(a as int);
                assert forall|b: int|
                    0 <= b < a + 1 && chosen@[(#[trigger] met@[b]) as int] implies occurs(
                    members@,
                    met@[b] as int,
                ) by {
                    if b < a {
                        assert(occurs(before, met@[b] as int));
                        let t = choose|t: int|
                            0 <= t < before.len() && (#[trigger] before[t]) == met@[b] as int;
                        assert(members@[t] == met@[b]);
                    } else {
                        assert(members@[before.len() as int] == met@[b]);
                    }
                }
            }
        }
        a += 1;
    }
    proof {
        assert forall|s: int, t: int|
            0 <= s < members@.len() && 0 <= t < members@.len() && s != t implies members@[s]
            != members@[t] by {
            assert(source[s] != source[t]);
        }
        assert forall|t: int| 0 <= t < members@.len() implies (#[trigger] members@[t]) < chosen@.len()
            && chosen@[members@[t] as int] by {
            assert(0 <= source[t] < a);
        }
        assert forall|i: int| 0 <= i < chosen@.len() && chosen@[i] implies #[trigger] occurs(
            members@,
            i,
        ) by {
            assert(pushed@[i]);
            assert(occurs(met@, i));
            let b = choose|b: int| 0 <= b < met@.len() && (#[trigger] met@[b]) == i;
            assert(occurs(members@, met@[b] as int));
        }
    }
    (chosen, members)
}

/// Walks the graph from the starting points `push`, leaving out what the
/// excluded points `hide` reach, and hands out the ids of the selected commits
/// in the order `mode`, read backwards where `reversed` is set.
///
/// Every selected commit comes exactly once. The walk fails where an id that
/// `push` or `hide` reach has no record, and, in topological order, where a
/// selected commit is its own ancestor.
pub fn walk(
    graph: &CommitGraph,
    push: &Vec<CommitId>,
    hide: &Vec<CommitId>,
    mode: SortMode,
    reversed: bool,
) -> (r: Result<Vec<CommitId>, GraphError>)
    requires
        graph.wf(),
    ensures
        match r {
            Ok(seq) => {
                &&& complete(graph@, push@)
                &&& complete(graph@, hide@)
                &&& mode == SortMode::Topological ==> acyclic_selection(graph@, push@, hide@)
                &&& is_walk(graph@, push@, hide@, mode, reversed, seq@)
            },
            Err(GraphError::Missing(id)) => {
                &&& reaches(graph@, push@, id) || reaches(graph@, hide@, id)
                &&& !graph.contains(id)
            },
            Err(GraphError::Cycle(id)) => {
                &&& mode == SortMode::Topological
                &&& complete(graph@, push@)
                &&& complete(graph@, hide@)
                &&& selected(graph@, push@, hide@, id)
                &&& own_ancestor(graph@, id)
            },
        },
{
    let hidden: Vec<bool> = match mark_ancestors(graph, hide) {
        Ok((marks, _)) => marks,
        Err(GraphError::Missing(id)) => {
            return Err(GraphError::Missing(id));
        },
        Err(e) => {
            return Err(e);
        },
    };
    let (pushed, met) = match mark_ancestors(graph, push) {
        Ok(found) => found,
        Err(GraphError::Missing(id)) => {
            return Err(GraphError::Missing(id));
        },
        Err(e) => {
            return Err(e);
        },
    };
    let (chosen, members) = choose_visible(&pushed, &hidden, &met);
    proof {
        lemma_chosen_are_selected(graph@, push@, hide@, pushed@, hidden@, chosen@);
    }
    let (list, backwards): (Vec<usize>, bool) = match mode {
        SortMode::Unordered => (members, reversed),
        SortMode::Time => {
            let sorted = sort_by_time(graph, &members);
            proof {
                lemma_same_places_listed(chosen@, members@, sorted@);
            }
            (sorted, reversed)
        },
        SortMode::Topological => {
            match parents_first_order(graph, &chosen, &members) {
                Ok(out) => (out, !reversed),
                Err(v) => {
                    let id: CommitId = graph.record_at(v).id;
                    proof {
                        lemma_place_of_record(graph@, v as int);
                        assert(reached_at(graph@, push@, v as int));
                        assert(reached_at(graph@, hide@, v as int) == hidden@[v as int]);
                        let p = choose|p: Seq<CommitId>|
                            #[trigger] chosen_chain(graph@, chosen@, p) && p.len() >= 2
                                && p[0] == graph@[v as int].id && p.last() == graph@[v as int].id;
                        assert(is_chain(graph@, p));
                    }
                    return Err(GraphError::Cycle(id));
                },
            }
        },
    };
    let seq: Vec<CommitId> = ids_at(graph, &list, backwards);
    proof {
        let fin = if backwards {
            list@.reverse()
        } else {
            list@
        };
        if backwards {
            lemma_reverse_places(graph@, list@);
        }
        lemma_ids_of_places(graph@, fin);
        lemma_ids_of_reverse(graph@, list@);
        assert forall|c: CommitId| seq@.contains(c) <==> selected(graph@, push@, hide@, c) by {
            if holds(graph@, c) {
                let i = place(graph@, c);
                if occurs(fin, i) {
                    let a = choose|a: int| 0 <= a < fin.len() && (#[trigger] fin[a]) == i;
                    assert(fin.contains(fin[a]));
                    let b = choose|b: int| 0 <= b < list@.len() && list@[b] == fin[a];
                    assert(chosen@[list@[b] as int]);
                }
                if chosen@[i] {
                    assert(occurs(list@, i));
                    let a = choose|a: int| 0 <= a < list@.len() && (#[trigger] list@[a]) == i;
                    assert(list@.contains(list@[a]));
                    let b = choose|b: int| 0 <= b < fin.len() && fin[b] == list@[a];
                    assert(fin[b] == i);
                }
                assert(chosen@[i] == (pushed@[i] && !hidden@[i]));
                assert(reached_at(graph@, push@, i) == pushed@[i]);
                assert(reached_at(graph@, hide@, i) == hidden@[i]);
            }
        }
        match mode {
            SortMode::Unordered => {},
            SortMode::Time => {
                lemma_ids_latest_first(graph@, list@);
            },
            SortMode::Topological => {
                lemma_ids_children_first(graph@, list@);
                let base = if reversed {
                    seq@.reverse()
                } else {
                    seq@
                };
                lemma_reverse_ids(seq@);
                assert forall|c: CommitId| base.contains(c) <==> selected(
                    graph@,
                    push@,
                    hide@,
                    c,
                ) by {
                    assert(base.contains(c) <==> seq@.contains(c));
                    assert(seq@.contains(c) <==> selected(graph@, push@, hide@, c));
                }
                lemma_order_needs_acyclic(graph@, push@, hide@, base);
            },
        }
    }
    Ok(seq)
}

/// The marks chosen are those of the selected commits, and what a chosen
/// record names as a parent has a record.
proof fn lemma_chosen_are_selected(
    records: Seq<CommitRecord>,
    push: Seq<CommitId>,
    hide: Seq<CommitId>,
    pushed: Seq<bool>,
    hidden: Seq<bool>,
    chosen: Seq<bool>,
)
    requires
        complete(records, push),
        marks_ancestors(records, push, pushed),
        marks_ancestors(records, hide, hidden),
        chosen.len() == records.len(),
        forall|i: int| 0 <= i < records.len() ==> #[trigger] chosen[i] == (pushed[i] && !hidden[i]),
    ensures
        parents_held(records, chosen),
{
    assert forall|i: int, s: int|
        0 <= i < records.len() && chosen[i] && 0 <= s < records[i].parent_ids@.len() implies holds(
        records,
        #[trigger] records[i].parent_ids@[s],
    ) by {
        assert(reached_at(records, push, i));
        assert(links(records, records[i].id, records[i].parent_ids@[s]));
        lemma_parent_reaches(records, push, records[i].id, records[i].parent_ids@[s]);
    }
}

/// A list of the same places, each once, lists the marked places as the first did.
proof fn lemma_same_places_listed(chosen: Seq<bool>, members: Seq<usize>, sorted: Seq<usize>)
    requires
        lists_marked(chosen, members),
        sorted.no_duplicates(),
        forall|x: usize| sorted.contains(x) <==> members.contains(x),
    ensures
        lists_marked(chosen, sorted),
{
    assert forall|a: int| 0 <= a < sorted.len() implies (#[trigger] sorted[a]) < chosen.len()
        && chosen[sorted[a] as int] by {
        assert(sorted.contains(sorted[a]));
        let b = choose|b: int| 0 <= b < members.len() && members[b] == sorted[a];
        assert(chosen[members[b] as int]);
    }
    assert forall|i: int| 0 <= i < chosen.len() && chosen[i] implies #[trigger] occurs(sorted, i) by {
        assert(occurs(members, i));
        let b = choose|b: int| 0 <= b < members.len() && (#[trigger] members[b]) == i;
        assert(members.contains(members[b]));
        let a = choose|a: int| 0 <= a < sorted.len() && sorted[a] == members[b];
        assert(sorted[a] == i);
    }
}

} // verus!
