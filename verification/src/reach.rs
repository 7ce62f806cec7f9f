//! Reachability along parent links, and the marking pass that computes it.

use crate::commit::{CommitId, CommitRecord};
use crate::error::GraphError;
use crate::graph::{distinct_ids, holds, links, place, CommitGraph};
use vstd::prelude::*;

verus! {

/// The step of `p` at `j` follows a parent link.
pub open spec fn step_links(records: Seq<CommitRecord>, p: Seq<CommitId>, j: int) -> bool {
    links(records, p[j], p[j + 1])
}

/// A chain: a non-empty sequence of ids, each naming the next as a parent.
pub open spec fn is_chain(records: Seq<CommitRecord>, p: Seq<CommitId>) -> bool {
    &&& p.len() > 0
    &&& forall|j: int| 0 <= j < p.len() - 1 ==> #[trigger] step_links(records, p, j)
}

/// `p` is a chain that starts at one of `roots` and ends at `c`.
pub open spec fn chain_to(
    records: Seq<CommitRecord>,
    roots: Seq<CommitId>,
    p: Seq<CommitId>,
    c: CommitId,
) -> bool {
    is_chain(records, p) && roots.contains(p[0]) && p.last() == c
}

/// `c` is one of `roots` or an ancestor of one: a chain of parent links leads
/// from a root to it.
pub open spec fn reaches(records: Seq<CommitRecord>, roots: Seq<CommitId>, c: CommitId) -> bool {
    exists|p: Seq<CommitId>| #[trigger] chain_to(records, roots, p, c)
}

/// Every id that `roots` reach has a record.
pub open spec fn complete(records: Seq<CommitRecord>, roots: Seq<CommitId>) -> bool {
    forall|c: CommitId| #[trigger] reaches(records, roots, c) ==> holds(records, c)
}

/// A graph that is complete for `roots` is complete for any part of them: a
/// graph loaded for the starting points and the excluded points together
/// serves the walk from the ones without the others.
pub proof fn lemma_complete_for_part(
    records: Seq<CommitRecord>,
    roots: Seq<CommitId>,
    part: Seq<CommitId>,
)
    requires
        complete(records, roots),
        forall|a: int| 0 <= a < part.len() ==> roots.contains(#[trigger] part[a]),
    ensures
        complete(records, part),
{
    assert forall|c: CommitId| #[trigger] reaches(records, part, c) implies holds(records, c) by {
        let p = choose|p: Seq<CommitId>| #[trigger] chain_to(records, part, p, c);
        let a = choose|a: int| 0 <= a < part.len() && part[a] == p[0];
        assert(roots.contains(part[a]));
        assert(chain_to(records, roots, p, c));
        assert(reaches(records, roots, c));
    }
}

/// A root reaches itself.
pub proof fn lemma_root_reaches(records: Seq<CommitRecord>, roots: Seq<CommitId>, r: int)
    requires
        0 <= r < roots.len(),
    ensures
        reaches(records, roots, roots[r]),
{
    let p = seq![roots[r]];
    assert(chain_to(records, roots, p, roots[r]));
}

/// What a reached commit names as a parent is reached too.
pub proof fn lemma_parent_reaches(
    records: Seq<CommitRecord>,
    roots: Seq<CommitId>,
    c: CommitId,
    parent: CommitId,
)
    requires
        reaches(records, roots, c),
        links(records, c, parent),
    ensures
        reaches(records, roots, parent),
{
    let p = choose|p: Seq<CommitId>| #[trigger] chain_to(records, roots, p, c);
    let q = p.push(parent);
    assert forall|j: int| 0 <= j < q.len() - 1 implies #[trigger] step_links(records, q, j) by {
        if j < p.len() - 1 {
            assert(step_links(records, p, j));
        }
    }
    assert(chain_to(records, roots, q, parent));
}

/// The number of entries of `s` that are not set.
pub open spec fn unset_count(s: Seq<bool>) -> nat
    decreases s.len(),
{
    if s.len() == 0 {
        0
    } else {
        unset_count(s.drop_last()) + if s.last() {
            0nat
        } else {
            1nat
        }
    }
}

/// Setting an entry that was not set lowers the count by one.
pub proof fn lemma_set_lowers_count(s: Seq<bool>, i: int)
    requires
        0 <= i < s.len(),
        !s[i],
    ensures
        unset_count(s.update(i, true)) + 1 == unset_count(s),
    decreases s.len(),
{
    let t = s.update(i, true);
    if i == s.len() - 1 {
        assert(t.drop_last() =~= s.drop_last());
    } else {
        lemma_set_lowers_count(s.drop_last(), i);
        assert(t.drop_last() =~= s.drop_last().update(i, true));
    }
}

/// `roots` reach the record at the place `i`.
pub open spec fn reached_at(records: Seq<CommitRecord>, roots: Seq<CommitId>, i: int) -> bool {
    reaches(records, roots, records[i].id)
}

/// The marks say of each record whether `roots` reach it.
pub open spec fn marks_ancestors(
    records: Seq<CommitRecord>,
    roots: Seq<CommitId>,
    marks: Seq<bool>,
) -> bool {
    &&& marks.len() == records.len()
    &&& forall|i: int| 0 <= i < records.len() ==> marks[i] == #[trigger] reached_at(records, roots, i)
}

/// The place `i` occurs in `s`.
pub open spec fn occurs(s: Seq<usize>, i: int) -> bool {
    exists|a: int| 0 <= a < s.len() && (#[trigger] s[a]) == i
}

/// `order` lists each marked place once, and nothing else.
pub open spec fn lists_marked(marks: Seq<bool>, order: Seq<usize>) -> bool {
    &&& order.no_duplicates()
    &&& forall|a: int|
        0 <= a < order.len() ==> (#[trigger] order[a]) < marks.len() && marks[order[a] as int]
    &&& forall|i: int| 0 <= i < marks.len() && marks[i] ==> #[trigger] occurs(order, i)
}

/// Every marked record is reached.
spec fn sound(records: Seq<CommitRecord>, roots: Seq<CommitId>, marks: Seq<bool>) -> bool {
    forall|i: int| 0 <= i < records.len() && marks[i] ==> #[trigger] reached_at(records, roots, i)
}

/// The stack holds places of marked records.
spec fn stack_marked(marks: Seq<bool>, stack: Seq<usize>) -> bool {
    forall|a: int| 0 <= a < stack.len() ==> (#[trigger] stack[a]) < marks.len() && marks[stack[a] as int]
}

/// What the marking pass keeps true of its state.
spec fn pass_inv(
    records: Seq<CommitRecord>,
    roots: Seq<CommitId>,
    marks: Seq<bool>,
    order: Seq<usize>,
    stack: Seq<usize>,
) -> bool {
    &&& marks.len() == records.len()
    &&& sound(records, roots, marks)
    &&& stack_marked(marks, stack)
    &&& lists_marked(marks, order)
}

/// The id `id` has a record, and that record is marked.
spec fn id_marked(records: Seq<CommitRecord>, marks: Seq<bool>, id: CommitId) -> bool {
    holds(records, id) && marks[place(records, id)]
}

/// Each of the first `k` parents of the record at `i` has a marked record.
spec fn parents_marked(records: Seq<CommitRecord>, marks: Seq<bool>, i: int, k: int) -> bool {
    forall|s: int| 0 <= s < k ==> id_marked(records, marks, #[trigger] records[i].parent_ids@[s])
}

/// The record at `i` waits on the stack, or all its parents are marked.
spec fn node_settled(records: Seq<CommitRecord>, marks: Seq<bool>, stack: Seq<usize>, i: int) -> bool {
    occurs(stack, i) || parents_marked(
        records,
        marks,
        i,
        records[i].parent_ids@.len() as int,
    )
}

/// Every marked record but the one at `v` is settled.
spec fn settled_except(
    records: Seq<CommitRecord>,
    marks: Seq<bool>,
    stack: Seq<usize>,
    v: int,
) -> bool {
    forall|i: int|
        0 <= i < records.len() && marks[i] && i != v ==> #[trigger] node_settled(
            records,
            marks,
            stack,
            i,
        )
}

/// Each of the first `upto` roots has a marked record.
spec fn roots_marked(
    records: Seq<CommitRecord>,
    roots: Seq<CommitId>,
    marks: Seq<bool>,
    upto: int,
) -> bool {
    forall|r: int| 0 <= r < upto ==> id_marked(records, marks, #[trigger] roots[r])
}

/// Marks that hold every root and are closed under parent links hold every
/// id on a chain from a root.
proof fn lemma_closed_marks_cover(
    records: Seq<CommitRecord>,
    roots: Seq<CommitId>,
    marks: Seq<bool>,
    p: Seq<CommitId>,
    j: int,
)
    requires
        distinct_ids(records),
        marks.len() == records.len(),
        is_chain(records, p),
        roots.contains(p[0]),
        0 <= j < p.len(),
        roots_marked(records, roots, marks, roots.len() as int),
        settled_except(records, marks, Seq::<usize>::empty(), -1),
    ensures
        id_marked(records, marks, p[j]),
    decreases j,
{
    if j == 0 {
        let r = choose|r: int| 0 <= r < roots.len() && roots[r] == p[0];
        assert(id_marked(records, marks, roots[r]));
    } else {
        lemma_closed_marks_cover(records, roots, marks, p, j - 1);
        assert(step_links(records, p, j - 1));
        let i = place(records, p[j - 1]);
        let (i2, k) = choose|i2: int, k: int|
            0 <= i2 < records.len() && 0 <= k < records[i2].parent_ids@.len()
                && #[trigger] records[i2].id == p[j - 1] && #[trigger] records[i2].parent_ids@[k]
                == p[j];
        assert(i2 == i);
        assert(node_settled(records, marks, Seq::<usize>::empty(), i));
        assert(!occurs(Seq::<usize>::empty(), i));
        assert(id_marked(records, marks, records[i].parent_ids@[k]));
    }
}

/// Marking the place `i` and pushing it keeps the pass's state in order.
proof fn lemma_touch(
    records: Seq<CommitRecord>,
    roots: Seq<CommitId>,
    marks: Seq<bool>,
    order: Seq<usize>,
    stack: Seq<usize>,
    i: int,
)
    requires
        pass_inv(records, roots, marks, order, stack),
        0 <= i < records.len(),
        i <= usize::MAX,
        !marks[i],
        reached_at(records, roots, i),
    ensures
        pass_inv(
            records,
            roots,
            marks.update(i, true),
            order.push(i as usize),
            stack.push(i as usize),
        ),
        unset_count(marks.update(i, true)) + 1 == unset_count(marks),
{
    let marks2 = marks.update(i, true);
    let order2 = order.push(i as usize);
    let stack2 = stack.push(i as usize);
    lemma_set_lowers_count(marks, i);
    assert forall|j: int| 0 <= j < records.len() && marks2[j] implies #[trigger] reached_at(
        records,
        roots,
        j,
    ) by {
        if j != i {
            assert(marks[j]);
        }
    }
    assert forall|a: int, b: int|
        0 <= a < order2.len() && 0 <= b < order2.len() && a != b implies order2[a] != order2[b] by {
        if a < order.len() {
            assert(marks[order[a] as int]);
        }
        if b < order.len() {
            assert(marks[order[b] as int]);
        }
    }
    assert forall|a: int| 0 <= a < order2.len() implies (#[trigger] order2[a]) < marks2.len()
        && marks2[order2[a] as int] by {
        if a < order.len() {
            assert(marks[order[a] as int]);
        }
    }
    assert forall|j: int| 0 <= j < marks2.len() && marks2[j] implies #[trigger] occurs(order2, j) by {
        if j == i {
            assert(order2[order.len() as int] == i);
        } else {
            assert(occurs(order, j));
            let a = choose|a: int| 0 <= a < order.len() && (#[trigger] order[a]) == j;
            assert(order2[a] == j);
        }
    }
    assert forall|a: int| 0 <= a < stack2.len() implies (#[trigger] stack2[a]) < marks2.len()
        && marks2[stack2[a] as int] by {
        if a < stack.len() {
            assert(marks[stack[a] as int]);
        }
    }
}

/// Setting a mark leaves marked what was marked.
proof fn lemma_mark_keeps_parents(
    records: Seq<CommitRecord>,
    marks: Seq<bool>,
    x: int,
    i: int,
    k: int,
)
    requires
        marks.len() == records.len(),
        0 <= x < marks.len(),
        parents_marked(records, marks, i, k),
    ensures
        parents_marked(records, marks.update(x, true), i, k),
{
    let marks2 = marks.update(x, true);
    assert forall|s: int| 0 <= s < k implies id_marked(
        records,
        marks2,
        #[trigger] records[i].parent_ids@[s],
    ) by {
        assert(id_marked(records, marks, records[i].parent_ids@[s]));
    }
}

/// Marking and pushing a place keeps every other record settled.
proof fn lemma_touch_keeps_settled(
    records: Seq<CommitRecord>,
    marks: Seq<bool>,
    stack: Seq<usize>,
    v: int,
    x: int,
)
    requires
        marks.len() == records.len(),
        0 <= x < marks.len(),
        x <= usize::MAX,
        settled_except(records, marks, stack, v),
    ensures
        settled_except(records, marks.update(x, true), stack.push(x as usize), v),
{
    let marks2 = marks.update(x, true);
    let stack2 = stack.push(x as usize);
    assert forall|i: int| 0 <= i < records.len() && marks2[i] && i != v implies #[trigger] node_settled(
        records,
        marks2,
        stack2,
        i,
    ) by {
        if i == x {
            assert(stack2[stack.len() as int] == x);
        } else {
            assert(node_settled(records, marks, stack, i));
            if occurs(stack, i) {
                let a = choose|a: int| 0 <= a < stack.len() && (#[trigger] stack[a]) == i;
                assert(stack2[a] == i);
            } else {
                lemma_mark_keeps_parents(
                    records,
                    marks,
                    x,
                    i,
                    records[i].parent_ids@.len() as int,
                );
            }
        }
    }
}

/// Setting a mark leaves the roots marked that were.
proof fn lemma_mark_keeps_roots(
    records: Seq<CommitRecord>,
    roots: Seq<CommitId>,
    marks: Seq<bool>,
    x: int,
    upto: int,
)
    requires
        marks.len() == records.len(),
        0 <= x < marks.len(),
        roots_marked(records, roots, marks, upto),
    ensures
        roots_marked(records, roots, marks.update(x, true), upto),
{
    let marks2 = marks.update(x, true);
    assert forall|r: int| 0 <= r < upto implies id_marked(records, marks2, #[trigger] roots[r]) by {
        assert(id_marked(records, marks, roots[r]));
    }
}

/// Taking the top off the stack leaves all but the record taken settled.
proof fn lemma_pop_keeps_settled(
    records: Seq<CommitRecord>,
    marks: Seq<bool>,
    stack: Seq<usize>,
)
    requires
        marks.len() == records.len(),
        stack.len() > 0,
        settled_except(records, marks, stack, -1),
    ensures
        settled_except(records, marks, stack.drop_last(), stack.last() as int),
{
    let rest = stack.drop_last();
    assert forall|i: int|
        0 <= i < records.len() && marks[i] && i != stack.last() as int implies #[trigger] node_settled(
        records,
        marks,
        rest,
        i,
    ) by {
        assert(node_settled(records, marks, stack, i));
        if occurs(stack, i) {
            let a = choose|a: int| 0 <= a < stack.len() && (#[trigger] stack[a]) == i;
            assert(rest[a] == i);
        }
    }
}

/// A fresh vector of `n` marks, none of them set.
pub fn clear_marks(n: usize) -> (marks: Vec<bool>)
    ensures
        marks@.len() == n,
        forall|i: int| 0 <= i < n ==> !#[trigger] marks@[i],
{
    let mut marks: Vec<bool> = Vec::new();
    let mut z: usize = 0;
    while z < n
        invariant
            z <= n,
            marks@.len() == z,
            forall|i: int| 0 <= i < z ==> !#[trigger] marks@[i],
        decreases n - z,
    {
        marks.push(false);
        z += 1;
    }
    marks
}

/// Looks up a reached id and, where its record is not marked yet, marks it and
/// puts it on the stack. Returns the record's place, or `None` where the graph
/// holds no such record.
fn touch(
    graph: &CommitGraph,
    Ghost(roots): Ghost<Seq<CommitId>>,
    marks: &mut Vec<bool>,
    order: &mut Vec<usize>,
    stack: &mut Vec<usize>,
    id: CommitId,
) -> (r: Option<usize>)
    requires
        graph.wf(),
        pass_inv(graph@, roots, old(marks)@, old(order)@, old(stack)@),
        reaches(graph@, roots, id),
    ensures
        pass_inv(graph@, roots, final(marks)@, final(order)@, final(stack)@),
        match r {
            None => {
                &&& !graph.contains(id)
                &&& final(marks)@ == old(marks)@
                &&& final(order)@ == old(order)@
                &&& final(stack)@ == old(stack)@
            },
            Some(i) => {
                &&& i < graph@.len()
                &&& graph@[i as int].id == id
                &&& i == place(graph@, id)
                &&& final(marks)@ == old(marks)@.update(i as int, true)
                &&& if old(marks)@[i as int] {
                    final(order)@ == old(order)@ && final(stack)@ == old(stack)@
                } else {
                    &&& final(order)@ == old(order)@.push(i)
                    &&& final(stack)@ == old(stack)@.push(i)
                    &&& unset_count(final(marks)@) + 1 == unset_count(old(marks)@)
                }
            },
        },
{
    match graph.position(id) {
        None => None,
        Some(i) => {
            if !marks[i] {
                proof {
                    assert(reached_at(graph@, roots, i as int));
                    lemma_touch(graph@, roots, marks@, order@, stack@, i as int);
                }
                marks.set(i, true);
                order.push(i);
                stack.push(i);
            } else {
                assert(marks@ =~= marks@.update(i as int, true));
            }
            Some(i)
        },
    }
}

/// Marks every record that `roots` reach, and lists the marked places in the
/// order in which the pass met them.
///
/// Fails on the first id met that has no record: a root, or a parent of a
/// reached commit.
pub fn mark_ancestors(graph: &CommitGraph, roots: &Vec<CommitId>) -> (r: Result<
    (Vec<bool>, Vec<usize>),
    GraphError,
>)
    requires
        graph.wf(),
    ensures
        match r {
            Ok((marks, order)) => {
                &&& complete(graph@, roots@)
                &&& marks_ancestors(graph@, roots@, marks@)
                &&& lists_marked(marks@, order@)
            },
            Err(GraphError::Missing(id)) => reaches(graph@, roots@, id) && !graph.contains(id),
            Err(_) => false,
        },
{
    let n: usize = graph.len();
    let mut marks: Vec<bool> = clear_marks(n);
    let mut order: Vec<usize> = Vec::new();
    let mut stack: Vec<usize> = Vec::new();
    let mut ri: usize = 0;
    while ri < roots.len()
        invariant
            graph.wf(),
            n == graph@.len(),
            ri <= roots@.len(),
            pass_inv(graph@, roots@, marks@, order@, stack@),
            settled_except(graph@, marks@, stack@, -1),
            roots_marked(graph@, roots@, marks@, ri as int),
        decreases roots@.len() - ri,
    {
        let root: CommitId = roots[ri];
        let ghost marks0 = marks@;
        let ghost stack0 = stack@;
        proof {
            lemma_root_reaches(graph@, roots@, ri as int);
        }
        match touch(graph, Ghost(roots@), &mut marks, &mut order, &mut stack, root) {
            None => {
                return Err(GraphError::Missing(root));
            },
            Some(i) => {
                proof {
                    lemma_mark_keeps_roots(graph@, roots@, marks0, i as int, ri as int);
                    if marks0[i as int] {
                        assert(marks@ =~= marks0);
                    } else {
                        lemma_touch_keeps_settled(graph@, marks0, stack0, -1, i as int);
                    }
                    assert(id_marked(graph@, marks@, roots@[ri as int]));
                }
            },
        }
        ri += 1;
    }
    while stack.len() > 0
        invariant
            graph.wf(),
            n == graph@.len(),
            pass_inv(graph@, roots@, marks@, order@, stack@),
            settled_except(graph@, marks@, stack@, -1),
            roots_marked(graph@, roots@, marks@, roots@.len() as int),
        decreases unset_count(marks@), stack@.len(),
    {
        let ghost count0 = unset_count(marks@);
        let ghost len0 = stack@.len();
        proof {
            lemma_pop_keeps_settled(graph@, marks@, stack@);
        }
        let v: usize = stack.pop().unwrap();
        let record = graph.record_at(v);
        let deg: usize = record.parent_ids.len();
        let mut k: usize = 0;
        while k < deg
            invariant
                graph.wf(),
                n == graph@.len(),
                v < n,
                *record == graph@[v as int],
                deg == record.parent_ids@.len(),
                k <= deg,
                pass_inv(graph@, roots@, marks@, order@, stack@),
                marks@[v as int],
                parents_marked(graph@, marks@, v as int, k as int),
                settled_except(graph@, marks@, stack@, v as int),
                roots_marked(graph@, roots@, marks@, roots@.len() as int),
                unset_count(marks@) <= count0,
                unset_count(marks@) == count0 ==> stack@.len() == len0 - 1,
            decreases deg - k,
        {
            let parent: CommitId = record.parent_ids[k];
            let ghost marks0 = marks@;
            let ghost stack0 = stack@;
            proof {
                assert(reached_at(graph@, roots@, v as int));
                assert(links(graph@, graph@[v as int].id, parent));
                lemma_parent_reaches(graph@, roots@, graph@[v as int].id, parent);
            }
            match touch(graph, Ghost(roots@), &mut marks, &mut order, &mut stack, parent) {
                None => {
                    return Err(GraphError::Missing(parent));
                },
                Some(i) => {
                    proof {
                        lemma_mark_keeps_roots(
                            graph@,
                            roots@,
                            marks0,
                            i as int,
                            roots@.len() as int,
                        );
                        lemma_mark_keeps_parents(graph@, marks0, i as int, v as int, k as int);
                        if marks0[i as int] {
                            assert(marks@ =~= marks0);
                        } else {
                            lemma_touch_keeps_settled(graph@, marks0, stack0, v as int, i as int);
                        }
                        assert(id_marked(graph@, marks@, graph@[v as int].parent_ids@[k as int]));
                    }
                },
            }
            k += 1;
        }
        proof {
            assert forall|i: int| 0 <= i < n && marks@[i] implies #[trigger] node_settled(
                graph@,
                marks@,
                stack@,
                i,
            ) by {
                if i != v {
                    assert(node_settled(graph@, marks@, stack@, i));
                }
            }
        }
    }
    proof {
        assert(stack@ =~= Seq::<usize>::empty());
        assert forall|c: CommitId| #[trigger] reaches(graph@, roots@, c) implies id_marked(
            graph@,
            marks@,
            c,
        ) by {
            let p = choose|p: Seq<CommitId>| #[trigger] chain_to(graph@, roots@, p, c);
            lemma_closed_marks_cover(graph@, roots@, marks@, p, p.len() - 1);
        }
        assert forall|i: int| 0 <= i < n implies marks@[i] == #[trigger] reached_at(
            graph@,
            roots@,
            i,
        ) by {
            if reached_at(graph@, roots@, i) {
                assert(id_marked(graph@, marks@, graph@[i].id));
            }
        }
    }
    Ok((marks, order))
}

} // verus!
