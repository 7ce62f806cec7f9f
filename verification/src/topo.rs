//! Ordering chosen commits so that each comes after all its parents.

use crate::commit::{CommitId, CommitRecord};
use crate::graph::{distinct_ids, holds, links, place, CommitGraph};
use crate::reach::{
    clear_marks, is_chain, lemma_set_lowers_count, lists_marked, occurs, step_links, unset_count,
};
use vstd::prelude::*;

verus! {

/// The place of the record that the record at `i` names as its parent number `s`.
pub open spec fn parent_place(records: Seq<CommitRecord>, i: int, s: int) -> int {
    place(records, records[i].parent_ids@[s])
}

/// Every parent that a chosen record names has a record.
pub open spec fn parents_held(records: Seq<CommitRecord>, chosen: Seq<bool>) -> bool {
    forall|i: int, s: int|
        0 <= i < records.len() && chosen[i] && 0 <= s < records[i].parent_ids@.len() ==> holds(
            records,
            #[trigger] records[i].parent_ids@[s],
        )
}

/// The record listed at `a` names the one listed at `b` as a parent.
pub open spec fn names_parent(records: Seq<CommitRecord>, out: Seq<usize>, a: int, b: int) -> bool {
    links(records, records[out[a] as int].id, records[out[b] as int].id)
}

/// In `out`, whatever a listed record names as a parent stands before it.
pub open spec fn parents_first(records: Seq<CommitRecord>, out: Seq<usize>) -> bool {
    forall|a: int, b: int|
        0 <= a < out.len() && 0 <= b < out.len() && #[trigger] names_parent(records, out, a, b)
            ==> b < a
}

/// `p` is a chain of chosen records.
pub open spec fn chosen_chain(records: Seq<CommitRecord>, chosen: Seq<bool>, p: Seq<CommitId>) -> bool {
    &&& is_chain(records, p)
    &&& forall|j: int|
        0 <= j < p.len() ==> holds(records, #[trigger] p[j]) && chosen[place(records, p[j])]
}

/// The record at `v` is its own ancestor along chosen records.
pub open spec fn on_cycle(records: Seq<CommitRecord>, chosen: Seq<bool>, v: int) -> bool {
    exists|p: Seq<CommitId>|
        #[trigger] chosen_chain(records, chosen, p) && p.len() >= 2 && p[0] == records[v].id
            && p.last() == records[v].id
}

/// A record stands at the place that `place` gives for its id.
pub proof fn lemma_place_of_record(records: Seq<CommitRecord>, i: int)
    requires
        distinct_ids(records),
        0 <= i < records.len(),
    ensures
        holds(records, records[i].id),
        place(records, records[i].id) == i,
{
    assert(holds(records, records[i].id));
}

/// A parent that a chosen record names stands at a place of the graph.
proof fn lemma_parent_place(records: Seq<CommitRecord>, chosen: Seq<bool>, i: int, s: int)
    requires
        parents_held(records, chosen),
        0 <= i < records.len(),
        chosen[i],
        0 <= s < records[i].parent_ids@.len(),
    ensures
        0 <= parent_place(records, i, s) < records.len(),
        records[parent_place(records, i, s)].id == records[i].parent_ids@[s],
{
    assert(holds(records, records[i].parent_ids@[s]));
}

/// One level of the search: a record, and how many of its parents were looked at.
struct Frame {
    node: usize,
    next: usize,
}

/// What is done was seen, and what was seen is chosen.
spec fn colours_ok(chosen: Seq<bool>, seen: Seq<bool>, done: Seq<bool>, i: int) -> bool {
    (done[i] ==> seen[i]) && (seen[i] ==> chosen[i])
}

/// Parent `s` of the frame at `j`, if chosen, is done, or is what the next frame holds.
spec fn slot_ok(
    records: Seq<CommitRecord>,
    chosen: Seq<bool>,
    done: Seq<bool>,
    stack: Seq<Frame>,
    j: int,
    s: int,
) -> bool {
    let p = parent_place(records, stack[j].node as int, s);
    chosen[p] ==> done[p] || (s == stack[j].next - 1 && j + 1 < stack.len() && stack[j + 1].node
        == p)
}

/// The frame at `j` holds a record that is seen and not done; the parents it has
/// looked at are settled, and the frame above it holds the last of them.
spec fn frame_ok(
    records: Seq<CommitRecord>,
    chosen: Seq<bool>,
    seen: Seq<bool>,
    done: Seq<bool>,
    stack: Seq<Frame>,
    j: int,
) -> bool {
    let f = stack[j];
    &&& f.node < records.len()
    &&& seen[f.node as int]
    &&& !done[f.node as int]
    &&& f.next <= records[f.node as int].parent_ids@.len()
    &&& forall|s: int| 0 <= s < f.next ==> #[trigger] slot_ok(records, chosen, done, stack, j, s)
    &&& j + 1 < stack.len() ==> f.next >= 1 && records[f.node as int].parent_ids@[f.next - 1]
        == records[stack[j + 1].node as int].id
}

/// Every frame of the stack is in order.
spec fn frames_ok(
    records: Seq<CommitRecord>,
    chosen: Seq<bool>,
    seen: Seq<bool>,
    done: Seq<bool>,
    stack: Seq<Frame>,
) -> bool {
    forall|j: int| 0 <= j < stack.len() ==> #[trigger] frame_ok(records, chosen, seen, done, stack, j)
}

/// Some frame of the stack holds the record at `i`.
spec fn framed(stack: Seq<Frame>, i: int) -> bool {
    exists|j: int| 0 <= j < stack.len() && (#[trigger] stack[j]).node == i
}

/// No record is in two frames.
spec fn frames_distinct(stack: Seq<Frame>) -> bool {
    forall|i: int, j: int|
        0 <= i < j < stack.len() ==> (#[trigger] stack[i]).node != (#[trigger] stack[j]).node
}

/// Every record that is seen and not done is in a frame.
spec fn open_on_stack(seen: Seq<bool>, done: Seq<bool>, stack: Seq<Frame>) -> bool {
    forall|i: int| 0 <= i < seen.len() && seen[i] && !done[i] ==> #[trigger] framed(stack, i)
}

/// Every chosen parent of the record at `i` is done.
spec fn node_closed(records: Seq<CommitRecord>, chosen: Seq<bool>, done: Seq<bool>, i: int) -> bool {
    forall|s: int|
        0 <= s < records[i].parent_ids@.len() && chosen[#[trigger] parent_place(records, i, s)]
            ==> done[parent_place(records, i, s)]
}

/// Every chosen parent of a done record is done.
spec fn done_closed(records: Seq<CommitRecord>, chosen: Seq<bool>, done: Seq<bool>) -> bool {
    forall|i: int|
        0 <= i < records.len() && done[i] ==> #[trigger] node_closed(records, chosen, done, i)
}

/// What the search keeps true of its state.
spec fn dfs_inv(
    records: Seq<CommitRecord>,
    chosen: Seq<bool>,
    seen: Seq<bool>,
    done: Seq<bool>,
    stack: Seq<Frame>,
    out: Seq<usize>,
) -> bool {
    &&& distinct_ids(records)
    &&& parents_held(records, chosen)
    &&& chosen.len() == records.len()
    &&& seen.len() == records.len()
    &&& done.len() == records.len()
    &&& forall|i: int| 0 <= i < records.len() ==> #[trigger] colours_ok(chosen, seen, done, i)
    &&& frames_ok(records, chosen, seen, done, stack)
    &&& frames_distinct(stack)
    &&& open_on_stack(seen, done, stack)
    &&& done_closed(records, chosen, done)
    &&& lists_marked(done, out)
    &&& parents_first(records, out)
}

/// The steps that the frames of the stack still have to take.
spec fn work(records: Seq<CommitRecord>, stack: Seq<Frame>) -> nat
    decreases stack.len(),
{
    if stack.len() == 0 {
        0
    } else {
        let f = stack.last();
        work(records, stack.drop_last()) + 1 + (records[f.node as int].parent_ids@.len()
            - f.next) as nat
    }
}

/// Entering a chosen record that was not seen: it gets a frame of its own, and the
/// frame below, where there is one, moves on to its next parent.
proof fn lemma_enter(
    records: Seq<CommitRecord>,
    chosen: Seq<bool>,
    seen: Seq<bool>,
    done: Seq<bool>,
    stack: Seq<Frame>,
    out: Seq<usize>,
    v: int,
)
    requires
        dfs_inv(records, chosen, seen, done, stack, out),
        0 <= v < records.len(),
        v <= usize::MAX,
        chosen[v],
        !seen[v],
        stack.len() > 0 ==> {
            let f = stack.last();
            &&& f.next < records[f.node as int].parent_ids@.len()
            &&& f.next < usize::MAX
            &&& parent_place(records, f.node as int, f.next as int) == v
        },
    ensures
        stack.len() == 0 ==> dfs_inv(
            records,
            chosen,
            seen.update(v, true),
            done,
            stack.push(Frame { node: v as usize, next: 0 }),
            out,
        ),
        stack.len() > 0 ==> dfs_inv(
            records,
            chosen,
            seen.update(v, true),
            done,
            stack.update(
                stack.len() - 1,
                Frame { node: stack.last().node, next: (stack.last().next + 1) as usize },
            ).push(Frame { node: v as usize, next: 0 }),
            out,
        ),
{
    let seen2 = seen.update(v, true);
    let top = stack.len() - 1;
    if stack.len() > 0 {
        assert(frame_ok(records, chosen, seen, done, stack, top));
    }
    let stack2 = if stack.len() == 0 {
        stack.push(Frame { node: v as usize, next: 0 })
    } else {
        stack.update(
            top,
            Frame { node: stack.last().node, next: (stack.last().next + 1) as usize },
        ).push(Frame { node: v as usize, next: 0 })
    };
    assert(colours_ok(chosen, seen, done, v));
    assert forall|i: int, j: int| 0 <= i < j < stack2.len() implies (#[trigger] stack2[i]).node != (
    #[trigger] stack2[j]).node by {
        assert(frame_ok(records, chosen, seen, done, stack, i));
        if j < stack.len() {
            assert(stack[i].node != stack[j].node);
        }
    }
    assert forall|i: int| 0 <= i < records.len() implies #[trigger] colours_ok(
        chosen,
        seen2,
        done,
        i,
    ) by {
        assert(colours_ok(chosen, seen, done, i));
    }
    assert forall|j: int| 0 <= j < stack2.len() implies #[trigger] frame_ok(
        records,
        chosen,
        seen2,
        done,
        stack2,
        j,
    ) by {
        if j < stack.len() {
            assert(frame_ok(records, chosen, seen, done, stack, j));
            let f = stack[j];
            let f2 = stack2[j];
            assert forall|s: int| 0 <= s < f2.next implies #[trigger] slot_ok(
                records,
                chosen,
                done,
                stack2,
                j,
                s,
            ) by {
                if s < f.next {
                    assert(slot_ok(records, chosen, done, stack, j, s));
                }
            }
            if j == top {
                lemma_place_of_record(records, v);
                assert(colours_ok(chosen, seen, done, f.node as int));
                lemma_parent_place(records, chosen, f.node as int, f.next as int);
            }
        }
    }
    assert forall|i: int| 0 <= i < seen2.len() && seen2[i] && !done[i] implies #[trigger] framed(
        stack2,
        i,
    ) by {
        if i == v {
            assert(stack2[stack2.len() - 1].node == v);
        } else {
            assert(framed(stack, i));
            let j = choose|j: int| 0 <= j < stack.len() && (#[trigger] stack[j]).node == i;
            assert(stack2[j].node == i);
        }
    }
}

/// Looking past a parent that is not chosen, or is done, keeps the state in order.
proof fn lemma_skip(
    records: Seq<CommitRecord>,
    chosen: Seq<bool>,
    seen: Seq<bool>,
    done: Seq<bool>,
    stack: Seq<Frame>,
    out: Seq<usize>,
)
    requires
        dfs_inv(records, chosen, seen, done, stack, out),
        stack.len() > 0,
        stack.last().next < records[stack.last().node as int].parent_ids@.len(),
        stack.last().next < usize::MAX,
        ({
            let p = parent_place(records, stack.last().node as int, stack.last().next as int);
            chosen[p] ==> done[p]
        }),
    ensures
        dfs_inv(
            records,
            chosen,
            seen,
            done,
            stack.update(
                stack.len() - 1,
                Frame { node: stack.last().node, next: (stack.last().next + 1) as usize },
            ),
            out,
        ),
        work(
            records,
            stack.update(
                stack.len() - 1,
                Frame { node: stack.last().node, next: (stack.last().next + 1) as usize },
            ),
        ) + 1 == work(records, stack),
{
    let top = stack.len() - 1;
    let stack2 = stack.update(
        top,
        Frame { node: stack.last().node, next: (stack.last().next + 1) as usize },
    );
    assert(frame_ok(records, chosen, seen, done, stack, top));
    assert forall|i: int, j: int| 0 <= i < j < stack2.len() implies (#[trigger] stack2[i]).node != (
    #[trigger] stack2[j]).node by {
        assert(stack[i].node != stack[j].node);
    }
    assert forall|j: int| 0 <= j < stack2.len() implies #[trigger] frame_ok(
        records,
        chosen,
        seen,
        done,
        stack2,
        j,
    ) by {
        assert(frame_ok(records, chosen, seen, done, stack, j));
        let f = stack[j];
        let f2 = stack2[j];
        assert forall|s: int| 0 <= s < f2.next implies #[trigger] slot_ok(
            records,
            chosen,
            done,
            stack2,
            j,
            s,
        ) by {
            if s < f.next {
                assert(slot_ok(records, chosen, done, stack, j, s));
            }
        }
    }
    assert forall|i: int| 0 <= i < seen.len() && seen[i] && !done[i] implies #[trigger] framed(
        stack2,
        i,
    ) by {
        assert(framed(stack, i));
        let j = choose|j: int| 0 <= j < stack.len() && (#[trigger] stack[j]).node == i;
        assert(stack2[j].node == i);
    }
    assert(stack2.drop_last() =~= stack.drop_last());
    assert(stack2.last().node == stack.last().node);
    assert(stack2.last().next == stack.last().next + 1);
}

/// Leaving a record whose parents were all looked at: it is done, and listed last.
proof fn lemma_leave(
    records: Seq<CommitRecord>,
    chosen: Seq<bool>,
    seen: Seq<bool>,
    done: Seq<bool>,
    stack: Seq<Frame>,
    out: Seq<usize>,
)
    requires
        dfs_inv(records, chosen, seen, done, stack, out),
        stack.len() > 0,
        stack.last().next == records[stack.last().node as int].parent_ids@.len(),
    ensures
        dfs_inv(
            records,
            chosen,
            seen,
            done.update(stack.last().node as int, true),
            stack.drop_last(),
            out.push(stack.last().node),
        ),
        work(records, stack.drop_last()) + 1 == work(records, stack),
{
    let top = stack.len() - 1;
    let v = stack.last().node as int;
    let done2 = done.update(v, true);
    let stack2 = stack.drop_last();
    let out2 = out.push(v as usize);
    assert(frame_ok(records, chosen, seen, done, stack, top));
    assert forall|i: int, j: int| 0 <= i < j < stack2.len() implies (#[trigger] stack2[i]).node != (
    #[trigger] stack2[j]).node by {
        assert(stack[i].node != stack[j].node);
    }
    assert forall|i: int| 0 <= i < records.len() implies #[trigger] colours_ok(
        chosen,
        seen,
        done2,
        i,
    ) by {
        assert(colours_ok(chosen, seen, done, i));
    }
    // the record left is closed: each chosen parent is done
    assert forall|s: int|
        0 <= s < records[v].parent_ids@.len() && chosen[#[trigger] parent_place(
            records,
            v,
            s,
        )] implies done[parent_place(records, v, s)] by {
        assert(slot_ok(records, chosen, done, stack, top, s));
    }
    assert forall|i: int| 0 <= i < records.len() && done2[i] implies #[trigger] node_closed(
        records,
        chosen,
        done2,
        i,
    ) by {
        if i != v {
            assert(node_closed(records, chosen, done, i));
        }
        assert(colours_ok(chosen, seen, done, i));
        assert forall|s: int|
            0 <= s < records[i].parent_ids@.len() && chosen[#[trigger] parent_place(
                records,
                i,
                s,
            )] implies done2[parent_place(records, i, s)] by {
            lemma_parent_place(records, chosen, i, s);
        }
    }
    assert forall|j: int| 0 <= j < stack2.len() implies #[trigger] frame_ok(
        records,
        chosen,
        seen,
        done2,
        stack2,
        j,
    ) by {
        assert(frame_ok(records, chosen, seen, done, stack, j));
        let f = stack[j];
        assert(stack[j].node != stack[top].node);
        assert forall|s: int| 0 <= s < f.next implies #[trigger] slot_ok(
            records,
            chosen,
            done2,
            stack2,
            j,
            s,
        ) by {
            assert(slot_ok(records, chosen, done, stack, j, s));
            assert(colours_ok(chosen, seen, done, f.node as int));
            lemma_parent_place(records, chosen, f.node as int, s);
            if j == top - 1 && s == f.next - 1 {
                lemma_place_of_record(records, v);
            }
        }
    }
    assert forall|i: int| 0 <= i < seen.len() && seen[i] && !done2[i] implies #[trigger] framed(
        stack2,
        i,
    ) by {
        assert(framed(stack, i));
        let j = choose|j: int| 0 <= j < stack.len() && (#[trigger] stack[j]).node == i;
        assert(stack2[j].node == i);
    }
    // the list
    assert forall|a: int, b: int|
        0 <= a < out2.len() && 0 <= b < out2.len() && a != b implies out2[a] != out2[b] by {
        if a < out.len() {
            assert(done[out[a] as int]);
        }
        if b < out.len() {
            assert(done[out[b] as int]);
        }
    }
    assert forall|a: int| 0 <= a < out2.len() implies (#[trigger] out2[a]) < done2.len()
        && done2[out2[a] as int] by {
        if a < out.len() {
            assert(done[out[a] as int]);
        }
    }
    assert forall|i: int| 0 <= i < done2.len() && done2[i] implies #[trigger] occurs(out2, i) by {
        if i == v {
            assert(out2[out.len() as int] == v);
        } else {
            assert(occurs(out, i));
            let a = choose|a: int| 0 <= a < out.len() && (#[trigger] out[a]) == i;
            assert(out2[a] == i);
        }
    }
    assert forall|a: int, b: int|
        0 <= a < out2.len() && 0 <= b < out2.len() && #[trigger] names_parent(
            records,
            out2,
            a,
            b,
        ) implies b < a by {
        if a < out.len() && b < out.len() {
            assert(names_parent(records, out, a, b));
        } else if a < out.len() {
            // a done record does not name the record left as a parent
            let x = out[a] as int;
            assert(done[x]);
            lemma_link_slot(records, x, v);
            let s = choose|s: int|
                0 <= s < records[x].parent_ids@.len() && records[x].parent_ids@[s]
                    == records[v].id;
            lemma_place_of_record(records, v);
            assert(node_closed(records, chosen, done, x));
            assert(parent_place(records, x, s) == v);
            assert(colours_ok(chosen, seen, done, v));
        } else if b == out.len() {
            // the record left does not name itself
            lemma_link_slot(records, v, v);
            let s = choose|s: int|
                0 <= s < records[v].parent_ids@.len() && records[v].parent_ids@[s]
                    == records[v].id;
            lemma_place_of_record(records, v);
            assert(parent_place(records, v, s) == v);
            assert(colours_ok(chosen, seen, done, v));
        }
    }
}

/// A parent link between two records shows in a parent slot of the child.
proof fn lemma_link_slot(records: Seq<CommitRecord>, x: int, y: int)
    requires
        distinct_ids(records),
        0 <= x < records.len(),
        0 <= y < records.len(),
        links(records, records[x].id, records[y].id),
    ensures
        exists|s: int|
            0 <= s < records[x].parent_ids@.len() && records[x].parent_ids@[s] == records[y].id,
{
    let (i, k) = choose|i: int, k: int|
        0 <= i < records.len() && 0 <= k < records[i].parent_ids@.len() && #[trigger] records[i].id
            == records[x].id && #[trigger] records[i].parent_ids@[k] == records[y].id;
    assert(i == x);
}

/// The ids of the records that the frames from `j` upwards hold.
spec fn frame_ids(records: Seq<CommitRecord>, stack: Seq<Frame>, j: int) -> Seq<CommitId> {
    Seq::new((stack.len() - j) as nat, |t: int| records[stack[j + t].node as int].id)
}

/// A parent of the top record that is seen and not done closes a cycle: the frames
/// from its own upwards lead from it back to it.
proof fn lemma_cycle(
    records: Seq<CommitRecord>,
    chosen: Seq<bool>,
    seen: Seq<bool>,
    done: Seq<bool>,
    stack: Seq<Frame>,
    out: Seq<usize>,
    p: int,
)
    requires
        dfs_inv(records, chosen, seen, done, stack, out),
        stack.len() > 0,
        stack.last().next < records[stack.last().node as int].parent_ids@.len(),
        p == parent_place(records, stack.last().node as int, stack.last().next as int),
        0 <= p < records.len(),
        seen[p],
        !done[p],
    ensures
        on_cycle(records, chosen, p),
{
    let top = stack.len() - 1;
    let v = stack[top].node as int;
    assert(framed(stack, p));
    let j = choose|j: int| 0 <= j < stack.len() && (#[trigger] stack[j]).node == p;
    let q = frame_ids(records, stack, j).push(records[p].id);
    assert(frame_ok(records, chosen, seen, done, stack, top));
    assert(colours_ok(chosen, seen, done, v));
    lemma_parent_place(records, chosen, v, stack[top].next as int);
    assert forall|t: int| 0 <= t < q.len() - 1 implies #[trigger] step_links(records, q, t) by {
        assert(frame_ok(records, chosen, seen, done, stack, j + t));
        let f = stack[j + t];
        if j + t < top {
            assert(q[t + 1] == records[stack[j + t + 1].node as int].id);
            assert(records[f.node as int].parent_ids@[f.next - 1] == q[t + 1]);
        } else {
            assert(records[f.node as int].parent_ids@[f.next as int] == q[t + 1]);
        }
        assert(records[f.node as int].id == q[t]);
    }
    assert forall|t: int| 0 <= t < q.len() implies holds(records, #[trigger] q[t]) && chosen[place(
        records,
        q[t],
    )] by {
        if t < q.len() - 1 {
            assert(frame_ok(records, chosen, seen, done, stack, j + t));
            let x = stack[j + t].node as int;
            assert(colours_ok(chosen, seen, done, x));
            lemma_place_of_record(records, x);
        } else {
            assert(colours_ok(chosen, seen, done, p));
            lemma_place_of_record(records, p);
        }
    }
    assert(chosen_chain(records, chosen, q));
}

/// Lists the chosen records so that each stands after every parent it names.
///
/// `members` lists the chosen places; the search starts from them in turn. Where a
/// chosen record is its own ancestor no such order exists, and the search fails
/// with the place of one such record.
pub fn parents_first_order(graph: &CommitGraph, chosen: &Vec<bool>, members: &Vec<usize>) -> (r:
    Result<Vec<usize>, usize>)
    requires
        graph.wf(),
        chosen@.len() == graph@.len(),
        parents_held(graph@, chosen@),
        lists_marked(chosen@, members@),
    ensures
        match r {
            Ok(out) => lists_marked(chosen@, out@) && parents_first(graph@, out@),
            Err(v) => v < graph@.len() && chosen@[v as int] && on_cycle(graph@, chosen@, v as int),
        },
{
    let n: usize = graph.len();
    let mut seen: Vec<bool> = clear_marks(n);
    let mut done: Vec<bool> = clear_marks(n);
    let mut stack: Vec<Frame> = Vec::new();
    let mut out: Vec<usize> = Vec::new();
    let mut m: usize = 0;
    proof {
        assert forall|i: int| 0 <= i < n implies #[trigger] colours_ok(chosen@, seen@, done@, i) by {}
        assert forall|i: int| 0 <= i < n && done@[i] implies #[trigger] occurs(out@, i) by {}
    }
    while stack.len() > 0 || m < members.len()
        invariant
            graph.wf(),
            n == graph@.len(),
            m <= members@.len(),
            lists_marked(chosen@, members@),
            dfs_inv(graph@, chosen@, seen@, done@, stack@, out@),
            forall|r: int| 0 <= r < m ==> seen@[(#[trigger] members@[r]) as int],
        decreases unset_count(seen@), (members@.len() - m) + work(graph@, stack@),
    {
        if stack.len() == 0 {
            let v: usize = members[m];
            m += 1;
            if !seen[v] {
                proof {
                    lemma_enter(graph@, chosen@, seen@, done@, stack@, out@, v as int);
                    lemma_set_lowers_count(seen@, v as int);
                }
                seen.set(v, true);
                stack.push(Frame { node: v, next: 0 });
            }
        } else {
            let top: usize = stack.len() - 1;
            let v: usize = stack[top].node;
            let k: usize = stack[top].next;
            proof {
                assert(frame_ok(graph@, chosen@, seen@, done@, stack@, top as int));
                assert(colours_ok(chosen@, seen@, done@, v as int));
            }
            let record = graph.record_at(v);
            if k == record.parent_ids.len() {
                proof {
                    lemma_leave(graph@, chosen@, seen@, done@, stack@, out@);
                }
                stack.pop();
                done.set(v, true);
                out.push(v);
            } else {
                let parent: CommitId = record.parent_ids[k];
                proof {
                    lemma_parent_place(graph@, chosen@, v as int, k as int);
                }
                let p: usize = match graph.position(parent) {
                    Some(p) => p,
                    None => {
                        proof {
                            assert(false);
                        }
                        return Err(v);
                    },
                };
                if chosen[p] && !seen[p] {
                    proof {
                        lemma_enter(graph@, chosen@, seen@, done@, stack@, out@, p as int);
                        lemma_set_lowers_count(seen@, p as int);
                    }
                    seen.set(p, true);
                    stack.set(top, Frame { node: v, next: k + 1 });
                    stack.push(Frame { node: p, next: 0 });
                } else if chosen[p] && !done[p] {
                    proof {
                        lemma_cycle(graph@, chosen@, seen@, done@, stack@, out@, p as int);
                    }
                    return Err(p);
                } else {
                    proof {
                        lemma_skip(graph@, chosen@, seen@, done@, stack@, out@);
                    }
                    stack.set(top, Frame { node: v, next: k + 1 });
                }
            }
        }
    }
    proof {
        assert forall|i: int| 0 <= i < n implies done@[i] == chosen@[i] by {
            assert(colours_ok(chosen@, seen@, done@, i));
            if chosen@[i] {
                assert(occurs(members@, i));
                let r = choose|r: int| 0 <= r < members@.len() && (#[trigger] members@[r]) == i;
                assert(seen@[members@[r] as int]);
                if !done@[i] {
                    assert(framed(stack@, i));
                }
            }
        }
        assert(done@ =~= chosen@);
    }
    Ok(out)
}

} // verus!
