//! Ordering commits by time: the latest first, and among commits of one time
//! the one with the smaller id first.

use crate::commit::CommitRecord;
use crate::graph::{distinct_ids, CommitGraph};
use vstd::prelude::*;

verus! {

/// The record at `x` stands before the one at `y` in time order.
pub open spec fn comes_first(records: Seq<CommitRecord>, x: int, y: int) -> bool {
    records[x].time() > records[y].time() || (records[x].time() == records[y].time()
        && records[x].id.precedes(records[y].id))
}

/// `out` lists places in time order.
pub open spec fn time_sorted(records: Seq<CommitRecord>, out: Seq<usize>) -> bool {
    forall|a: int, b: int|
        0 <= a < b < out.len() ==> comes_first(records, (#[trigger] out[a]) as int, (
        #[trigger] out[b]) as int)
}

/// `s` lists places of the graph, none of them twice.
pub open spec fn places(records: Seq<CommitRecord>, s: Seq<usize>) -> bool {
    &&& s.no_duplicates()
    &&& forall|a: int| 0 <= a < s.len() ==> (#[trigger] s[a]) < records.len()
}

/// Of two records at different places, one comes first.
proof fn lemma_one_comes_first(records: Seq<CommitRecord>, x: int, y: int)
    requires
        distinct_ids(records),
        0 <= x < records.len(),
        0 <= y < records.len(),
        x != y,
    ensures
        comes_first(records, x, y) || comes_first(records, y, x),
{
    assert(records[x].id != records[y].id);
}

/// Whether the record at `x` stands before the one at `y` in time order.
fn is_first(graph: &CommitGraph, x: usize, y: usize) -> (b: bool)
    requires
        x < graph@.len(),
        y < graph@.len(),
    ensures
        b == comes_first(graph@, x as int, y as int),
{
    let rx = graph.record_at(x);
    let ry = graph.record_at(y);
    rx.committer.seconds > ry.committer.seconds || (rx.committer.seconds == ry.committer.seconds
        && rx.id.is_before(&ry.id))
}

/// Merges two lists in time order into one.
fn merge(graph: &CommitGraph, left: &Vec<usize>, right: &Vec<usize>) -> (out: Vec<usize>)
    requires
        graph.wf(),
        places(graph@, left@),
        places(graph@, right@),
        time_sorted(graph@, left@),
        time_sorted(graph@, right@),
        forall|a: int, b: int|
            0 <= a < left@.len() && 0 <= b < right@.len() ==> left@[a] != right@[b],
    ensures
        places(graph@, out@),
        time_sorted(graph@, out@),
        out@.len() == left@.len() + right@.len(),
        forall|x: usize| out@.contains(x) <==> left@.contains(x) || right@.contains(x),
{
    let mut out: Vec<usize> = Vec::new();
    let mut i: usize = 0;
    let mut j: usize = 0;
    while i < left.len() || j < right.len()
        invariant
            graph.wf(),
            places(graph@, left@),
            places(graph@, right@),
            time_sorted(graph@, left@),
            time_sorted(graph@, right@),
            forall|a: int, b: int|
                0 <= a < left@.len() && 0 <= b < right@.len() ==> left@[a] != right@[b],
            i <= left@.len(),
            j <= right@.len(),
            out@.len() == i + j,
            forall|t: int|
                0 <= t < out@.len() ==> (exists|a: int| 0 <= a < i && left@[a] == #[trigger] out@[t])
                    || (exists|b: int| 0 <= b < j && right@[b] == out@[t]),
            forall|a: int| 0 <= a < i ==> out@.contains(#[trigger] left@[a]),
            forall|b: int| 0 <= b < j ==> out@.contains(#[trigger] right@[b]),
            places(graph@, out@),
            time_sorted(graph@, out@),
            forall|t: int, a: int|
                0 <= t < out@.len() && i <= a < left@.len() ==> comes_first(
                    graph@,
                    (#[trigger] out@[t]) as int,
                    (#[trigger] left@[a]) as int,
                ),
            forall|t: int, b: int|
                0 <= t < out@.len() && j <= b < right@.len() ==> comes_first(
                    graph@,
                    (#[trigger] out@[t]) as int,
                    (#[trigger] right@[b]) as int,
                ),
        decreases left@.len() - i + right@.len() - j,
    {
        let take_left: bool = if j == right.len() {
            true
        } else if i == left.len() {
            false
        } else {
            is_first(graph, left[i], right[j])
        };
        let ghost before = out@;
        let x: usize = if take_left {
            left[i]
        } else {
            right[j]
        };
        proof {
            if !take_left && i < left@.len() {
                lemma_one_comes_first(graph@, left@[i as int] as int, right@[j as int] as int);
            }
            // what is taken is not listed yet
            assert forall|t: int| 0 <= t < before.len() implies before[t] != x by {
                if exists|a: int| 0 <= a < i && left@[a] == before[t] {
                    let a = choose|a: int| 0 <= a < i && left@[a] == before[t];
                    assert(left@[a] != x);
                } else {
                    let b = choose|b: int| 0 <= b < j && right@[b] == before[t];
                    assert(right@[b] != x);
                }
            }
        }
        out.push(x);
        if take_left {
            i += 1;
        } else {
            j += 1;
        }
        proof {
            assert forall|t: int| 0 <= t < out@.len() implies (exists|a: int|
                0 <= a < i && left@[a] == #[trigger] out@[t]) || (exists|b: int|
                0 <= b < j && right@[b] == out@[t]) by {
                if t < before.len() {
                    assert(out@[t] == before[t]);
                    if exists|a: int| 0 <= a < i && left@[a] == before[t] {
                    } else {
                        let b = choose|b: int| 0 <= b < j && right@[b] == before[t];
                        assert(right@[b] == out@[t]);
                    }
                } else if take_left {
                    assert(left@[i - 1] == out@[t]);
                } else {
                    assert(right@[j - 1] == out@[t]);
                }
            }
            assert forall|a: int| 0 <= a < i implies out@.contains(#[trigger] left@[a]) by {
                if take_left && a == i - 1 {
                    assert(out@[before.len() as int] == left@[a]);
                } else {
                    assert(before.contains(left@[a]));
                    let t = choose|t: int| 0 <= t < before.len() && before[t] == left@[a];
                    assert(out@[t] == left@[a]);
                }
            }
            assert forall|b: int| 0 <= b < j implies out@.contains(#[trigger] right@[b]) by {
                if !take_left && b == j - 1 {
                    assert(out@[before.len() as int] == right@[b]);
                } else {
                    assert(before.contains(right@[b]));
                    let t = choose|t: int| 0 <= t < before.len() && before[t] == right@[b];
                    assert(out@[t] == right@[b]);
                }
            }
            assert forall|a: int, b: int| 0 <= a < b < out@.len() implies comes_first(
                graph@,
                (#[trigger] out@[a]) as int,
                (#[trigger] out@[b]) as int,
            ) by {
                if b < before.len() {
                    assert(out@[a] == before[a] && out@[b] == before[b]);
                } else {
                    assert(out@[a] == before[a]);
                }
            }
        }
    }
    proof {
        assert forall|x: usize| out@.contains(x) <==> left@.contains(x) || right@.contains(x) by {
            if out@.contains(x) {
                let t = choose|t: int| 0 <= t < out@.len() && out@[t] == x;
                if exists|a: int| 0 <= a < i && left@[a] == out@[t] {
                    let a = choose|a: int| 0 <= a < i && left@[a] == out@[t];
                    assert(left@[a] == x);
                } else {
                    let b = choose|b: int| 0 <= b < j && right@[b] == out@[t];
                    assert(right@[b] == x);
                }
            }
            if left@.contains(x) {
                let a = choose|a: int| 0 <= a < left@.len() && left@[a] == x;
                assert(out@.contains(left@[a]));
            }
            if right@.contains(x) {
                let b = choose|b: int| 0 <= b < right@.len() && right@[b] == x;
                assert(out@.contains(right@[b]));
            }
        }
    }
    out
}

/// Copies the part of `v` from `from` to `to`.
fn slice_of(v: &Vec<usize>, from: usize, to: usize) -> (part: Vec<usize>)
    requires
        from <= to <= v@.len(),
    ensures
        part@ == v@.subrange(from as int, to as int),
{
    let mut part: Vec<usize> = Vec::new();
    let mut i: usize = from;
    while i < to
        invariant
            from <= i <= to,
            to <= v@.len(),
            part@ == v@.subrange(from as int, i as int),
        decreases to - i,
    {
        part.push(v[i]);
        i += 1;
        assert(part@ =~= v@.subrange(from as int, i as int));
    }
    part
}

/// Puts a list of places in time order: the same places, each once, the latest
/// record first and, among records of one time, the smaller id first.
pub fn sort_by_time(graph: &CommitGraph, list: &Vec<usize>) -> (out: Vec<usize>)
    requires
        graph.wf(),
        places(graph@, list@),
    ensures
        places(graph@, out@),
        time_sorted(graph@, out@),
        out@.len() == list@.len(),
        forall|x: usize| out@.contains(x) <==> list@.contains(x),
    decreases list@.len(),
{
    let n: usize = list.len();
    if n <= 1 {
        let same: Vec<usize> = slice_of(list, 0, n);
        assert(same@ =~= list@);
        return same;
    }
    let mid: usize = n / 2;
    let left: Vec<usize> = slice_of(list, 0, mid);
    let right: Vec<usize> = slice_of(list, mid, n);
    let sorted_left: Vec<usize> = sort_by_time(graph, &left);
    let sorted_right: Vec<usize> = sort_by_time(graph, &right);
    proof {
        assert forall|a: int, b: int|
            0 <= a < sorted_left@.len() && 0 <= b < sorted_right@.len() implies sorted_left@[a]
            != sorted_right@[b] by {
            assert(sorted_left@.contains(sorted_left@[a]));
            assert(sorted_right@.contains(sorted_right@[b]));
            let x = choose|x: int| 0 <= x < left@.len() && left@[x] == sorted_left@[a];
            let y = choose|y: int| 0 <= y < right@.len() && right@[y] == sorted_right@[b];
            assert(list@[x] == left@[x]);
            assert(list@[mid + y] == right@[y]);
        }
    }
    let out: Vec<usize> = merge(graph, &sorted_left, &sorted_right);
    proof {
        assert forall|x: usize| out@.contains(x) <==> list@.contains(x) by {
            if left@.contains(x) {
                let a = choose|a: int| 0 <= a < left@.len() && left@[a] == x;
                assert(list@[a] == x);
            }
            if right@.contains(x) {
                let b = choose|b: int| 0 <= b < right@.len() && right@[b] == x;
                assert(list@[mid + b] == x);
            }
            if list@.contains(x) {
                let t = choose|t: int| 0 <= t < list@.len() && list@[t] == x;
                if t < mid {
                    assert(left@[t] == x);
                } else {
                    assert(right@[t - mid] == x);
                }
            }
        }
    }
    out
}

} // verus!
