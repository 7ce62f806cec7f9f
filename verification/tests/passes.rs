use revlog::commit::{CommitId, CommitRecord, Signature};
use revlog::error::GraphError;
use revlog::graph::CommitGraph;
use revlog::reach::{clear_marks, mark_ancestors};
use revlog::timeline::sort_by_time;
use revlog::topo::parents_first_order;

fn id(n: u32) -> CommitId {
    CommitId::new(0, n)
}

fn commit(n: u32, seconds: i64, parents: &[u32]) -> CommitRecord {
    let who = Signature { name: None, email: None, seconds, offset_minutes: 0 };
    CommitRecord {
        id: id(n),
        author: who.clone(),
        committer: who,
        message: None,
        parent_ids: parents.iter().map(|p| id(*p)).collect(),
    }
}

/// Places: 0 = commit 1 (root), 1 = commit 2 (on 1), 2 = commit 3 (on 2 and 4), 3 = commit 4 (root),
/// 4 = commit 5 (root, apart).
fn graph() -> CommitGraph {
    let mut g = CommitGraph::new();
    g.insert(commit(1, 10, &[]));
    g.insert(commit(2, 20, &[1]));
    g.insert(commit(3, 40, &[2, 4]));
    g.insert(commit(4, 30, &[]));
    g.insert(commit(5, 50, &[]));
    g
}

#[test]
fn marks_are_cleared() {
    assert_eq!(clear_marks(3), vec![false, false, false]);
    assert!(clear_marks(0).is_empty());
}

#[test]
fn marking_finds_the_ancestors() {
    let g = graph();
    let (marks, mut met) = mark_ancestors(&g, &vec![id(2)]).unwrap();
    assert_eq!(marks, vec![true, true, false, false, false]);
    met.sort();
    assert_eq!(met, vec![0, 1]);
    let (marks, mut met) = mark_ancestors(&g, &vec![id(3), id(1)]).unwrap();
    assert_eq!(marks, vec![true, true, true, true, false]);
    met.sort();
    assert_eq!(met, vec![0, 1, 2, 3]);
    let (marks, met) = mark_ancestors(&g, &vec![]).unwrap();
    assert_eq!(marks, vec![false; 5]);
    assert!(met.is_empty());
}

#[test]
fn marking_stops_at_an_id_without_record() {
    let mut g = graph();
    g.insert(commit(6, 60, &[5, 7]));
    assert_eq!(mark_ancestors(&g, &vec![id(6)]).err(), Some(GraphError::Missing(id(7))));
    assert_eq!(mark_ancestors(&g, &vec![id(9)]).err(), Some(GraphError::Missing(id(9))));
}

#[test]
fn sorting_by_time_puts_the_latest_first() {
    let g = graph();
    assert_eq!(sort_by_time(&g, &vec![0, 1, 2, 3, 4]), vec![4, 2, 3, 1, 0]);
    assert_eq!(sort_by_time(&g, &vec![3, 0]), vec![3, 0]);
    assert_eq!(sort_by_time(&g, &vec![1]), vec![1]);
    assert_eq!(sort_by_time(&g, &vec![]), Vec::<usize>::new());
}

#[test]
fn parents_come_first_in_the_search_order() {
    let g = graph();
    let chosen = vec![true, true, true, true, false];
    let out = parents_first_order(&g, &chosen, &vec![2, 0, 1, 3]).unwrap();
    assert_eq!(out.len(), 4);
    let at = |p: usize| out.iter().position(|x| *x == p).unwrap();
    assert!(at(0) < at(1));
    assert!(at(1) < at(2));
    assert!(at(3) < at(2));
}

#[test]
fn parents_that_are_not_chosen_are_passed_over() {
    let g = graph();
    let chosen = vec![false, true, true, false, false];
    let out = parents_first_order(&g, &chosen, &vec![1, 2]).unwrap();
    assert_eq!(out, vec![1, 2]);
}

#[test]
fn search_finds_a_cycle() {
    let mut g = CommitGraph::new();
    g.insert(commit(1, 1, &[3]));
    g.insert(commit(2, 2, &[1]));
    g.insert(commit(3, 3, &[2]));
    let r = parents_first_order(&g, &vec![true, true, true], &vec![0, 1, 2]);
    assert!(r.is_err());
}
