use revlog::commit::{CommitId, CommitRecord, Signature};
use revlog::error::GraphError;
use revlog::graph::CommitGraph;
use revlog::walk::{walk, SortMode};

fn id(n: u32) -> CommitId {
    CommitId::new(0, n)
}

fn signature(seconds: i64) -> Signature {
    Signature {
        name: Some(String::from("Ada")),
        email: Some(String::from("ada@example.org")),
        seconds,
        offset_minutes: 0,
    }
}

fn commit(n: u32, seconds: i64, parents: &[u32]) -> CommitRecord {
    CommitRecord {
        id: id(n),
        author: signature(seconds),
        committer: signature(seconds),
        message: Some(format!("commit {}", n)),
        parent_ids: parents.iter().map(|p| id(*p)).collect(),
    }
}

const A: u32 = 1;
const B: u32 = 2;
const C: u32 = 3;
const D: u32 = 4;

/// A (root) <- B <- C (merge of B and D), D (root).
fn diamondless() -> CommitGraph {
    let mut g = CommitGraph::new();
    assert!(g.insert(commit(C, 40, &[B, D])));
    assert!(g.insert(commit(B, 20, &[A])));
    assert!(g.insert(commit(D, 30, &[])));
    assert!(g.insert(commit(A, 10, &[])));
    g
}

fn pos(seq: &[CommitId], n: u32) -> usize {
    seq.iter().position(|c| *c == id(n)).unwrap()
}

#[test]
fn topological_walk_from_merge_lists_all_four() {
    let g = diamondless();
    let seq = walk(&g, &vec![id(C)], &vec![], SortMode::Topological, false).unwrap();
    assert_eq!(seq.len(), 4);
    assert_eq!(seq[0], id(C));
    assert!(pos(&seq, C) < pos(&seq, B));
    assert!(pos(&seq, C) < pos(&seq, D));
    assert!(pos(&seq, B) < pos(&seq, A));
}

#[test]
fn topological_walk_reversed_puts_parents_first() {
    let g = diamondless();
    let seq = walk(&g, &vec![id(C)], &vec![], SortMode::Topological, true).unwrap();
    assert_eq!(seq.len(), 4);
    assert_eq!(seq[3], id(C));
    assert!(pos(&seq, A) < pos(&seq, B));
    assert!(pos(&seq, B) < pos(&seq, C));
    assert!(pos(&seq, D) < pos(&seq, C));
}

#[test]
fn time_walk_is_latest_first() {
    let g = diamondless();
    let seq = walk(&g, &vec![id(C)], &vec![], SortMode::Time, false).unwrap();
    assert_eq!(seq, vec![id(C), id(D), id(B), id(A)]);
    let back = walk(&g, &vec![id(C)], &vec![], SortMode::Time, true).unwrap();
    assert_eq!(back, vec![id(A), id(B), id(D), id(C)]);
}

#[test]
fn time_ties_go_to_the_smaller_id() {
    let mut g = CommitGraph::new();
    g.insert(commit(9, 5, &[7, 8]));
    g.insert(commit(8, 1, &[]));
    g.insert(commit(7, 1, &[]));
    let seq = walk(&g, &vec![id(9)], &vec![], SortMode::Time, false).unwrap();
    assert_eq!(seq, vec![id(9), id(7), id(8)]);
}

#[test]
fn hiding_a_commit_hides_its_ancestors() {
    let g = diamondless();
    let mut seq = walk(&g, &vec![id(C)], &vec![id(B)], SortMode::Unordered, false).unwrap();
    seq.sort_by_key(|c| c.low);
    assert_eq!(seq, vec![id(C), id(D)]);
}

#[test]
fn hidden_ancestor_stays_hidden_on_another_path() {
    // E names A and C; hiding B takes A out although E reaches A directly.
    let mut g = diamondless();
    g.insert(commit(5, 50, &[A, C]));
    let seq = walk(&g, &vec![id(5)], &vec![id(B)], SortMode::Time, false).unwrap();
    assert_eq!(seq, vec![id(5), id(C), id(D)]);
}

#[test]
fn every_commit_comes_once() {
    // Two paths lead to A.
    let mut g = CommitGraph::new();
    g.insert(commit(4, 4, &[2, 3]));
    g.insert(commit(3, 3, &[1]));
    g.insert(commit(2, 2, &[1]));
    g.insert(commit(1, 1, &[]));
    for mode in [SortMode::Unordered, SortMode::Time, SortMode::Topological] {
        let seq = walk(&g, &vec![id(4), id(2)], &vec![], mode, false).unwrap();
        assert_eq!(seq.len(), 4);
        for n in 1..=4 {
            assert_eq!(seq.iter().filter(|c| **c == id(n)).count(), 1);
        }
    }
}

#[test]
fn missing_parent_ends_the_walk() {
    let mut g = CommitGraph::new();
    g.insert(commit(2, 2, &[1]));
    let r = walk(&g, &vec![id(2)], &vec![], SortMode::Unordered, false);
    assert_eq!(r, Err(GraphError::Missing(id(1))));
}

#[test]
fn missing_start_ends_the_walk() {
    let g = diamondless();
    let r = walk(&g, &vec![id(77)], &vec![], SortMode::Time, false);
    assert_eq!(r, Err(GraphError::Missing(id(77))));
    let r = walk(&g, &vec![id(C)], &vec![id(78)], SortMode::Time, false);
    assert_eq!(r, Err(GraphError::Missing(id(78))));
}

#[test]
fn cycle_fails_topological_order_only() {
    let mut g = CommitGraph::new();
    g.insert(commit(1, 1, &[2]));
    g.insert(commit(2, 2, &[1]));
    let r = walk(&g, &vec![id(1)], &vec![], SortMode::Topological, false);
    assert!(matches!(r, Err(GraphError::Cycle(_))));
    let seq = walk(&g, &vec![id(1)], &vec![], SortMode::Time, false).unwrap();
    assert_eq!(seq, vec![id(2), id(1)]);
}

#[test]
fn empty_start_selects_nothing() {
    let g = diamondless();
    let seq = walk(&g, &vec![], &vec![], SortMode::Topological, false).unwrap();
    assert!(seq.is_empty());
}

#[test]
fn insert_refuses_a_second_record_of_an_id() {
    let mut g = diamondless();
    assert!(!g.insert(commit(A, 99, &[B])));
    assert_eq!(g.len(), 4);
    assert_eq!(g.get(id(A)).unwrap().parent_count(), 0);
    assert!(g.get(id(42)).is_none());
    assert_eq!(g.position(id(C)), Some(0));
}

#[test]
fn ids_are_ordered_by_their_upper_bits_first() {
    let a = CommitId::new(1, 9);
    let b = CommitId::new(2, 0);
    let c = CommitId::new(2, 1);
    assert!(a.is_before(&b));
    assert!(b.is_before(&c));
    assert!(!c.is_before(&b));
    assert!(!b.is_before(&b));
    assert_eq!(CommitId::new(3, 4), CommitId { high: 3, low: 4 });
}

#[test]
fn topological_order_holds_against_the_clock() {
    // The parent is newer than its child.
    let mut g = CommitGraph::new();
    g.insert(commit(1, 100, &[]));
    g.insert(commit(2, 50, &[1]));
    g.insert(commit(3, 10, &[2]));
    let seq = walk(&g, &vec![id(1), id(3), id(2)], &vec![], SortMode::Topological, false).unwrap();
    assert_eq!(seq, vec![id(3), id(2), id(1)]);
    let seq = walk(&g, &vec![id(3)], &vec![], SortMode::Time, false).unwrap();
    assert_eq!(seq, vec![id(1), id(2), id(3)]);
}

#[test]
fn self_parent_is_a_cycle() {
    let mut g = CommitGraph::new();
    g.insert(commit(1, 1, &[1]));
    let r = walk(&g, &vec![id(1)], &vec![], SortMode::Topological, false);
    assert_eq!(r, Err(GraphError::Cycle(id(1))));
}

#[test]
fn hidden_cycle_does_not_fail_the_walk() {
    let mut g = CommitGraph::new();
    g.insert(commit(3, 3, &[1]));
    g.insert(commit(1, 1, &[2]));
    g.insert(commit(2, 2, &[1]));
    let seq = walk(&g, &vec![id(3)], &vec![id(1)], SortMode::Topological, false).unwrap();
    assert_eq!(seq, vec![id(3)]);
}

#[test]
fn ids_sharing_their_upper_bits_are_told_apart() {
    let mut g = CommitGraph::new();
    let make = |high: u128, low: u32, parents: Vec<CommitId>| CommitRecord {
        id: CommitId::new(high, low),
        author: signature(0),
        committer: signature(0),
        message: None,
        parent_ids: parents,
    };
    assert!(g.insert(make(5, 1, vec![])));
    assert!(g.insert(make(5, 2, vec![CommitId::new(5, 1)])));
    assert!(g.insert(make(6, 1, vec![CommitId::new(5, 2)])));
    assert!(!g.insert(make(5, 2, vec![])));
    assert_eq!(g.position(CommitId::new(5, 1)), Some(0));
    assert_eq!(g.position(CommitId::new(5, 2)), Some(1));
    assert_eq!(g.position(CommitId::new(6, 1)), Some(2));
    assert_eq!(g.position(CommitId::new(5, 3)), None);
    assert_eq!(g.position(CommitId::new(6, 2)), None);
    assert_eq!(g.record_at(1).id, CommitId::new(5, 2));
    let seq = walk(&g, &vec![CommitId::new(6, 1)], &vec![], SortMode::Topological, false).unwrap();
    assert_eq!(seq, vec![CommitId::new(6, 1), CommitId::new(5, 2), CommitId::new(5, 1)]);
}
