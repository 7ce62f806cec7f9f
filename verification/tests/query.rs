use revlog::commit::{CommitId, CommitRecord, Signature};
use revlog::error::{DiffError, GraphError};
use revlog::filter::FilterSpec;
use revlog::graph::CommitGraph;
use revlog::load::Loader;
use revlog::query::{keep, run, select, WalkConfig};
use revlog::resolve::RevisionSet;
use revlog::walk::SortMode;

fn id(n: u32) -> CommitId {
    CommitId::new(0, n)
}

fn ids(ns: &[u32]) -> Vec<CommitId> {
    ns.iter().map(|n| id(*n)).collect()
}

fn commit(n: u32, seconds: i64, parents: &[u32]) -> CommitRecord {
    let who = Signature {
        name: Some(format!("author{}", n)),
        email: None,
        seconds,
        offset_minutes: 60,
    };
    CommitRecord {
        id: id(n),
        author: who.clone(),
        committer: who,
        message: Some(format!("message {}", n)),
        parent_ids: parents.iter().map(|p| id(*p)).collect(),
    }
}

const A: u32 = 1;
const B: u32 = 2;
const C: u32 = 3;
const D: u32 = 4;

fn records() -> Vec<CommitRecord> {
    vec![commit(A, 10, &[]), commit(B, 20, &[A]), commit(C, 40, &[B, D]), commit(D, 30, &[])]
}

/// A (root) <- B <- C (merge of B and D), D (root); places A=0, B=1, C=2, D=3.
fn graph() -> CommitGraph {
    let mut g = CommitGraph::new();
    for r in records() {
        g.insert(r);
    }
    g
}

type Table = Vec<Vec<Result<bool, DiffError>>>;

/// Only B touches docs/: A's tree holds none of it, C differs from B not at
/// all there, and from D by what B added.
fn docs_table() -> Table {
    vec![vec![Ok(false)], vec![Ok(true)], vec![Ok(false), Ok(true)], vec![Ok(false)]]
}

fn config(order: SortMode) -> WalkConfig {
    let mut c = WalkConfig::new();
    c.order = order;
    c
}

fn set(push: &[u32], hide: &[u32]) -> RevisionSet {
    RevisionSet { push: ids(push), hide: ids(hide) }
}

#[test]
fn plain_configuration() {
    let c = WalkConfig::new();
    assert_eq!(c.order, SortMode::Unordered);
    assert!(!c.reversed);
    assert_eq!(c.skip, None);
    assert_eq!(c.limit, None);
}

#[test]
fn merges_only_keeps_the_merge() {
    let mut filter = FilterSpec::new();
    filter.min_parents = 2;
    let out = run(&graph(), &set(&[C], &[]), &config(SortMode::Topological), &filter, &vec![]);
    assert_eq!(out, Ok(ids(&[C])));
}

#[test]
fn path_filter_keeps_only_what_touches_the_path() {
    let mut filter = FilterSpec::new();
    filter.path_patterns = vec![String::from("docs/")];
    let g = graph();
    let out = run(&g, &set(&[C], &[]), &config(SortMode::Time), &filter, &docs_table());
    assert_eq!(out, Ok(ids(&[B])));
    assert_eq!(keep(&g, &filter, &docs_table(), &ids(&[A, B, C])), ids(&[B]));
}

#[test]
fn path_filter_without_answers_keeps_nothing() {
    let mut filter = FilterSpec::new();
    filter.path_patterns = vec![String::from("docs/")];
    let out = run(&graph(), &set(&[C], &[]), &config(SortMode::Time), &filter, &vec![]);
    assert_eq!(out, Ok(vec![]));
}

#[test]
fn paging_counts_kept_commits_only() {
    let mut filter = FilterSpec::new();
    filter.max_parents = Some(2);
    let mut c = config(SortMode::Time);
    c.skip = Some(1);
    c.limit = Some(1);
    // C is a merge and is dropped; of D, B, A the second is B.
    let out = run(&graph(), &set(&[C], &[]), &c, &filter, &vec![]);
    assert_eq!(out, Ok(ids(&[B])));
    let g = graph();
    assert_eq!(select(&g, &filter, &vec![], &ids(&[C, D, B, A]), Some(1), Some(1)), ids(&[B]));
    assert_eq!(select(&g, &filter, &vec![], &ids(&[C, D, B, A]), None, Some(2)), ids(&[D, B]));
}

#[test]
fn skip_and_limit_over_a_chain() {
    let mut g = CommitGraph::new();
    g.insert(commit(C, 30, &[B]));
    g.insert(commit(B, 20, &[A]));
    g.insert(commit(A, 10, &[]));
    let mut c = config(SortMode::Time);
    c.skip = Some(1);
    c.limit = Some(1);
    assert_eq!(run(&g, &set(&[C], &[]), &c, &FilterSpec::new(), &vec![]), Ok(ids(&[B])));
}

#[test]
fn keep_drops_ids_without_a_record() {
    let g = graph();
    assert_eq!(keep(&g, &FilterSpec::new(), &vec![], &ids(&[A, 99, C])), ids(&[A, C]));
}

#[test]
fn author_filter_through_the_query() {
    let mut filter = FilterSpec::new();
    filter.author = Some(String::from("author2"));
    let out = run(&graph(), &set(&[C], &[]), &config(SortMode::Unordered), &filter, &vec![]);
    assert_eq!(out, Ok(ids(&[B])));
}

#[test]
fn query_fails_as_the_walk_does() {
    let mut g = CommitGraph::new();
    g.insert(commit(B, 20, &[A]));
    let out = run(&g, &set(&[B], &[]), &config(SortMode::Time), &FilterSpec::new(), &vec![]);
    assert_eq!(out, Err(GraphError::Missing(id(A))));
}

#[test]
fn reversing_twice_gives_the_walk_back() {
    let g = graph();
    for order in [SortMode::Time, SortMode::Topological] {
        let forth = run(&g, &set(&[C], &[]), &config(order), &FilterSpec::new(), &vec![]).unwrap();
        let mut c = config(order);
        c.reversed = true;
        let mut back = run(&g, &set(&[C], &[]), &c, &FilterSpec::new(), &vec![]).unwrap();
        back.reverse();
        assert_eq!(back, forth);
    }
}

#[test]
fn loader_asks_for_what_the_points_reach() {
    let all = records();
    let mut loader = Loader::new(&set(&[C], &[B]));
    let mut asked = Vec::new();
    while let Some(wanted) = loader.next_wanted() {
        asked.push(wanted);
        let record = all.iter().find(|r| r.id == wanted).unwrap().clone();
        assert!(loader.supply(record));
    }
    asked.sort_by_key(|c| c.low);
    assert_eq!(asked, ids(&[A, B, C, D]));
    let g = loader.into_graph();
    assert_eq!(g.len(), 4);
    let out = run(&g, &set(&[C], &[B]), &config(SortMode::Time), &FilterSpec::new(), &vec![]);
    assert_eq!(out, Ok(ids(&[C, D])));
}

#[test]
fn loader_takes_a_record_once() {
    let mut loader = Loader::new(&set(&[B], &[]));
    assert_eq!(loader.next_wanted(), Some(id(B)));
    assert_eq!(loader.next_wanted(), Some(id(B)));
    assert!(loader.supply(commit(B, 20, &[A])));
    assert!(!loader.supply(commit(B, 21, &[])));
    assert_eq!(loader.next_wanted(), Some(id(A)));
    assert!(loader.supply(commit(A, 10, &[])));
    assert_eq!(loader.next_wanted(), None);
    assert_eq!(loader.into_graph().len(), 2);
}

#[test]
fn loader_left_early_makes_the_walk_fail() {
    let mut loader = Loader::new(&set(&[B], &[]));
    assert_eq!(loader.next_wanted(), Some(id(B)));
    loader.supply(commit(B, 20, &[A]));
    let g = loader.into_graph();
    let out = run(&g, &set(&[B], &[]), &config(SortMode::Unordered), &FilterSpec::new(), &vec![]);
    assert_eq!(out, Err(GraphError::Missing(id(A))));
}

#[test]
fn loader_with_no_points_wants_nothing() {
    let mut loader = Loader::new(&set(&[], &[]));
    assert_eq!(loader.next_wanted(), None);
    assert_eq!(loader.into_graph().len(), 0);
}

#[test]
fn loader_drops_what_was_not_asked_for() {
    let mut loader = Loader::new(&set(&[B], &[]));
    assert!(!loader.supply(commit(D, 30, &[])));
    assert_eq!(loader.next_wanted(), Some(id(B)));
    assert!(!loader.supply(commit(A, 10, &[])));
    assert!(loader.supply(commit(B, 20, &[A])));
    assert_eq!(loader.next_wanted(), Some(id(A)));
}
