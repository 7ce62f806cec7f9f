use revlog::commit::CommitId;
use revlog::error::ResolutionError;
use revlog::resolve::{Reply, Request, Resolver, RevisionSet};

fn id(n: u32) -> CommitId {
    CommitId::new(7, n)
}

fn exprs(texts: &[&str]) -> Vec<String> {
    texts.iter().map(|t| String::from(*t)).collect()
}

#[test]
fn no_expression_asks_for_the_head() {
    let r = Resolver::new(vec![]);
    assert_eq!(r.pending(), Some(Request::Head));
    let r = r.supply(Reply::Commit(id(1))).unwrap();
    assert_eq!(r.pending(), None);
    assert_eq!(r.finish(), Some(RevisionSet { push: vec![id(1)], hide: vec![] }));
}

#[test]
fn plain_expression_is_pushed() {
    let r = Resolver::new(exprs(&["main"]));
    assert_eq!(r.pending(), Some(Request::Revision(String::from("main"))));
    let r = r.supply(Reply::Commit(id(1))).unwrap();
    assert_eq!(r.pending(), None);
    assert_eq!(r.finish(), Some(RevisionSet { push: vec![id(1)], hide: vec![] }));
}

#[test]
fn exclusion_is_hidden_and_never_pushed() {
    let r = Resolver::new(exprs(&["^v1.0", "main"]));
    assert_eq!(r.pending(), Some(Request::Single(String::from("v1.0"))));
    let r = r.supply(Reply::Commit(id(1))).unwrap();
    assert_eq!(r.pending(), Some(Request::Revision(String::from("main"))));
    let r = r.supply(Reply::Commit(id(2))).unwrap();
    assert_eq!(r.finish(), Some(RevisionSet { push: vec![id(2)], hide: vec![id(1)] }));
}

#[test]
fn range_pushes_the_end_and_hides_the_start() {
    let r = Resolver::new(exprs(&["a..b"]));
    assert_eq!(r.pending(), Some(Request::Revision(String::from("a..b"))));
    let r = r
        .supply(Reply::Range { from: id(1), to: id(2), want_merge_base: false })
        .unwrap();
    assert_eq!(r.pending(), None);
    assert_eq!(r.finish(), Some(RevisionSet { push: vec![id(2)], hide: vec![id(1)] }));
}

#[test]
fn range_with_merge_base_asks_for_it() {
    let r = Resolver::new(exprs(&["a...b", "c"]));
    let r = r
        .supply(Reply::Range { from: id(1), to: id(2), want_merge_base: true })
        .unwrap();
    assert_eq!(r.pending(), Some(Request::MergeBase(id(1), id(2))));
    let r = r.supply(Reply::Commit(id(3))).unwrap();
    assert_eq!(r.pending(), Some(Request::Revision(String::from("c"))));
    let r = r.supply(Reply::Commit(id(4))).unwrap();
    assert_eq!(
        r.finish(),
        Some(RevisionSet { push: vec![id(2), id(3), id(4)], hide: vec![id(1)] })
    );
}

#[test]
fn unknown_exclusion_fails_the_resolution() {
    let r = Resolver::new(exprs(&["main", "^X"]));
    let r = r.supply(Reply::Commit(id(1))).unwrap();
    assert_eq!(r.pending(), Some(Request::Single(String::from("X"))));
    let failure = ResolutionError::NotFound(String::from("X"));
    let r = r.supply(Reply::Failed(failure.clone()));
    assert_eq!(r.err(), Some(failure));
}

#[test]
fn failures_come_back_as_they_are() {
    for e in [
        ResolutionError::Ambiguous(String::from("ab")),
        ResolutionError::NoMergeBase(id(1), id(2)),
        ResolutionError::NoHead,
    ] {
        let r = Resolver::new(exprs(&["ab"]));
        assert_eq!(r.supply(Reply::Failed(e.clone())).err(), Some(e));
    }
    let r = Resolver::new(vec![]);
    assert_eq!(r.supply(Reply::Failed(ResolutionError::NoHead)).err(), Some(ResolutionError::NoHead));
}

#[test]
fn missing_merge_base_fails_the_resolution() {
    let r = Resolver::new(exprs(&["a...b"]));
    let r = r
        .supply(Reply::Range { from: id(1), to: id(2), want_merge_base: true })
        .unwrap();
    let e = ResolutionError::NoMergeBase(id(1), id(2));
    assert_eq!(r.supply(Reply::Failed(e.clone())).err(), Some(e));
}

#[test]
fn a_reply_that_does_not_fit_is_out_of_turn() {
    let range = Reply::Range { from: id(1), to: id(2), want_merge_base: false };
    let r = Resolver::new(exprs(&["^a"]));
    assert_eq!(r.supply(range.clone()).err(), Some(ResolutionError::OutOfTurn));
    let r = Resolver::new(vec![]);
    assert_eq!(r.supply(range.clone()).err(), Some(ResolutionError::OutOfTurn));
    let r = Resolver::new(exprs(&["a"])).supply(Reply::Commit(id(1))).unwrap();
    assert_eq!(r.supply(Reply::Commit(id(2))).err(), Some(ResolutionError::OutOfTurn));
    let r = Resolver::new(exprs(&["a...b"]))
        .supply(Reply::Range { from: id(1), to: id(2), want_merge_base: true })
        .unwrap();
    assert_eq!(r.supply(range).err(), Some(ResolutionError::OutOfTurn));
}

#[test]
fn finish_waits_for_the_last_reply() {
    assert_eq!(Resolver::new(exprs(&["a"])).finish(), None);
    assert_eq!(Resolver::new(vec![]).finish(), None);
}

#[test]
fn a_lone_caret_excludes_the_empty_text() {
    let r = Resolver::new(exprs(&["^", ""]));
    assert_eq!(r.pending(), Some(Request::Single(String::new())));
    let r = r.supply(Reply::Commit(id(1))).unwrap();
    assert_eq!(r.pending(), Some(Request::Revision(String::new())));
}
