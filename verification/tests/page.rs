use revlog::commit::CommitId;
use revlog::page::{paginate, PageStep, Pager};

fn id(n: u32) -> CommitId {
    CommitId::new(0, n)
}

fn ids(ns: &[u32]) -> Vec<CommitId> {
    ns.iter().map(|n| id(*n)).collect()
}

#[test]
fn skip_one_limit_one() {
    // C, B, A in time order
    let kept = ids(&[3, 2, 1]);
    assert_eq!(paginate(&kept, Some(1), Some(1)), ids(&[2]));
}

#[test]
fn page_defaults_hand_out_everything() {
    let kept = ids(&[3, 2, 1]);
    assert_eq!(paginate(&kept, None, None), kept);
    assert_eq!(paginate(&kept, Some(0), None), kept);
}

#[test]
fn page_edges() {
    let kept = ids(&[5, 4, 3, 2, 1]);
    assert_eq!(paginate(&kept, Some(2), None), ids(&[3, 2, 1]));
    assert_eq!(paginate(&kept, None, Some(2)), ids(&[5, 4]));
    assert_eq!(paginate(&kept, Some(4), Some(3)), ids(&[1]));
    assert_eq!(paginate(&kept, Some(5), Some(3)), ids(&[]));
    assert_eq!(paginate(&kept, Some(9), None), ids(&[]));
    assert_eq!(paginate(&kept, Some(1), Some(0)), ids(&[]));
    assert_eq!(paginate(&kept, Some(1), Some(usize::MAX)), ids(&[4, 3, 2, 1]));
    assert_eq!(paginate(&kept, Some(usize::MAX), Some(usize::MAX)), ids(&[]));
    assert_eq!(paginate(&ids(&[]), Some(1), Some(1)), ids(&[]));
}

fn stream(items: &[CommitId], skip: Option<usize>, limit: Option<usize>) -> Vec<CommitId> {
    let mut pager = Pager::new(skip, limit);
    let mut out = Vec::new();
    for item in items {
        match pager.take() {
            PageStep::Skip => {}
            PageStep::Emit => out.push(*item),
            PageStep::Stop => break,
        }
    }
    out
}

#[test]
fn pager_counts_one_by_one() {
    let mut pager = Pager::new(Some(1), Some(2));
    assert_eq!(pager.take(), PageStep::Skip);
    assert_eq!(pager.take(), PageStep::Emit);
    assert_eq!(pager.take(), PageStep::Emit);
    assert_eq!(pager.take(), PageStep::Stop);
    assert_eq!(pager.take(), PageStep::Stop);
    assert_eq!(pager, Pager { to_skip: 0, left: Some(0) });
}

#[test]
fn pager_with_no_room_stops_at_once() {
    let mut pager = Pager::new(Some(3), Some(0));
    assert_eq!(pager.take(), PageStep::Stop);
    assert_eq!(pager, Pager { to_skip: 3, left: Some(0) });
}

#[test]
fn streaming_gives_the_same_page() {
    let kept = ids(&[5, 4, 3, 2, 1]);
    for skip in [None, Some(0), Some(1), Some(4), Some(5), Some(7)] {
        for limit in [None, Some(0), Some(1), Some(3), Some(5), Some(9)] {
            assert_eq!(stream(&kept, skip, limit), paginate(&kept, skip, limit));
        }
    }
}
