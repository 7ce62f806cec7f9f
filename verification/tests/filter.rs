use revlog::commit::{CommitId, CommitRecord, Signature};
use revlog::error::DiffError;
use revlog::filter::{
    message_passes, signature_passes, FilterSpec, ParentFlags, Probe, Verdict,
};
use revlog::text::{chars_of, contains, find};

fn id(n: u32) -> CommitId {
    CommitId::new(0, n)
}

fn signature(name: Option<&str>, email: Option<&str>) -> Signature {
    Signature {
        name: name.map(String::from),
        email: email.map(String::from),
        seconds: 0,
        offset_minutes: 0,
    }
}

fn commit(n: u32, parents: &[u32]) -> CommitRecord {
    CommitRecord {
        id: id(n),
        author: signature(Some("Ada Lovelace"), Some("ada@example.org")),
        committer: signature(Some("Charles Babbage"), Some("cb@example.org")),
        message: Some(String::from("Add the analytical engine\n")),
        parent_ids: parents.iter().map(|p| id(*p)).collect(),
    }
}

fn failed() -> Result<bool, DiffError> {
    Err(DiffError::Diff(id(0)))
}

#[test]
fn parent_bounds_without_flags() {
    let flags = ParentFlags::new();
    assert_eq!(flags.min_parents(), 0);
    assert_eq!(flags.max_parents(), None);
}

#[test]
fn merges_only_asks_for_two_parents() {
    let mut flags = ParentFlags::new();
    flags.merges = true;
    assert_eq!(flags.min_parents(), 2);
    assert_eq!(flags.max_parents(), None);
    flags.no_min_parents = true;
    assert_eq!(flags.min_parents(), 0);
}

#[test]
fn no_merges_bounds_parents_below_two() {
    let mut flags = ParentFlags::new();
    flags.no_merges = true;
    assert_eq!(flags.max_parents(), Some(1));
    assert_eq!(flags.min_parents(), 0);
    flags.no_max_parents = true;
    assert_eq!(flags.max_parents(), None);
}

#[test]
fn explicit_bounds_go_before_the_toggles() {
    let mut flags = ParentFlags::new();
    flags.merges = true;
    flags.no_merges = true;
    flags.min_parents = Some(3);
    flags.max_parents = Some(5);
    assert_eq!(flags.min_parents(), 3);
    assert_eq!(flags.max_parents(), Some(5));
    flags.no_min_parents = true;
    flags.no_max_parents = true;
    assert_eq!(flags.min_parents(), 0);
    assert_eq!(flags.max_parents(), None);
}

#[test]
fn with_parent_flags_sets_the_bounds() {
    let mut flags = ParentFlags::new();
    flags.merges = true;
    flags.max_parents = Some(4);
    let spec = FilterSpec::new().with_parent_flags(&flags);
    assert_eq!(spec.min_parents, 2);
    assert_eq!(spec.max_parents, Some(4));
    assert!(spec.author.is_none());
    assert!(spec.path_patterns.is_empty());
}

#[test]
fn upper_bound_on_parents_is_exclusive() {
    let mut spec = FilterSpec::new();
    spec.max_parents = Some(2);
    assert!(spec.parents_in_bounds(&commit(1, &[])));
    assert!(spec.parents_in_bounds(&commit(1, &[2])));
    assert!(!spec.parents_in_bounds(&commit(1, &[2, 3])));
    spec.max_parents = Some(0);
    assert!(!spec.parents_in_bounds(&commit(1, &[])));
}

#[test]
fn lower_bound_on_parents_is_inclusive() {
    let mut spec = FilterSpec::new();
    spec.min_parents = 2;
    assert!(!spec.parents_in_bounds(&commit(1, &[2])));
    assert!(spec.parents_in_bounds(&commit(1, &[2, 3])));
    assert!(spec.parents_in_bounds(&commit(1, &[2, 3, 4])));
}

#[test]
fn substring_search() {
    assert!(contains("hello world", "lo wo"));
    assert!(contains("hello", "hello"));
    assert!(contains("hello", ""));
    assert!(contains("", ""));
    assert!(!contains("", "a"));
    assert!(!contains("hello", "hellos"));
    assert!(!contains("hello", "Hello"));
    assert!(contains("aab", "ab"));
    assert!(contains("grüße", "üß"));
    assert!(!contains("abc", "ac"));
}

#[test]
fn characters_of_a_text() {
    assert_eq!(chars_of("aé✓"), vec!['a', 'é', '✓']);
    assert!(chars_of("").is_empty());
    assert!(find(&vec!['a', 'b', 'c'], &vec!['b', 'c']));
    assert!(!find(&vec!['a', 'b', 'c'], &vec!['c', 'b']));
}

#[test]
fn signature_matches_name_or_address() {
    let sig = signature(Some("Ada Lovelace"), Some("ada@example.org"));
    assert!(signature_passes(&sig, &None));
    assert!(signature_passes(&sig, &Some(String::from("Lovelace"))));
    assert!(signature_passes(&sig, &Some(String::from("@example"))));
    assert!(!signature_passes(&sig, &Some(String::from("lovelace"))));
    assert!(!signature_passes(&sig, &Some(String::from("Babbage"))));
}

#[test]
fn absent_name_or_address_matches_nothing() {
    let nameless = signature(None, Some("ada@example.org"));
    assert!(signature_passes(&nameless, &Some(String::from("ada@"))));
    assert!(!signature_passes(&nameless, &Some(String::from("Ada"))));
    let blank = signature(None, None);
    assert!(!signature_passes(&blank, &Some(String::from(""))));
    assert!(signature_passes(&blank, &None));
}

#[test]
fn message_filter() {
    let msg = Some(String::from("Fix the bug"));
    assert!(message_passes(&msg, &None));
    assert!(message_passes(&None, &None));
    assert!(message_passes(&msg, &Some(String::from("bug"))));
    assert!(!message_passes(&msg, &Some(String::from("feature"))));
    assert!(!message_passes(&None, &Some(String::from("bug"))));
    assert!(!message_passes(&None, &Some(String::from(""))));
}

#[test]
fn filter_without_paths_asks_nothing() {
    let spec = FilterSpec::new();
    assert_eq!(spec.begin(&commit(1, &[2, 3])), Verdict::Accept);
    let mut spec = FilterSpec::new();
    spec.author = Some(String::from("Grace"));
    assert_eq!(spec.begin(&commit(1, &[2])), Verdict::Reject);
    spec.author = Some(String::from("Ada"));
    spec.committer = Some(String::from("cb@"));
    spec.message = Some(String::from("engine"));
    assert_eq!(spec.begin(&commit(1, &[2])), Verdict::Accept);
    spec.message = Some(String::from("loom"));
    assert_eq!(spec.begin(&commit(1, &[2])), Verdict::Reject);
}

#[test]
fn filter_asks_about_the_tree_of_a_root() {
    let mut spec = FilterSpec::new();
    spec.path_patterns = vec![String::from("docs/")];
    let root = commit(1, &[]);
    assert_eq!(spec.begin(&root), Verdict::Ask(Probe::RootTree));
    assert_eq!(spec.resume(&root, Probe::RootTree, &Ok(true)), Verdict::Accept);
    assert_eq!(spec.resume(&root, Probe::RootTree, &Ok(false)), Verdict::Reject);
    assert_eq!(spec.resume(&root, Probe::RootTree, &failed()), Verdict::Reject);
}

#[test]
fn filter_asks_about_every_parent_in_turn() {
    let mut spec = FilterSpec::new();
    spec.path_patterns = vec![String::from("docs/")];
    let merge = commit(3, &[2, 4]);
    assert_eq!(spec.begin(&merge), Verdict::Ask(Probe::ParentDiff(0)));
    assert_eq!(
        spec.resume(&merge, Probe::ParentDiff(0), &Ok(true)),
        Verdict::Ask(Probe::ParentDiff(1))
    );
    assert_eq!(spec.resume(&merge, Probe::ParentDiff(1), &Ok(true)), Verdict::Accept);
    assert_eq!(spec.resume(&merge, Probe::ParentDiff(0), &Ok(false)), Verdict::Reject);
    assert_eq!(spec.resume(&merge, Probe::ParentDiff(1), &Ok(false)), Verdict::Reject);
    assert_eq!(spec.resume(&merge, Probe::ParentDiff(0), &failed()), Verdict::Reject);
}

#[test]
fn filter_outside_the_bounds_asks_nothing() {
    let mut spec = FilterSpec::new();
    spec.path_patterns = vec![String::from("docs/")];
    spec.min_parents = 2;
    assert_eq!(spec.begin(&commit(2, &[1])), Verdict::Reject);
    assert_eq!(spec.begin(&commit(3, &[1, 2])), Verdict::Ask(Probe::ParentDiff(0)));
}

#[test]
fn texts_are_tested_after_the_paths() {
    let mut spec = FilterSpec::new();
    spec.path_patterns = vec![String::from("docs/")];
    spec.author = Some(String::from("Grace"));
    let c = commit(2, &[1]);
    assert_eq!(spec.begin(&c), Verdict::Ask(Probe::ParentDiff(0)));
    assert_eq!(spec.resume(&c, Probe::ParentDiff(0), &Ok(true)), Verdict::Reject);
}

#[test]
fn evaluate_with_answers_at_hand() {
    let mut spec = FilterSpec::new();
    spec.path_patterns = vec![String::from("docs/")];
    let merge = commit(3, &[2, 4]);
    assert!(spec.evaluate(&merge, &vec![Ok(true), Ok(true)]));
    assert!(!spec.evaluate(&merge, &vec![Ok(true), Ok(false)]));
    assert!(!spec.evaluate(&merge, &vec![Ok(false), Ok(true)]));
    assert!(!spec.evaluate(&merge, &vec![Ok(true), failed()]));
    assert!(!spec.evaluate(&merge, &vec![Ok(true)]));
    let root = commit(1, &[]);
    assert!(spec.evaluate(&root, &vec![Ok(true)]));
    assert!(!spec.evaluate(&root, &vec![Ok(false)]));
    assert!(!spec.evaluate(&root, &vec![]));
    let plain = FilterSpec::new();
    assert!(plain.evaluate(&merge, &vec![]));
    assert!(plain.evaluate(&root, &vec![Ok(false)]));
}
