use git_submerge::engine::{exit_code, lookup_or_self, precheck, run, EngineError, ExitStatus};
use git_submerge::hex::parse_oid_hex;
use git_submerge::maps::{Mappings, RewriteMap};
use git_submerge::rewrite::are_mappings_valid;
use git_submerge::store::{Store, TreeEntry};
use git_submerge::walk::revwalk;

fn file_entry(name: &str, id: usize) -> TreeEntry {
    TreeEntry { name: name.as_bytes().to_vec(), mode: 0o100644, id }
}

#[test]
fn hex_parses_forty_lowercase_digits() {
    let s = b"0123456789abcdef0123456789abcdef01234567".to_vec();
    let v = parse_oid_hex(&s).unwrap();
    assert_eq!(v.len(), 20);
    assert_eq!(v[0], 0x01);
    assert_eq!(v[1], 0x23);
    assert_eq!(v[7], 0xef);
    assert_eq!(v[19], 0x67);
}

#[test]
fn hex_rejects_wrong_length() {
    assert!(parse_oid_hex(&b"abc".to_vec()).is_none());
    assert!(parse_oid_hex(&b"0123456789abcdef0123456789abcdef012345678".to_vec()).is_none());
}

#[test]
fn hex_rejects_uppercase_and_stray_bytes() {
    assert!(parse_oid_hex(&b"0123456789ABCDEF0123456789abcdef01234567".to_vec()).is_none());
    assert!(parse_oid_hex(&b"0123456789abcdeg0123456789abcdef01234567".to_vec()).is_none());
}

#[test]
fn exit_codes_match_the_interface() {
    assert_eq!(exit_code(&ExitStatus::Success), 0);
    assert_eq!(exit_code(&ExitStatus::NoGitRepo), 1);
    assert_eq!(exit_code(&ExitStatus::DanglingFound), 2);
    assert_eq!(exit_code(&ExitStatus::InvalidCommitId), 3);
    assert_eq!(exit_code(&ExitStatus::InvalidMappings), 4);
    assert_eq!(exit_code(&ExitStatus::DirtyWorkdir), 5);
    assert_eq!(exit_code(&ExitStatus::SubmoduleFetchFailed), 6);
    assert_eq!(exit_code(&ExitStatus::SubmoduleNotFound), 7);
}

#[test]
fn precheck_reports_first_failure() {
    assert!(matches!(precheck(false, false, false, false), Some(ExitStatus::NoGitRepo)));
    assert!(matches!(precheck(true, false, false, false), Some(ExitStatus::DirtyWorkdir)));
    assert!(matches!(precheck(true, true, false, false), Some(ExitStatus::SubmoduleNotFound)));
    assert!(matches!(precheck(true, true, true, false), Some(ExitStatus::SubmoduleFetchFailed)));
    assert!(precheck(true, true, true, true).is_none());
}

#[test]
fn second_run_stops_at_the_missing_submodule() {
    // After a successful run the submodule is no longer registered; the
    // checks before it pass, and the run stops with that status, before
    // anything is written.
    assert!(matches!(precheck(true, true, false, true), Some(ExitStatus::SubmoduleNotFound)));
    assert_eq!(exit_code(&ExitStatus::SubmoduleNotFound), 7);
}

#[test]
fn walk_yields_parents_before_children() {
    let mut store = Store::new();
    let b = store.add_blob(b"x".to_vec());
    let t = store.add_tree(vec![file_entry("f", b)]).unwrap();
    // A diamond: root, two sides, a merge.
    let root = store.add_commit(t, vec![], 1, 1, 1).unwrap();
    let left = store.add_commit(t, vec![root], 1, 1, 2).unwrap();
    let right = store.add_commit(t, vec![root], 1, 1, 3).unwrap();
    let merge = store.add_commit(t, vec![left, right], 1, 1, 4).unwrap();
    let order = revwalk(&store, &vec![merge]);
    assert_eq!(order, vec![root, left, right, merge]);
}

#[test]
fn walk_skips_unreachable_commits_and_bad_tips() {
    let mut store = Store::new();
    let b = store.add_blob(b"x".to_vec());
    let t = store.add_tree(vec![file_entry("f", b)]).unwrap();
    let a = store.add_commit(t, vec![], 1, 1, 1).unwrap();
    let unrelated = store.add_commit(t, vec![], 1, 1, 2).unwrap();
    let child = store.add_commit(t, vec![a], 1, 1, 3).unwrap();
    // A tip that names no commit of the store is ignored.
    let order = revwalk(&store, &vec![child, 12345]);
    assert_eq!(order, vec![a, child]);
    assert!(!order.contains(&unrelated));
}

#[test]
fn mappings_validation_lists_missing_values() {
    let sub_order = vec![4usize, 7, 9];
    let mut mappings = Mappings::new();
    mappings.push(100, 7);
    mappings.push(101, 55);
    let missing = are_mappings_valid(&sub_order, &mappings, Some(66));
    assert_eq!(missing, vec![55, 66]);
}

#[test]
fn mappings_validation_accepts_known_values() {
    let sub_order = vec![4usize, 7, 9];
    let mut mappings = Mappings::new();
    mappings.push(100, 7);
    let missing = are_mappings_valid(&sub_order, &mappings, Some(9));
    assert_eq!(missing, Vec::<usize>::new());
}

#[test]
fn mappings_first_match_wins() {
    let mut mappings = Mappings::new();
    mappings.push(5, 10);
    mappings.push(5, 20);
    assert_eq!(mappings.get(5), Some(10));
    assert_eq!(mappings.get(6), None);
}

#[test]
fn rewrite_map_lookup_or_self() {
    let mut m = RewriteMap::new(4);
    m.set(2, 17);
    assert_eq!(lookup_or_self(&m, 2), 17);
    assert_eq!(lookup_or_self(&m, 3), 3);
    assert_eq!(lookup_or_self(&m, 100), 100);
}

#[test]
fn store_rejects_bad_references() {
    let mut store = Store::new();
    let b = store.add_blob(b"x".to_vec());
    // A subtree entry must name a tree, not a blob.
    assert!(store.add_tree(vec![TreeEntry { name: b"d".to_vec(), mode: 0o040000, id: b }])
        .is_none());
    let t = store.add_tree(vec![file_entry("f", b)]).unwrap();
    // A commit's tree must be a tree and its parents commits.
    assert!(store.add_commit(b, vec![], 1, 1, 1).is_none());
    assert!(store.add_commit(t, vec![t], 1, 1, 1).is_none());
    let c = store.add_commit(t, vec![], 1, 1, 1).unwrap();
    assert!(store.add_commit(t, vec![c], 1, 1, 2).is_some());
    // A gitlink may point anywhere: it names a foreign commit.
    assert!(store.add_tree(vec![TreeEntry { name: b"s".to_vec(), mode: 0o160000, id: 9999 }])
        .is_some());
}

#[test]
fn branch_tip_that_is_no_commit_aborts() {
    let mut store = Store::new();
    let b = store.add_blob(b"x".to_vec());
    let t = store.add_tree(vec![file_entry("f", b)]).unwrap();
    let s1 = store.add_commit(t, vec![], 1, 1, 1).unwrap();
    let dir = vec![b"sub".to_vec()];
    let mappings = Mappings::new();
    // A branch tip naming a blob cannot be retargeted.
    match run(&mut store, &dir, &vec![s1], &vec![b], &mappings, None) {
        Err(EngineError::Internal) => {}
        _ => panic!("a non-commit tip must abort the run"),
    }
}
