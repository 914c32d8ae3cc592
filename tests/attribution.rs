use std::collections::BTreeMap;

use authorship::attribution::{
    commit_qualifies, contributions_from_hunks, git_time_to_utc_seconds, offset_in_range, BlameHunk,
    FIRST_TIMESTAMP, LAST_TIMESTAMP,
};
use authorship::history::{commit_partial, DeltaStatus, FileDelta};
use authorship::record::Contributions;
use authorship::reducer::overwritten_contributions;

const NANOS: i64 = 1_000_000_000;

fn as_map(c: &Contributions) -> BTreeMap<String, usize> {
    c.authors.iter().cloned().collect()
}

fn hunk(lines: usize, seconds: i64, email: Option<&str>) -> BlameHunk {
    BlameHunk { lines, seconds, offset_minutes: 0, email: email.map(|s| s.to_string()) }
}

fn delta(old: Option<&str>, new: Option<&str>, status: DeltaStatus, hunks: &[(u32, u32)]) -> FileDelta {
    FileDelta {
        old_exists: old.is_some(),
        old_path: old.map(|s| s.to_string()),
        new_exists: new.is_some(),
        new_path: new.map(|s| s.to_string()),
        status,
        hunks: hunks.to_vec(),
    }
}

#[test]
fn commit_time_applies_offset() {
    assert_eq!(git_time_to_utc_seconds(10_000, 60), Some(10_000 - 3_600));
    assert_eq!(git_time_to_utc_seconds(10_000, -90), Some(10_000 + 5_400));
}

#[test]
fn commit_time_with_bad_offset_uses_zero() {
    assert_eq!(git_time_to_utc_seconds(10_000, 1_440), Some(10_000));
    assert_eq!(git_time_to_utc_seconds(10_000, i32::MAX), Some(10_000));
}

#[test]
fn commit_time_out_of_range_is_refused() {
    assert_eq!(git_time_to_utc_seconds(i64::MAX, 0), None);
    assert_eq!(git_time_to_utc_seconds(i64::MIN, 0), None);
}

#[test]
fn representable_range_matches_chrono() {
    assert_eq!(git_time_to_utc_seconds(FIRST_TIMESTAMP, 0), Some(FIRST_TIMESTAMP));
    assert_eq!(git_time_to_utc_seconds(FIRST_TIMESTAMP - 1, 0), None);
    assert_eq!(git_time_to_utc_seconds(LAST_TIMESTAMP, 0), Some(LAST_TIMESTAMP));
    assert_eq!(git_time_to_utc_seconds(LAST_TIMESTAMP + 1, 0), None);
    assert!(chrono::DateTime::from_timestamp(FIRST_TIMESTAMP, 0).is_some());
    assert!(chrono::DateTime::from_timestamp(FIRST_TIMESTAMP - 1, 0).is_none());
    assert!(chrono::DateTime::from_timestamp(LAST_TIMESTAMP, 0).is_some());
    assert!(chrono::DateTime::from_timestamp(LAST_TIMESTAMP + 1, 0).is_none());
}

#[test]
fn offset_range_is_within_a_day() {
    assert!(offset_in_range(0));
    assert!(offset_in_range(1_439));
    assert!(offset_in_range(-1_439));
    assert!(!offset_in_range(1_440));
    assert!(!offset_in_range(-1_440));
    assert!(!offset_in_range(i32::MAX));
}

#[test]
fn merge_commits_do_not_qualify() {
    assert!(commit_qualifies(100, 0, 1, 200 * NANOS, None));
    assert!(!commit_qualifies(100, 0, 2, 200 * NANOS, None));
    assert!(!commit_qualifies(100, 0, 0, 200 * NANOS, None));
}

#[test]
fn old_commits_do_not_qualify_under_max_age() {
    let now = 1_000 * NANOS;
    assert!(commit_qualifies(900, 0, 1, now, Some(100 * NANOS as i128)));
    assert!(!commit_qualifies(899, 0, 1, now, Some(100 * NANOS as i128)));
    assert!(!commit_qualifies(i64::MAX, 0, 1, now, Some(100 * NANOS as i128)));
    assert!(commit_qualifies(i64::MAX, 0, 1, now, None));
}

#[test]
fn blame_credits_hunks_per_author() {
    let hunks = vec![hunk(3, 10, Some("alice")), hunk(2, 20, Some("bob")), hunk(4, 30, Some("alice"))];
    let c = contributions_from_hunks(&hunks, 100 * NANOS, None).unwrap();
    assert_eq!(as_map(&c), BTreeMap::from([("alice".to_string(), 7), ("bob".to_string(), 2)]));
    assert_eq!(c.total_lines, 9);
}

#[test]
fn blame_skips_old_and_unauthored_hunks() {
    let hunks = vec![hunk(3, 10, Some("alice")), hunk(2, 95, Some("bob")), hunk(4, 96, None)];
    let c = contributions_from_hunks(&hunks, 100 * NANOS, Some(10 * NANOS as i128)).unwrap();
    assert_eq!(as_map(&c), BTreeMap::from([("bob".to_string(), 2)]));
    assert_eq!(c.total_lines, 2);
}

#[test]
fn unconvertible_time_without_max_age_still_counts() {
    let hunks = vec![hunk(3, 10, Some("alice")), hunk(2, i64::MAX, Some("bob"))];
    let c = contributions_from_hunks(&hunks, 100 * NANOS, None).unwrap();
    assert_eq!(as_map(&c), BTreeMap::from([("alice".to_string(), 3), ("bob".to_string(), 2)]));
    assert_eq!(c.total_lines, 5);
}

#[test]
fn unconvertible_time_under_max_age_drops_only_that_hunk() {
    let hunks = vec![hunk(3, 95, Some("alice")), hunk(2, i64::MAX, Some("bob")), hunk(1, 99, Some("bob"))];
    let c = contributions_from_hunks(&hunks, 100 * NANOS, Some(10 * NANOS as i128)).unwrap();
    assert_eq!(as_map(&c), BTreeMap::from([("alice".to_string(), 3), ("bob".to_string(), 1)]));
    assert_eq!(c.total_lines, 4);
}

#[test]
fn blame_refuses_overflowing_counts() {
    let hunks = vec![hunk(usize::MAX, 10, Some("alice")), hunk(1, 10, Some("bob"))];
    assert!(contributions_from_hunks(&hunks, 100 * NANOS, None).is_none());
    let skipped = vec![hunk(usize::MAX, 10, Some("alice")), hunk(1, 10, None)];
    assert_eq!(contributions_from_hunks(&skipped, 100 * NANOS, None).unwrap().total_lines, usize::MAX);
}

#[test]
fn commit_partial_credits_added_modified_and_renamed_files() {
    let deltas = vec![
        delta(None, Some("new.txt"), DeltaStatus::Added, &[(0, 10)]),
        delta(Some("mod.txt"), Some("mod.txt"), DeltaStatus::Modified, &[(3, 1), (2, 5)]),
        delta(Some("other.txt"), Some("other.txt"), DeltaStatus::Other, &[(4, 4)]),
        delta(Some("old.txt"), Some("moved.txt"), DeltaStatus::Renamed, &[(1, 2)]),
    ];
    let p = commit_partial(Some("alice".to_string()), &deltas);
    let got: Vec<(String, usize)> = p.contributions.iter().map(|e| (e.0.clone(), e.1.total_lines)).collect();
    assert_eq!(
        got,
        vec![("new.txt".to_string(), 10), ("mod.txt".to_string(), 8), ("moved.txt".to_string(), 2)]
    );
    assert_eq!(p.renames, vec![("old.txt".to_string(), Some("moved.txt".to_string()))]);
}

#[test]
fn commit_partial_records_renames_and_removals() {
    let deltas = vec![
        delta(Some("a.txt"), Some("b.txt"), DeltaStatus::Other, &[]),
        delta(Some("c.txt"), None, DeltaStatus::Other, &[]),
    ];
    let p = commit_partial(None, &deltas);
    assert!(p.contributions.is_empty());
    assert_eq!(
        p.renames,
        vec![("a.txt".to_string(), Some("b.txt".to_string())), ("c.txt".to_string(), None)]
    );
}

#[test]
fn three_commit_history_in_both_modes() {
    // blame of the current g.txt: six lines left from alice's first commit, four rewritten by
    // bob, two added by alice
    let hunks = vec![hunk(6, 100, Some("alice")), hunk(4, 200, Some("bob")), hunk(2, 300, Some("alice"))];
    let direct = contributions_from_hunks(&hunks, 400 * NANOS, None).unwrap();
    assert_eq!(as_map(&direct), BTreeMap::from([("alice".to_string(), 8), ("bob".to_string(), 4)]));
    assert_eq!(direct.total_lines, 12);

    let c1 = commit_partial(
        Some("alice".to_string()),
        &vec![delta(None, Some("f.txt"), DeltaStatus::Added, &[(0, 10)])],
    );
    let c2 = commit_partial(
        Some("bob".to_string()),
        &vec![delta(Some("f.txt"), Some("g.txt"), DeltaStatus::Modified, &[(4, 4)])],
    );
    let c3 = commit_partial(
        Some("alice".to_string()),
        &vec![delta(Some("g.txt"), Some("g.txt"), DeltaStatus::Modified, &[(0, 2)])],
    );
    let all = overwritten_contributions(vec![c1, c2, c3], &["g.txt".to_string()]).unwrap();
    assert_eq!(all.len(), 1);
    assert_eq!(all[0].0, "g.txt");
    assert_eq!(as_map(&all[0].1), BTreeMap::from([("alice".to_string(), 12), ("bob".to_string(), 4)]));
    assert_eq!(all[0].1.total_lines, 16);
}
