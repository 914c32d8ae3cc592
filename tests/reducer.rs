use std::collections::BTreeMap;

use authorship::record::Contributions;
use authorship::reducer::{combine, overwritten_contributions, reduce_partials, Partial};

fn record(entries: &[(&str, usize)]) -> Contributions {
    let mut c = Contributions::new();
    for (a, n) in entries {
        c.add_lines(a.to_string(), *n);
    }
    c
}

fn as_map(c: &Contributions) -> BTreeMap<String, usize> {
    c.authors.iter().cloned().collect()
}

fn partial(records: Vec<(&str, Contributions)>, renames: &[(&str, Option<&str>)]) -> Partial {
    Partial {
        contributions: records.into_iter().map(|(p, c)| (p.to_string(), c)).collect(),
        renames: renames
            .iter()
            .map(|(a, b)| (a.to_string(), b.map(|s| s.to_string())))
            .collect(),
    }
}

fn paths(p: &Partial) -> Vec<&str> {
    p.contributions.iter().map(|e| e.0.as_str()).collect()
}

#[test]
fn combine_moves_older_record_through_newer_rename() {
    let older = partial(vec![("a.txt", record(&[("alice", 10)]))], &[]);
    let newer = partial(vec![], &[("a.txt", Some("b.txt"))]);
    let r = combine(older, newer);
    assert_eq!(paths(&r), vec!["b.txt"]);
    assert_eq!(as_map(&r.contributions[0].1), BTreeMap::from([("alice".to_string(), 10)]));
    assert_eq!(r.contributions[0].1.total_lines, 10);
}

#[test]
fn combine_is_order_sensitive() {
    let older = || partial(vec![("a.txt", record(&[("alice", 10)]))], &[]);
    let newer = || partial(vec![], &[("a.txt", Some("b.txt"))]);
    let forward = combine(older(), newer());
    let backward = combine(newer(), older());
    assert_eq!(paths(&forward), vec!["b.txt"]);
    assert_eq!(paths(&backward), vec!["a.txt"]);
    assert_ne!(paths(&forward), paths(&backward));
}

#[test]
fn rename_edges_chain_across_ranges() {
    let older = partial(vec![], &[("x", Some("y"))]);
    let newer = partial(vec![], &[("y", Some("z"))]);
    let r = combine(older, newer);
    assert_eq!(r.renames, vec![("x".to_string(), Some("z".to_string()))]);
}

#[test]
fn removed_path_is_dropped() {
    let older = partial(vec![("old.txt", record(&[("bob", 5)]))], &[]);
    let newer = partial(vec![], &[("old.txt", None)]);
    let r = combine(older, newer);
    assert!(r.contributions.iter().all(|e| e.0 != "old.txt"));
    assert!(r.contributions.is_empty());
}

#[test]
fn newer_records_merge_into_same_path() {
    let older = partial(vec![("f.txt", record(&[("alice", 3)]))], &[]);
    let newer = partial(vec![("f.txt", record(&[("alice", 1), ("bob", 2)]))], &[]);
    let r = combine(older, newer);
    assert_eq!(paths(&r), vec!["f.txt"]);
    let m = as_map(&r.contributions[0].1);
    assert_eq!(m, BTreeMap::from([("alice".to_string(), 4), ("bob".to_string(), 2)]));
    assert_eq!(r.contributions[0].1.total_lines, 6);
}

#[test]
fn every_newer_edge_is_composed() {
    let older = partial(vec![], &[("a", Some("b")), ("c", Some("d"))]);
    let newer = partial(vec![], &[("b", Some("e")), ("d", None), ("q", Some("r"))]);
    let r = combine(older, newer);
    assert_eq!(
        r.renames,
        vec![
            ("a".to_string(), Some("e".to_string())),
            ("c".to_string(), None),
            ("q".to_string(), Some("r".to_string())),
        ]
    );
}

#[test]
fn only_first_matching_older_edge_is_rewritten() {
    let older = partial(vec![], &[("a", Some("m")), ("b", Some("m"))]);
    let newer = partial(vec![], &[("m", Some("n"))]);
    let r = combine(older, newer);
    assert_eq!(
        r.renames,
        vec![("a".to_string(), Some("n".to_string())), ("b".to_string(), Some("m".to_string()))]
    );
}

#[test]
fn reduce_folds_oldest_first() {
    let first = partial(vec![("x.txt", record(&[("alice", 2)]))], &[]);
    let second = partial(vec![], &[("x.txt", Some("y.txt"))]);
    let third = partial(vec![("y.txt", record(&[("bob", 1)]))], &[]);
    let r = reduce_partials(vec![first, second, third]);
    assert_eq!(paths(&r), vec!["y.txt"]);
    assert_eq!(
        as_map(&r.contributions[0].1),
        BTreeMap::from([("alice".to_string(), 2), ("bob".to_string(), 1)])
    );
    assert_eq!(r.renames, vec![("x.txt".to_string(), Some("y.txt".to_string()))]);
}

#[test]
fn reduce_of_nothing_is_empty() {
    let r = reduce_partials(vec![]);
    assert!(r.contributions.is_empty());
    assert!(r.renames.is_empty());
}

#[test]
fn overwritten_contributions_keeps_paths_of_interest() {
    let first = partial(
        vec![("keep.txt", record(&[("alice", 2)])), ("gone.txt", record(&[("bob", 3)]))],
        &[],
    );
    let r = overwritten_contributions(vec![first], &["keep.txt".to_string()]).unwrap();
    assert_eq!(r.len(), 1);
    assert_eq!(r[0].0, "keep.txt");
    assert_eq!(r[0].1.total_lines, 2);
}

#[test]
fn overwritten_contributions_refuses_overflowing_counts() {
    let first = partial(vec![("a", record(&[("alice", usize::MAX)]))], &[]);
    let second = partial(vec![("b", record(&[("bob", 1)]))], &[]);
    assert!(overwritten_contributions(vec![first, second], &["a".to_string()]).is_none());
}
