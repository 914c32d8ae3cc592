use std::collections::BTreeMap;

use authorship::record::Contributions;

fn record(entries: &[(&str, usize)]) -> Contributions {
    let mut c = Contributions::new();
    for (a, n) in entries {
        c.add_lines(a.to_string(), *n);
    }
    c
}

fn as_map(c: &Contributions) -> BTreeMap<String, usize> {
    c.authors.iter().cloned().collect()
}

fn ids(v: &[&str]) -> Vec<String> {
    v.iter().map(|s| s.to_string()).collect()
}

#[test]
fn add_lines_accumulates_per_author() {
    let c = record(&[("alice", 3), ("bob", 2), ("alice", 4)]);
    assert_eq!(c.total_lines, 9);
    assert_eq!(as_map(&c), BTreeMap::from([("alice".to_string(), 7), ("bob".to_string(), 2)]));
}

#[test]
fn total_matches_sum_after_every_operation() {
    let mut c = record(&[("alice", 3), ("bob", 2)]);
    let sum = |c: &Contributions| c.authors.iter().map(|e| e.1).sum::<usize>();
    assert_eq!(c.total_lines, sum(&c));
    c.merge(record(&[("carol", 5), ("bob", 1)]));
    assert_eq!(c.total_lines, sum(&c));
    c.filter_ignored(&ids(&["bob"]));
    assert_eq!(c.total_lines, sum(&c));
    assert_eq!(c.total_lines, 8);
}

#[test]
fn merge_with_empty_record_is_identity() {
    let mut a = record(&[("alice", 10), ("bob", 5)]);
    a.merge(Contributions::new());
    assert_eq!(as_map(&a), as_map(&record(&[("alice", 10), ("bob", 5)])));
    assert_eq!(a.total_lines, 15);
    let mut e = Contributions::new();
    e.merge(record(&[("alice", 10), ("bob", 5)]));
    assert_eq!(as_map(&e), as_map(&a));
    assert_eq!(e.total_lines, 15);
}

#[test]
fn merge_is_commutative_and_associative() {
    let a = || record(&[("alice", 1), ("bob", 2)]);
    let b = || record(&[("bob", 3), ("carol", 4)]);
    let c = || record(&[("alice", 5), ("dave", 6)]);
    let mut ab = a();
    ab.merge(b());
    let mut ba = b();
    ba.merge(a());
    assert_eq!(as_map(&ab), as_map(&ba));
    assert_eq!(ab.total_lines, ba.total_lines);
    let mut ab_c = a();
    ab_c.merge(b());
    ab_c.merge(c());
    let mut bc = b();
    bc.merge(c());
    let mut a_bc = a();
    a_bc.merge(bc);
    assert_eq!(as_map(&ab_c), as_map(&a_bc));
    assert_eq!(ab_c.total_lines, 21);
    assert_eq!(a_bc.total_lines, 21);
}

#[test]
fn filter_ignored_drops_ignored_author() {
    let mut c = record(&[("alice", 10), ("bob", 5)]);
    c.filter_ignored(&ids(&["alice"]));
    assert_eq!(as_map(&c), BTreeMap::from([("bob".to_string(), 5)]));
    assert_eq!(c.total_lines, 5);
}

#[test]
fn filter_ignored_without_match_keeps_record() {
    let mut c = record(&[("alice", 10), ("bob", 5)]);
    c.filter_ignored(&ids(&["zed"]));
    assert_eq!(c.total_lines, 15);
    assert_eq!(c.authors.len(), 2);
}

#[test]
fn lines_by_user_sums_listed_identities() {
    let c = record(&[("alice", 10), ("bob", 5), ("carol", 1)]);
    assert_eq!(c.lines_by_user(&ids(&["alice", "carol"])), 11);
    assert_eq!(c.lines_by_user(&ids(&["alice", "alice"])), 10);
    assert_eq!(c.lines_by_user(&ids(&["nobody"])), 0);
    assert_eq!(c.lines_by_user(&ids(&[])), 0);
}

#[test]
fn ratio_of_sole_author_is_one() {
    let c = record(&[("alice", 7)]);
    assert!(c.total_lines > 0);
    let ratio = c.lines_by_user(&ids(&["alice"])) as f64 / c.total_lines as f64;
    assert_eq!(ratio, 1.0);
}

#[test]
fn zero_total_records_are_left_out_before_ratios() {
    let files = vec![record(&[("alice", 3)]), Contributions::new(), record(&[("bob", 0)])];
    let kept: Vec<&Contributions> = files.iter().filter(|c| c.total_lines > 0).collect();
    assert_eq!(kept.len(), 1);
    assert_eq!(kept[0].lines_by_user(&ids(&["alice"])), 3);
}

#[test]
fn top_authors_orders_by_lines_then_identity() {
    let c = record(&[("carol", 5), ("alice", 5), ("bob", 9)]);
    let top = c.top_authors(3);
    let names: Vec<&str> = top.iter().map(|e| e.0.as_str()).collect();
    assert_eq!(names, vec!["bob", "alice", "carol"]);
    assert_eq!(c.top_authors(1), vec![("bob".to_string(), 9)]);
    assert_eq!(c.top_authors(10).len(), 3);
    assert!(c.top_authors(0).is_empty());
}

#[test]
fn authors_str_formats_top_shares() {
    let c = record(&[("bob", 1), ("alice", 2)]);
    assert_eq!(c.authors_str(3), "(alice: 66.7%, bob: 33.3%)");
    assert_eq!(c.authors_str(1), "(alice: 66.7%)");
    assert_eq!(c.authors_str(0), "()");
}

#[test]
fn authors_str_rounds_half_to_even() {
    let c = record(&[("a", 1), ("b", 15)]);
    assert_eq!(c.authors_str(2), "(b: 93.8%, a: 6.2%)");
    let whole = record(&[("x", 4)]);
    assert_eq!(whole.authors_str(3), "(x: 100.0%)");
}

#[test]
fn authors_str_of_empty_total_reports_nan() {
    let c = record(&[("alice", 0)]);
    assert_eq!(c.authors_str(3), "(alice: NaN%)");
    assert_eq!(Contributions::new().authors_str(3), "()");
}
