use std::collections::BTreeMap;

use authorship::record::Contributions;
use authorship::tree::{path_segments, DirTree};

fn record(entries: &[(&str, usize)]) -> Contributions {
    let mut c = Contributions::new();
    for (a, n) in entries {
        c.add_lines(a.to_string(), *n);
    }
    c
}

fn as_map(c: &Contributions) -> BTreeMap<String, usize> {
    c.authors.iter().cloned().collect()
}

fn segs(v: &[&str]) -> Vec<String> {
    v.iter().map(|s| s.to_string()).collect()
}

#[test]
fn path_segments_splits_on_slashes() {
    assert_eq!(path_segments("a/b/c.txt"), segs(&["a", "b", "c.txt"]));
    assert_eq!(path_segments("/a//b/"), segs(&["a", "b"]));
    assert_eq!(path_segments("file"), segs(&["file"]));
    assert!(path_segments("").is_empty());
}

#[test]
fn tree_aggregates_directories_and_root() {
    let files = vec![
        (path_segments("a/b.txt"), record(&[("alice", 4)])),
        (path_segments("a/c.txt"), record(&[("bob", 6)])),
    ];
    let t = DirTree::from_files(&files).unwrap();
    let expected = BTreeMap::from([("alice".to_string(), 4), ("bob".to_string(), 6)]);
    let a = t.node_index(&segs(&["a"])).unwrap();
    assert_eq!(t.nodes[a].1.total_lines, 10);
    assert_eq!(as_map(&t.nodes[a].1), expected);
    let root = t.node_index(&segs(&[])).unwrap();
    assert_eq!(t.nodes[root].1.total_lines, 10);
    assert_eq!(as_map(&t.nodes[root].1), expected);
    let b = t.node_index(&segs(&["a", "b.txt"])).unwrap();
    assert_eq!(t.nodes[b].1.total_lines, 4);
    assert_eq!(t.nodes.len(), 4);
}

#[test]
fn tree_children_are_direct_entries() {
    let files = vec![
        (path_segments("a/b.txt"), record(&[("alice", 4)])),
        (path_segments("a/c.txt"), record(&[("bob", 6)])),
        (path_segments("top.txt"), record(&[("carol", 1)])),
    ];
    let t = DirTree::from_files(&files).unwrap();
    let root = t.node_index(&segs(&[])).unwrap();
    let names: Vec<&str> = t.children_of(root).iter().map(|i| t.nodes[*i].0.last().unwrap().as_str()).collect();
    assert_eq!(names, vec!["a", "top.txt"]);
    let a = t.node_index(&segs(&["a"])).unwrap();
    assert_eq!(t.children_of(a).len(), 2);
    assert!(t.node_index(&segs(&["missing"])).is_none());
}

#[test]
fn tree_refuses_overflowing_totals() {
    let files = vec![
        (path_segments("x"), record(&[("alice", usize::MAX)])),
        (path_segments("y"), record(&[("bob", 1)])),
    ];
    assert!(DirTree::from_files(&files).is_none());
}
