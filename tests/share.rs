use authorship::rank::order_by_name;
use authorship::share::rank_by_share;

fn names(v: &[&str]) -> Vec<String> {
    v.iter().map(|s| s.to_string()).collect()
}

#[test]
fn rank_by_share_orders_largest_first_and_keeps_ties_in_order() {
    let items = vec![(1, 2), (3, 4), (0, 5), (1, 2)];
    assert_eq!(rank_by_share(&items, false, false), vec![1, 0, 3]);
    assert_eq!(rank_by_share(&items, true, false), vec![1, 0, 3, 2]);
}

#[test]
fn rank_by_share_reversed_puts_smallest_first() {
    let items = vec![(1, 2), (3, 4), (0, 5), (1, 2)];
    assert_eq!(rank_by_share(&items, false, true), vec![0, 3, 1]);
    assert_eq!(rank_by_share(&items, true, true), vec![2, 0, 3, 1]);
}

#[test]
fn rank_by_share_compares_exact_ratios() {
    let items = vec![(1, 3), (2, 6), (333, 1000)];
    assert_eq!(rank_by_share(&items, false, false), vec![0, 1, 2]);
    assert!(rank_by_share(&[].to_vec(), true, false).is_empty());
}

#[test]
fn order_by_name_sorts_stably() {
    assert_eq!(order_by_name(&names(&["b", "a", "b", "c"])), vec![1, 0, 2, 3]);
    assert_eq!(order_by_name(&names(&["ab", "a", "B", ""])), vec![3, 2, 1, 0]);
    assert!(order_by_name(&names(&[])).is_empty());
}
