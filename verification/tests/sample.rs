use avl_arena::basic_tree;
use avl_arena::sample::insert_all;
use avl_arena::sample::random_entries;
use avl_arena::sample::KEY_HIGH;
use avl_arena::sample::KEY_LOW;
use avl_arena::sample::VALUE_HIGH;
use avl_arena::sample::VALUE_LOW;
use avl_arena::Tree;

#[test]
fn random_entries_are_as_many_as_asked_for() {
    assert_eq!(random_entries(0).len(), 0);
    assert_eq!(random_entries(1).len(), 1);
    assert_eq!(random_entries(777).len(), 777);
}

#[test]
fn random_entries_lie_in_their_ranges() {
    assert_eq!(KEY_LOW, -1000000000);
    assert_eq!(KEY_HIGH, 10000000000);
    assert_eq!(VALUE_LOW, -10);
    assert_eq!(VALUE_HIGH, 10);
    for entry in random_entries(5000) {
        assert!(KEY_LOW <= entry.0 && entry.0 < KEY_HIGH);
        assert!(VALUE_LOW <= entry.1 && entry.1 < VALUE_HIGH);
    }
}

#[test]
fn random_entries_are_not_all_the_same() {
    let entries = random_entries(2000);
    assert!(entries.iter().any(|entry| entry.0 != entries[0].0));
    assert!(entries.iter().any(|entry| entry.1 != entries[0].1));
}

#[test]
fn insert_all_passes_over_keys_already_held() {
    let mut tree = basic_tree();
    let added = insert_all(&mut tree, &vec![(9, 1), (4, 7), (1, 2), (9, 3), (6, 0)]);
    assert_eq!(added, 3);
    assert_eq!(tree.nodes.len(), 4);
    let entries: Vec<(i64, i8)> = tree.iter().into_iter().map(|e| (*e.0, *e.1)).collect();
    assert_eq!(entries, vec![(1, 2), (4, 2), (6, 0), (9, 1)]);
}

#[test]
fn insert_all_of_nothing_changes_nothing() {
    let mut tree = basic_tree();
    assert_eq!(insert_all(&mut tree, &vec![]), 0);
    assert_eq!(tree.nodes.len(), 1);
}

#[test]
fn tree_of_random_entries_walks_in_sorted_order() {
    let randoms = random_entries(3000);
    let mut tree: Tree<i64, i8> = Tree::new();
    let added = insert_all(&mut tree, &randoms);
    let mut keys: Vec<i64> = randoms.iter().map(|entry| entry.0).collect();
    keys.sort();
    keys.dedup();
    assert_eq!(added, keys.len());
    let walked: Vec<i64> = tree.iter().into_iter().map(|entry| *entry.0).collect();
    assert_eq!(walked, keys);
    for i in 0..tree.nodes.len() {
        let factor = tree.balance_factor(i).unwrap();
        assert!((-1..=1).contains(&factor));
    }
}
