use avl_arena::basic_tree;
use avl_arena::order::locate;
use avl_arena::order::Side;
use avl_arena::Tree;

#[test]
fn cursor_yields_nodes_in_ascending_order() {
    let mut tree: Tree<i64, i64> = Tree::new();
    for key in [4, 2, 7, 1, 3, 6, 8] {
        assert!(tree.insert(key, key * 2));
    }
    let mut cursor = tree.iter_nodes();
    let mut seen = Vec::new();
    while let Some(node) = cursor.next() {
        seen.push((node.key, node.value));
    }
    assert_eq!(seen, vec![(1, 2), (2, 4), (3, 6), (4, 8), (6, 12), (7, 14), (8, 16)]);
}

#[test]
fn cursor_stays_exhausted() {
    let tree = basic_tree();
    let mut cursor = tree.iter_nodes();
    assert_eq!(cursor.next().map(|node| node.key), Some(4));
    assert!(cursor.next().is_none());
    assert!(cursor.next().is_none());
    assert!(cursor.next().is_none());
}

#[test]
fn cursor_over_empty_tree_yields_nothing() {
    let tree: Tree<i64, i64> = Tree::new();
    let mut cursor = tree.iter_nodes();
    assert!(cursor.next().is_none());
    assert!(cursor.next().is_none());
}

#[test]
fn first_node_of_the_walk_is_the_smallest() {
    let mut tree: Tree<i64, i64> = Tree::new();
    for key in [40, 10, 90, -7, 15, 3] {
        assert!(tree.insert(key, 0));
    }
    let mut cursor = tree.iter_nodes();
    assert_eq!(cursor.next().map(|node| node.key), Some(-7));
    assert_eq!(cursor.next().map(|node| node.key), Some(3));
}

#[test]
fn new_cursor_starts_the_walk_again() {
    let mut tree: Tree<i64, i64> = Tree::new();
    for key in [2, 1, 3] {
        assert!(tree.insert(key, 0));
    }
    let mut first = tree.iter_nodes();
    assert_eq!(first.next().map(|node| node.key), Some(1));
    assert_eq!(first.next().map(|node| node.key), Some(2));
    let mut second = tree.iter_nodes();
    assert_eq!(second.next().map(|node| node.key), Some(1));
    assert_eq!(first.next().map(|node| node.key), Some(3));
    assert!(first.next().is_none());
}

#[test]
fn iter_pairs_keys_with_their_values() {
    let mut tree: Tree<String, usize> = Tree::new();
    for word in ["pear", "apple", "quince", "fig"] {
        assert!(tree.insert(word.to_string(), word.len()));
    }
    let entries: Vec<(String, usize)> =
        tree.iter().into_iter().map(|entry| (entry.0.clone(), *entry.1)).collect();
    assert_eq!(
        entries,
        vec![
            ("apple".to_string(), 5),
            ("fig".to_string(), 3),
            ("pear".to_string(), 4),
            ("quince".to_string(), 6),
        ]
    );
}

#[test]
fn locate_says_where_a_key_belongs() {
    assert_eq!(locate(&1, &2), Side::Before);
    assert_eq!(locate(&2, &2), Side::Here);
    assert_eq!(locate(&3, &2), Side::After);
}
