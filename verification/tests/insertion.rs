use avl_arena::basic_tree;
use avl_arena::Node;
use avl_arena::Tree;

fn keys_in_order(tree: &Tree<i64, i64>) -> Vec<i64> {
    tree.iter().into_iter().map(|entry| *entry.0).collect()
}

fn tree_of(keys: &[i64]) -> Tree<i64, i64> {
    let mut tree = Tree::new();
    for key in keys {
        assert!(tree.insert(*key, *key * 10));
    }
    tree
}

fn key_at(tree: &Tree<i64, i64>, at: Option<usize>) -> Option<i64> {
    at.map(|i| tree.nodes[i].key)
}

fn same_node(a: &Node<i64, i64>, b: &Node<i64, i64>) -> bool {
    a.key == b.key
        && a.value == b.value
        && a.left == b.left
        && a.right == b.right
        && a.height == b.height
        && a.parent == b.parent
}

fn scattered(count: i64) -> Vec<i64> {
    (0..count).map(|i| (i * 7919) % 10007 - 5000).collect()
}

#[test]
fn seed_tree_has_one_leaf() {
    let tree = basic_tree();
    assert_eq!(tree.nodes.len(), 1);
    assert_eq!(tree.root, 0);
    assert_eq!(tree.nodes[0].key, 4);
    assert_eq!(tree.nodes[0].value, 2);
    assert_eq!(tree.nodes[0].left, None);
    assert_eq!(tree.nodes[0].right, None);
    assert_eq!(tree.nodes[0].parent, None);
    assert_eq!(tree.nodes[0].height, 1);
}

#[test]
fn new_tree_is_empty() {
    let tree: Tree<i64, i64> = Tree::new();
    assert_eq!(tree.nodes.len(), 0);
    assert_eq!(tree.iter().len(), 0);
}

#[test]
fn first_insert_makes_the_root() {
    let mut tree: Tree<i64, i64> = Tree::new();
    assert!(tree.insert(9, 90));
    assert_eq!(tree.root, 0);
    assert_eq!(tree.nodes.len(), 1);
    assert_eq!(tree.nodes[0].key, 9);
    assert_eq!(tree.nodes[0].value, 90);
    assert_eq!(tree.nodes[0].height, 1);
    assert_eq!(tree.nodes[0].parent, None);
}

#[test]
fn insert_into_seed_tree() {
    let mut tree = basic_tree();
    assert!(tree.insert(2, 1));
    assert!(tree.insert(7, 3));
    assert_eq!(tree.nodes.len(), 3);
    assert_eq!(tree.root, 0);
    assert_eq!(tree.nodes[0].left, Some(1));
    assert_eq!(tree.nodes[0].right, Some(2));
    assert_eq!(tree.nodes[0].height, 2);
    assert_eq!(tree.nodes[1].parent, Some(0));
    assert_eq!(tree.nodes[2].parent, Some(0));
    assert_eq!(tree.nodes[1].key, 2);
    assert_eq!(tree.nodes[2].value, 3);
}

#[test]
fn new_node_is_appended_and_others_stay_in_place() {
    let keys = [50, 20, 70, 10, 30, 60, 80, 5, 1];
    let mut tree: Tree<i64, i64> = Tree::new();
    for (at, key) in keys.iter().enumerate() {
        assert!(tree.insert(*key, *key + 1));
        assert_eq!(tree.nodes.len(), at + 1);
        for (i, earlier) in keys.iter().take(at + 1).enumerate() {
            assert_eq!(tree.nodes[i].key, *earlier);
            assert_eq!(tree.nodes[i].value, *earlier + 1);
        }
    }
}

#[test]
fn duplicate_is_rejected_and_nothing_changes() {
    let mut tree = tree_of(&[4, 2, 7, 1, 3, 6, 8]);
    let before = tree.clone();
    for key in [4, 2, 7, 1, 3, 6, 8] {
        assert!(!tree.insert(key, -1));
        assert_eq!(tree.root, before.root);
        assert_eq!(tree.nodes.len(), before.nodes.len());
        for i in 0..tree.nodes.len() {
            assert!(same_node(&tree.nodes[i], &before.nodes[i]));
        }
    }
}

#[test]
fn duplicate_of_seed_key_is_rejected() {
    let mut tree = basic_tree();
    assert!(!tree.insert(4, 9));
    assert_eq!(tree.nodes.len(), 1);
    assert_eq!(tree.nodes[0].value, 2);
    assert_eq!(tree.nodes[0].height, 1);
}

#[test]
fn rising_keys_rotate_left() {
    let tree = tree_of(&[1, 2, 3]);
    let root = &tree.nodes[tree.root];
    assert_eq!(root.key, 2);
    assert_eq!(key_at(&tree, root.left), Some(1));
    assert_eq!(key_at(&tree, root.right), Some(3));
    assert_eq!(root.parent, None);
    assert_eq!(root.height, 2);
    assert_eq!(tree.nodes[0].parent, Some(1));
    assert_eq!(tree.nodes[2].parent, Some(1));
    assert_eq!(tree.nodes[0].height, 1);
    assert_eq!(tree.nodes[0].right, None);
}

#[test]
fn falling_keys_rotate_right() {
    let tree = tree_of(&[3, 2, 1]);
    let root = &tree.nodes[tree.root];
    assert_eq!(root.key, 2);
    assert_eq!(key_at(&tree, root.left), Some(1));
    assert_eq!(key_at(&tree, root.right), Some(3));
    assert_eq!(root.height, 2);
    assert_eq!(tree.nodes[0].height, 1);
    assert_eq!(tree.nodes[0].left, None);
    assert_eq!(tree.nodes[0].parent, Some(1));
}

#[test]
fn left_right_zig_zag_rotates_twice() {
    let tree = tree_of(&[3, 1, 2]);
    let root = &tree.nodes[tree.root];
    assert_eq!(tree.root, 2);
    assert_eq!(root.key, 2);
    assert_eq!(key_at(&tree, root.left), Some(1));
    assert_eq!(key_at(&tree, root.right), Some(3));
    assert_eq!(root.height, 2);
    assert_eq!(tree.nodes[0].height, 1);
    assert_eq!(tree.nodes[1].height, 1);
    assert_eq!(tree.nodes[0].left, None);
    assert_eq!(tree.nodes[1].right, None);
    assert_eq!(tree.nodes[0].parent, Some(2));
    assert_eq!(tree.nodes[1].parent, Some(2));
}

#[test]
fn right_left_zig_zag_rotates_twice() {
    let tree = tree_of(&[1, 3, 2]);
    let root = &tree.nodes[tree.root];
    assert_eq!(tree.root, 2);
    assert_eq!(root.key, 2);
    assert_eq!(key_at(&tree, root.left), Some(1));
    assert_eq!(key_at(&tree, root.right), Some(3));
    assert_eq!(root.height, 2);
    assert_eq!(tree.nodes[0].right, None);
    assert_eq!(tree.nodes[1].left, None);
}

#[test]
fn rotation_below_the_root_relinks_the_parent() {
    let tree = tree_of(&[10, 5, 20, 30, 40]);
    assert_eq!(tree.nodes[tree.root].key, 10);
    let right = tree.nodes[tree.root].right.unwrap();
    assert_eq!(tree.nodes[right].key, 30);
    assert_eq!(tree.nodes[right].parent, Some(tree.root));
    assert_eq!(key_at(&tree, tree.nodes[right].left), Some(20));
    assert_eq!(key_at(&tree, tree.nodes[right].right), Some(40));
    assert_eq!(tree.nodes[right].height, 2);
    assert_eq!(tree.nodes[tree.root].height, 3);
}

#[test]
fn rotation_hands_the_inner_subtree_over() {
    let tree = tree_of(&[50, 30, 70, 20, 40, 10]);
    let root = &tree.nodes[tree.root];
    assert_eq!(root.key, 30);
    let right = root.right.unwrap();
    assert_eq!(tree.nodes[right].key, 50);
    let inner = tree.nodes[right].left.unwrap();
    assert_eq!(tree.nodes[inner].key, 40);
    assert_eq!(tree.nodes[inner].parent, Some(right));
    assert_eq!(key_at(&tree, tree.nodes[right].right), Some(70));
    assert_eq!(keys_in_order(&tree), vec![10, 20, 30, 40, 50, 70]);
}

#[test]
fn walk_is_ascending() {
    let tree = tree_of(&[4, 2, 7, 1, 3, 6, 8]);
    assert_eq!(keys_in_order(&tree), vec![1, 2, 3, 4, 6, 7, 8]);
}

#[test]
fn walk_equals_sorted_keys() {
    let tree = tree_of(&[5, -3, 10, 0, 7]);
    assert_eq!(keys_in_order(&tree), vec![-3, 0, 5, 7, 10]);
}

#[test]
fn walk_equals_sorted_keys_for_many() {
    let keys = scattered(2000);
    let tree = tree_of(&keys);
    let mut sorted = keys.clone();
    sorted.sort();
    assert_eq!(keys_in_order(&tree), sorted);
    let values: Vec<i64> = tree.iter().into_iter().map(|entry| *entry.1).collect();
    let expected: Vec<i64> = sorted.iter().map(|key| key * 10).collect();
    assert_eq!(values, expected);
}

#[test]
fn cardinality_from_empty_and_from_seed() {
    let keys = scattered(300);
    let tree = tree_of(&keys);
    assert_eq!(tree.nodes.len(), 300);
    assert_eq!(tree.iter().len(), 300);

    let mut seeded = basic_tree();
    let mut added = 0;
    for key in [9i64, 1, 7, 3, 5, 11, 2] {
        assert!(seeded.insert(key, 0));
        added += 1;
        assert_eq!(seeded.nodes.len(), added + 1);
        assert_eq!(seeded.iter().len(), added + 1);
    }
}

#[test]
fn every_key_is_found_again_as_duplicate() {
    let keys = scattered(400);
    let mut tree = tree_of(&keys);
    for key in &keys {
        assert!(!tree.insert(*key, 0));
    }
    assert_eq!(tree.nodes.len(), 400);
    assert!(tree.insert(6000, 0));
}
