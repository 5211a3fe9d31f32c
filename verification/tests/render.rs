use avl_arena::render::tree_for_rendering;
use avl_arena::NodeForRendering;
use avl_arena::Tree;

fn mirrors(drawn: &NodeForRendering<i64, i64>, tree: &Tree<i64, i64>, at: usize) -> usize {
    let node = &tree.nodes[at];
    assert_eq!(drawn.key, node.key);
    assert_eq!(drawn.value, node.value);
    assert_eq!(drawn.name, format!("{}: {}", node.key, node.value));
    let children: Vec<usize> = node.left.into_iter().chain(node.right).collect();
    assert_eq!(drawn.children.len(), children.len());
    let mut count = 1;
    for (child, below) in drawn.children.iter().zip(children) {
        count += mirrors(child, tree, below);
    }
    count
}

#[test]
fn label_is_key_colon_value() {
    let node = NodeForRendering::new(4i64, 2i8, vec![]);
    assert_eq!(node.name, "4: 2");
    assert_eq!(node.key, 4);
    assert_eq!(node.value, 2);
    assert!(node.children.is_empty());
}

#[test]
fn label_uses_debug_formatting() {
    let node = NodeForRendering::new("k".to_string(), Some(1u8), vec![]);
    assert_eq!(node.name, "\"k\": Some(1)");
}

#[test]
fn new_keeps_the_children() {
    let leaf = NodeForRendering::new(1i64, 0i8, vec![]);
    let other = NodeForRendering::new(3i64, 0i8, vec![]);
    let node = NodeForRendering::new(2i64, 0i8, vec![leaf, other]);
    assert_eq!(node.children.len(), 2);
    assert_eq!(node.children[0].key, 1);
    assert_eq!(node.children[1].key, 3);
}

#[test]
fn drawn_tree_copies_the_shape() {
    let mut tree: Tree<i64, i64> = Tree::new();
    for key in [4, 2, 7, 1] {
        assert!(tree.insert(key, key * 10));
    }
    let drawn = tree_for_rendering(&tree);
    assert_eq!(drawn.name, "4: 40");
    assert_eq!(drawn.children.len(), 2);
    assert_eq!(drawn.children[0].name, "2: 20");
    assert_eq!(drawn.children[1].name, "7: 70");
    assert_eq!(drawn.children[0].children.len(), 1);
    assert_eq!(drawn.children[0].children[0].name, "1: 10");
    assert!(drawn.children[1].children.is_empty());
}

#[test]
fn drawn_tree_with_only_a_right_child() {
    let mut tree: Tree<i64, i64> = Tree::new();
    for key in [4, 9] {
        assert!(tree.insert(key, 0));
    }
    let drawn = tree_for_rendering(&tree);
    assert_eq!(drawn.children.len(), 1);
    assert_eq!(drawn.children[0].key, 9);
}

#[test]
fn drawn_tree_of_one_node_has_no_children() {
    let mut tree: Tree<i64, i64> = Tree::new();
    assert!(tree.insert(5, 6));
    let drawn = tree_for_rendering(&tree);
    assert_eq!(drawn.name, "5: 6");
    assert!(drawn.children.is_empty());
}

#[test]
fn drawn_tree_mirrors_every_node() {
    let mut tree: Tree<i64, i64> = Tree::new();
    for i in 0..500 {
        assert!(tree.insert((i * 7919) % 10007, i));
    }
    let drawn = tree_for_rendering(&tree);
    assert_eq!(mirrors(&drawn, &tree, tree.root), 500);
}
