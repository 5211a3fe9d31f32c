use avl_arena::basic_tree;
use avl_arena::Tree;

fn measured_height(tree: &Tree<i64, i64>, at: Option<usize>) -> usize {
    match at {
        None => 0,
        Some(i) => {
            let left = measured_height(tree, tree.nodes[i].left);
            let right = measured_height(tree, tree.nodes[i].right);
            1 + left.max(right)
        }
    }
}

fn count_in_order(tree: &Tree<i64, i64>, at: Option<usize>, lo: Option<i64>, hi: Option<i64>) -> usize {
    match at {
        None => 0,
        Some(i) => {
            let node = &tree.nodes[i];
            if let Some(lo) = lo {
                assert!(lo < node.key);
            }
            if let Some(hi) = hi {
                assert!(node.key < hi);
            }
            1 + count_in_order(tree, node.left, lo, Some(node.key))
                + count_in_order(tree, node.right, Some(node.key), hi)
        }
    }
}

fn links_match(tree: &Tree<i64, i64>) {
    assert_eq!(tree.nodes[tree.root].parent, None);
    for (i, node) in tree.nodes.iter().enumerate() {
        if let Some(left) = node.left {
            assert_eq!(tree.nodes[left].parent, Some(i));
        }
        if let Some(right) = node.right {
            assert_eq!(tree.nodes[right].parent, Some(i));
        }
        match node.parent {
            None => assert_eq!(i, tree.root),
            Some(p) => {
                assert!(tree.nodes[p].left == Some(i) || tree.nodes[p].right == Some(i));
                assert!(tree.nodes[p].left != tree.nodes[p].right);
            }
        }
    }
}

fn scattered(count: i64) -> Vec<i64> {
    (0..count).map(|i| (i * 7919) % 10007 - 5000).collect()
}

#[test]
fn balance_holds_after_every_insert() {
    let mut tree: Tree<i64, i64> = Tree::new();
    for key in scattered(600) {
        assert!(tree.insert(key, key));
        for i in 0..tree.nodes.len() {
            let factor = tree.balance_factor(i).unwrap();
            assert!((-1..=1).contains(&factor));
        }
    }
}

#[test]
fn stored_heights_equal_measured_heights_after_every_insert() {
    let mut tree: Tree<i64, i64> = Tree::new();
    for key in scattered(600) {
        assert!(tree.insert(key, key));
        for i in 0..tree.nodes.len() {
            assert_eq!(tree.nodes[i].height, measured_height(&tree, Some(i)));
        }
    }
}

#[test]
fn order_and_links_hold_after_every_insert() {
    let mut tree: Tree<i64, i64> = Tree::new();
    for key in scattered(500) {
        assert!(tree.insert(key, key));
        assert_eq!(count_in_order(&tree, Some(tree.root), None, None), tree.nodes.len());
        links_match(&tree);
    }
}

#[test]
fn rising_keys_keep_the_tree_shallow() {
    let mut tree: Tree<i64, i64> = Tree::new();
    for key in 0..1023 {
        assert!(tree.insert(key, 0));
    }
    assert_eq!(tree.nodes[tree.root].height, 10);
    assert_eq!(tree.nodes[tree.root].key, 511);
}

#[test]
fn falling_keys_keep_the_tree_shallow() {
    let mut tree: Tree<i64, i64> = Tree::new();
    for key in (0..1023).rev() {
        assert!(tree.insert(key, 0));
    }
    assert_eq!(tree.nodes[tree.root].height, 10);
    assert_eq!(tree.nodes[tree.root].key, 511);
}

#[test]
fn balance_factor_is_left_height_less_right_height() {
    let mut tree = basic_tree();
    assert_eq!(tree.balance_factor(0), Some(0));
    assert!(tree.insert(2, 0));
    assert_eq!(tree.balance_factor(0), Some(1));
    assert_eq!(tree.balance_factor(1), Some(0));
    assert!(tree.insert(7, 0));
    assert_eq!(tree.balance_factor(0), Some(0));
    assert!(tree.insert(9, 0));
    assert_eq!(tree.balance_factor(0), Some(-1));
    assert_eq!(tree.balance_factor(2), Some(-1));
    assert_eq!(tree.balance_factor(3), Some(0));
}

#[test]
fn balance_factor_of_no_node_is_none() {
    let mut tree = basic_tree();
    assert_eq!(tree.balance_factor(1), None);
    assert_eq!(tree.balance_factor(usize::MAX), None);
    assert!(tree.insert(1, 0));
    assert_eq!(tree.balance_factor(1), Some(0));
    assert_eq!(tree.balance_factor(2), None);
    let empty: Tree<i64, i64> = Tree::new();
    assert_eq!(empty.balance_factor(0), None);
}

#[derive(Clone, Debug, PartialEq)]
enum Shape {
    Empty,
    Fork(Box<Shape>, i64, Box<Shape>),
}

fn shape_of(tree: &Tree<i64, i64>, at: Option<usize>) -> Shape {
    match at {
        None => Shape::Empty,
        Some(i) => Shape::Fork(
            Box::new(shape_of(tree, tree.nodes[i].left)),
            tree.nodes[i].key,
            Box::new(shape_of(tree, tree.nodes[i].right)),
        ),
    }
}

fn tall(shape: &Shape) -> usize {
    match shape {
        Shape::Empty => 0,
        Shape::Fork(l, _, r) => 1 + tall(l).max(tall(r)),
    }
}

fn turn_right(shape: Shape) -> Shape {
    match shape {
        Shape::Fork(l, key, r) => match *l {
            Shape::Fork(a, low, b) => Shape::Fork(a, low, Box::new(Shape::Fork(b, key, r))),
            Shape::Empty => Shape::Fork(Box::new(Shape::Empty), key, r),
        },
        Shape::Empty => Shape::Empty,
    }
}

fn turn_left(shape: Shape) -> Shape {
    match shape {
        Shape::Fork(l, key, r) => match *r {
            Shape::Fork(b, low, a) => Shape::Fork(Box::new(Shape::Fork(l, key, b)), low, a),
            Shape::Empty => Shape::Fork(l, key, Box::new(Shape::Empty)),
        },
        Shape::Empty => Shape::Empty,
    }
}

fn level(shape: Shape) -> Shape {
    match shape {
        Shape::Empty => Shape::Empty,
        Shape::Fork(l, key, r) => {
            if tall(&l) == tall(&r) + 2 {
                let leans_right = matches!(&*l, Shape::Fork(a, _, b) if tall(a) < tall(b));
                let l = if leans_right { turn_left(*l) } else { *l };
                turn_right(Shape::Fork(Box::new(l), key, r))
            } else if tall(&r) == tall(&l) + 2 {
                let leans_left = matches!(&*r, Shape::Fork(b, _, a) if tall(a) < tall(b));
                let r = if leans_left { turn_right(*r) } else { *r };
                turn_left(Shape::Fork(l, key, Box::new(r)))
            } else {
                Shape::Fork(l, key, r)
            }
        }
    }
}

fn grown(shape: Shape, key: i64) -> Shape {
    match shape {
        Shape::Empty => Shape::Fork(Box::new(Shape::Empty), key, Box::new(Shape::Empty)),
        Shape::Fork(l, at, r) => {
            if key < at {
                level(Shape::Fork(Box::new(grown(*l, key)), at, r))
            } else {
                level(Shape::Fork(l, at, Box::new(grown(*r, key))))
            }
        }
    }
}

#[test]
fn shape_follows_the_rebalancing_rule_after_every_insert() {
    let mut tree: Tree<i64, i64> = Tree::new();
    let mut expected = Shape::Empty;
    for key in scattered(400) {
        assert!(tree.insert(key, key));
        expected = grown(expected, key);
        assert_eq!(shape_of(&tree, Some(tree.root)), expected);
    }
}

#[test]
fn shape_after_a_double_rotation() {
    let mut tree: Tree<i64, i64> = Tree::new();
    for key in [50, 20, 60, 10, 30, 25] {
        assert!(tree.insert(key, 0));
    }
    let leaf = |key| Shape::Fork(Box::new(Shape::Empty), key, Box::new(Shape::Empty));
    let left = Shape::Fork(Box::new(leaf(10)), 20, Box::new(leaf(25)));
    let right = Shape::Fork(Box::new(Shape::Empty), 50, Box::new(leaf(60)));
    assert_eq!(shape_of(&tree, Some(tree.root)), Shape::Fork(Box::new(left), 30, Box::new(right)));
}
