//! Insertion as a function on shapes: where the new node goes, and which
//! rotations restore the balance on the way back up.

use crate::order::lt;
use crate::shape::avl;
use crate::shape::child_height;
use crate::shape::inorder;
use crate::shape::layout_with;
use crate::shape::taller;
use crate::shape::Layout;
use crate::shape::Node;
use vstd::prelude::*;

verus! {

/// The height of a shape: the number of nodes on the longest way down.
pub open spec fn tall(t: Layout) -> nat
    decreases t,
{
    match t {
        Layout::Empty => 0,
        Layout::Fork(l, _, r) => 1 + taller(tall(*l), tall(*r)),
    }
}

/// The positions that a shape names, in symmetric order: those of the
/// left subtree, the root, those of the right subtree.
pub open spec fn flat(t: Layout) -> Seq<usize>
    decreases t,
{
    match t {
        Layout::Empty => Seq::empty(),
        Layout::Fork(l, i, r) => flat(*l) + seq![i] + flat(*r),
    }
}

/// The shape with the left child of its root promoted above the root:
/// the child's right subtree becomes the left subtree of the old root,
/// which becomes the child's right child. A shape without such a child is
/// left as it is.
pub open spec fn turn_right(t: Layout) -> Layout {
    match t {
        Layout::Fork(l, i, r) => match *l {
            Layout::Fork(a, j, b) => Layout::Fork(a, j, Box::new(Layout::Fork(b, i, r))),
            Layout::Empty => t,
        },
        Layout::Empty => t,
    }
}

/// The shape with the right child of its root promoted above the root,
/// the mirror image of `turn_right`.
pub open spec fn turn_left(t: Layout) -> Layout {
    match t {
        Layout::Fork(l, i, r) => match *r {
            Layout::Fork(b, j, a) => Layout::Fork(Box::new(Layout::Fork(l, i, b)), j, a),
            Layout::Empty => t,
        },
        Layout::Empty => t,
    }
}

/// The right subtree of the root of `t` is taller than the left one.
pub open spec fn leans_right(t: Layout) -> bool {
    match t {
        Layout::Fork(l, _, r) => tall(*l) < tall(*r),
        Layout::Empty => false,
    }
}

/// The left subtree of the root of `t` is taller than the right one.
pub open spec fn leans_left(t: Layout) -> bool {
    match t {
        Layout::Fork(l, _, r) => tall(*r) < tall(*l),
        Layout::Empty => false,
    }
}

/// The shape rebalanced at its root. Where the left subtree is taller by
/// two, the root is turned right, after its left child has been turned
/// left if that child leans right; where the right subtree is taller by
/// two, the mirror image; otherwise the shape is left as it is.
pub open spec fn level(t: Layout) -> Layout {
    match t {
        Layout::Empty => t,
        Layout::Fork(l, i, r) => if tall(*l) == tall(*r) + 2 {
            if leans_right(*l) {
                turn_right(Layout::Fork(Box::new(turn_left(*l)), i, r))
            } else {
                turn_right(t)
            }
        } else if tall(*r) == tall(*l) + 2 {
            if leans_left(*r) {
                turn_left(Layout::Fork(l, i, Box::new(turn_right(*r))))
            } else {
                turn_left(t)
            }
        } else {
            t
        },
    }
}

/// The shape `t` with a new node at position `fresh` for `key`: the node
/// is hung where the descent by the keys of `nodes` ends, and every node
/// of the descent is rebalanced on the way back up, the lowest first.
pub open spec fn grown<K: Ord, V>(nodes: Seq<Node<K, V>>, t: Layout, key: K, fresh: usize) -> Layout
    decreases t,
{
    match t {
        Layout::Empty => Layout::Fork(Box::new(Layout::Empty), fresh, Box::new(Layout::Empty)),
        Layout::Fork(l, i, r) => if lt(key, nodes[i as int].key) {
            level(Layout::Fork(Box::new(grown(nodes, *l, key, fresh)), i, r))
        } else {
            level(Layout::Fork(l, i, Box::new(grown(nodes, *r, key, fresh))))
        },
    }
}

/// The shape of a balanced search tree is as tall as the height that its
/// root stores.
pub proof fn lemma_tall<K: Ord, V>(
    nodes: Seq<Node<K, V>>,
    child: Option<usize>,
    lo: Option<K>,
    hi: Option<K>,
    h: nat,
)
    requires
        avl(nodes, child, lo, hi, h),
    ensures
        tall(layout_with(nodes, child, h)) == h,
    decreases h,
{
    if let Some(i) = child {
        let n = nodes[i as int];
        lemma_tall(nodes, n.left, lo, Some(n.key), child_height(nodes, n.left));
        lemma_tall(nodes, n.right, Some(n.key), hi, child_height(nodes, n.right));
    }
}

/// The walk over a subtree names the positions of its shape in symmetric
/// order.
pub proof fn lemma_flat<K: Ord, V>(nodes: Seq<Node<K, V>>, child: Option<usize>, h: nat)
    ensures
        inorder(nodes, child, h) == flat(layout_with(nodes, child, h)),
    decreases h,
{
    if let Some(i) = child {
        let n = nodes[i as int];
        let lh = child_height(nodes, n.left);
        let rh = child_height(nodes, n.right);
        if i < nodes.len() && lh < h && rh < h {
            lemma_flat(nodes, n.left, lh);
            lemma_flat(nodes, n.right, rh);
        }
    }
}

/// Turning a shape keeps the symmetric order of its positions.
pub proof fn lemma_turn_keeps_order(t: Layout)
    ensures
        flat(turn_right(t)) == flat(t),
        flat(turn_left(t)) == flat(t),
{
    match t {
        Layout::Fork(l, i, r) => {
            match *l {
                Layout::Fork(a, j, b) => {
                    let below = Layout::Fork(b, i, r);
                    assert(flat(below) == flat(*b) + seq![i] + flat(*r));
                    assert(flat(*l) == flat(*a) + seq![j] + flat(*b));
                    assert(flat(turn_right(t)) == flat(*a) + seq![j] + flat(below));
                    assert(flat(turn_right(t)) =~= flat(t));
                },
                Layout::Empty => {},
            }
            match *r {
                Layout::Fork(b, j, a) => {
                    let below = Layout::Fork(l, i, b);
                    assert(flat(below) == flat(*l) + seq![i] + flat(*b));
                    assert(flat(*r) == flat(*b) + seq![j] + flat(*a));
                    assert(flat(turn_left(t)) == flat(below) + seq![j] + flat(*a));
                    assert(flat(turn_left(t)) =~= flat(t));
                },
                Layout::Empty => {},
            }
        },
        Layout::Empty => {},
    }
}

/// Rebalancing a shape at its root keeps the symmetric order of its
/// positions.
pub proof fn lemma_level_keeps_order(t: Layout)
    ensures
        flat(level(t)) == flat(t),
{
    match t {
        Layout::Fork(l, i, r) => {
            lemma_turn_keeps_order(t);
            lemma_turn_keeps_order(*l);
            lemma_turn_keeps_order(*r);
            lemma_turn_keeps_order(Layout::Fork(Box::new(turn_left(*l)), i, r));
            lemma_turn_keeps_order(Layout::Fork(l, i, Box::new(turn_right(*r))));
        },
        Layout::Empty => {},
    }
}

} // verus!
