//! Nodes, and what it means for an arena of nodes to hold a balanced search
//! tree.

use crate::order::in_range;
use crate::order::lemma_order;
use crate::order::same;
use crate::order::total_order;
use vstd::prelude::*;

verus! {

/// One entry of the tree. `left`, `right` and `parent` are positions in the
/// arena that holds the node.
#[derive(Debug, Clone)]
pub struct Node<K: Ord, V> {
    pub key: K,
    pub value: V,
    pub left: Option<usize>,
    pub right: Option<usize>,
    pub height: usize,
    pub parent: Option<usize>,
}

/// The height of the subtree that `child` refers to; an absent child has
/// height 0.
pub open spec fn child_height<K: Ord, V>(nodes: Seq<Node<K, V>>, child: Option<usize>) -> nat {
    match child {
        Some(c) if c < nodes.len() => nodes[c as int].height as nat,
        _ => 0,
    }
}

/// The larger of two heights.
pub open spec fn taller(a: nat, b: nat) -> nat {
    if a >= b {
        a
    } else {
        b
    }
}

/// The subtree that `child` refers to is a balanced search tree of height
/// `h`, all of its keys lie strictly between `lo` and `hi`, and it holds
/// every key of the arena that lies between them.
pub open spec fn avl<K: Ord, V>(
    nodes: Seq<Node<K, V>>,
    child: Option<usize>,
    lo: Option<K>,
    hi: Option<K>,
    h: nat,
) -> bool
    decreases h,
{
    match child {
        None => {
            &&& h == 0
            &&& forall|j: int| 0 <= j < nodes.len() ==> !in_range(lo, (#[trigger] nodes[j]).key, hi)
        },
        Some(i) => {
            let n = nodes[i as int];
            let lh = child_height(nodes, n.left);
            let rh = child_height(nodes, n.right);
            &&& i < nodes.len()
            &&& n.height == h
            &&& in_range(lo, n.key, hi)
            &&& h == 1 + taller(lh, rh)
            &&& lh <= rh + 1
            &&& rh <= lh + 1
            &&& avl(nodes, n.left, lo, Some(n.key), lh)
            &&& avl(nodes, n.right, Some(n.key), hi, rh)
        },
    }
}

/// The reference `r` is present and names position `i`.
pub open spec fn points_to(r: Option<usize>, i: int) -> bool {
    r matches Some(x) && x == i
}

/// The references of the node at `i` are matched: each child names it as
/// parent, its parent names it as a child, and it has no parent exactly
/// when it is the root.
pub open spec fn link_ok_at<K: Ord, V>(nodes: Seq<Node<K, V>>, root: usize, i: int) -> bool {
    let n = nodes[i];
    &&& (n.left matches Some(l) ==> l < nodes.len() && points_to(nodes[l as int].parent, i))
    &&& (n.right matches Some(r) ==> r < nodes.len() && points_to(nodes[r as int].parent, i))
    &&& (n.parent matches Some(p) ==> p < nodes.len() && (points_to(nodes[p as int].left, i)
        || points_to(nodes[p as int].right, i)))
    &&& (n.parent is None <==> i == root)
}

/// Every child reference is matched by the child's parent reference and the
/// other way round, and only the root has no parent.
pub open spec fn links_ok<K: Ord, V>(nodes: Seq<Node<K, V>>, root: usize) -> bool {
    &&& root < nodes.len()
    &&& forall|i: int| 0 <= i < nodes.len() ==> #[trigger] link_ok_at(nodes, root, i)
}

/// No two nodes of the arena hold the same key.
pub open spec fn distinct_keys<K: Ord, V>(nodes: Seq<Node<K, V>>) -> bool {
    forall|i: int, j: int|
        0 <= i < nodes.len() && 0 <= j < nodes.len() && same(
            (#[trigger] nodes[i]).key,
            (#[trigger] nodes[j]).key,
        ) ==> i == j
}

/// The two nodes agree in all that `avl` reads.
pub open spec fn same_shape<K: Ord, V>(a: Node<K, V>, b: Node<K, V>) -> bool {
    &&& a.key == b.key
    &&& a.left == b.left
    &&& a.right == b.right
    &&& a.height == b.height
}

/// A subtree stays what it was when the arena grows or changes only at
/// nodes whose keys lie outside the subtree's range.
pub proof fn lemma_frame<K: Ord, V>(
    before: Seq<Node<K, V>>,
    after: Seq<Node<K, V>>,
    child: Option<usize>,
    lo: Option<K>,
    hi: Option<K>,
    h: nat,
)
    requires
        total_order::<K>(),
        avl(before, child, lo, hi, h),
        forall|j: int|
            0 <= j < after.len() && in_range(lo, (#[trigger] after[j]).key, hi) ==> j
                < before.len() && same_shape(before[j], after[j]),
        forall|j: int|
            0 <= j < before.len() && in_range(lo, (#[trigger] before[j]).key, hi) ==> j
                < after.len() && same_shape(before[j], after[j]),
    ensures
        avl(after, child, lo, hi, h),
        layout_with(after, child, h) == layout_with(before, child, h),
    decreases h,
{
    lemma_order::<K>();
    match child {
        None => {},
        Some(i) => {
            let n = before[i as int];
            let lh = child_height(before, n.left);
            let rh = child_height(before, n.right);
            lemma_frame(before, after, n.left, lo, Some(n.key), lh);
            lemma_frame(before, after, n.right, Some(n.key), hi, rh);
            assert(same_shape(n, after[i as int]));
        },
    }
}

/// The shape of a tree: which node stands where. A fork names the
/// position of a node in the arena, between the shapes of the node's two
/// subtrees.
pub enum Layout {
    Empty,
    Fork(Box<Layout>, usize, Box<Layout>),
}

/// The shape of the subtree that `child` refers to. `h` is the height of
/// the subtree.
pub open spec fn layout_with<K: Ord, V>(nodes: Seq<Node<K, V>>, child: Option<usize>, h: nat) -> Layout
    decreases h,
{
    match child {
        None => Layout::Empty,
        Some(i) => {
            let n = nodes[i as int];
            let lh = child_height(nodes, n.left);
            let rh = child_height(nodes, n.right);
            if i < nodes.len() && lh < h && rh < h {
                Layout::Fork(
                    Box::new(layout_with(nodes, n.left, lh)),
                    i,
                    Box::new(layout_with(nodes, n.right, rh)),
                )
            } else {
                Layout::Empty
            }
        },
    }
}

/// The shape of the subtree that `child` refers to.
pub open spec fn layout<K: Ord, V>(nodes: Seq<Node<K, V>>, child: Option<usize>) -> Layout {
    layout_with(nodes, child, child_height(nodes, child))
}

/// The positions of the nodes of the subtree that `child` refers to, in
/// symmetric order: the left subtree, the node, the right subtree. `h` is
/// the height of the subtree.
pub open spec fn inorder<K: Ord, V>(nodes: Seq<Node<K, V>>, child: Option<usize>, h: nat) -> Seq<
    usize,
>
    decreases h,
{
    match child {
        None => Seq::empty(),
        Some(i) => {
            let n = nodes[i as int];
            let lh = child_height(nodes, n.left);
            let rh = child_height(nodes, n.right);
            if i < nodes.len() && lh < h && rh < h {
                inorder(nodes, n.left, lh) + seq![i] + inorder(nodes, n.right, rh)
            } else {
                Seq::empty()
            }
        },
    }
}

/// The positions of the nodes of the subtree that `child` refers to, in
/// symmetric order.
pub open spec fn subtree<K: Ord, V>(nodes: Seq<Node<K, V>>, child: Option<usize>) -> Seq<usize> {
    inorder(nodes, child, child_height(nodes, child))
}

/// Every child reference of the arena points into the arena.
pub open spec fn children_valid<K: Ord, V>(nodes: Seq<Node<K, V>>) -> bool {
    forall|i: int|
        0 <= i < nodes.len() ==> {
            let n = #[trigger] nodes[i];
            &&& (n.left matches Some(l) ==> l < nodes.len())
            &&& (n.right matches Some(r) ==> r < nodes.len())
        }
}

/// Matched references point into the arena.
pub proof fn lemma_links_valid<K: Ord, V>(nodes: Seq<Node<K, V>>, root: usize)
    requires
        links_ok(nodes, root),
    ensures
        children_valid(nodes),
{
    assert forall|i: int| 0 <= i < nodes.len() implies {
        let n = #[trigger] nodes[i];
        &&& (n.left matches Some(l) ==> l < nodes.len())
        &&& (n.right matches Some(r) ==> r < nodes.len())
    } by {
        assert(link_ok_at(nodes, root, i));
    }
}

/// The node at `i` stores the height of its subtree, one more than the
/// larger of the heights of its two subtrees, and the two differ by at
/// most one.
pub open spec fn balanced_at<K: Ord, V>(nodes: Seq<Node<K, V>>, i: int) -> bool {
    let n = nodes[i];
    let lh = child_height(nodes, n.left);
    let rh = child_height(nodes, n.right);
    &&& n.height == 1 + taller(lh, rh)
    &&& lh <= rh + 1
    &&& rh <= lh + 1
}

/// No stored height exceeds the number of nodes, so that a height one
/// greater can always be stored.
pub open spec fn heights_fit<K: Ord, V>(nodes: Seq<Node<K, V>>) -> bool {
    forall|i: int| 0 <= i < nodes.len() ==> (#[trigger] nodes[i]).height <= nodes.len()
}

} // verus!
