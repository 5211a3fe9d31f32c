//! Rebalancing at one node: which rotations restore the balance there, and
//! what they leave of the rest of the tree.

use crate::growth::lemma_tall;
use crate::growth::level;
use crate::order::in_range;
use crate::order::lemma_order;
use crate::order::total_order;
use crate::rotate::can_rotate_left;
use crate::rotate::can_rotate_right;
use crate::rotate::is_left_rotation;
use crate::rotate::is_right_rotation;
use crate::rotate::left_rotation_site;
use crate::rotate::lemma_left_rotation_shape;
use crate::rotate::lemma_left_site_distinct;
use crate::rotate::lemma_right_rotation_shape;
use crate::rotate::lemma_right_site_distinct;
use crate::rotate::right_rotation_site;
use crate::shape::avl;
use crate::shape::child_height;
use crate::shape::layout;
use crate::shape::layout_with;
use crate::shape::Layout;
use crate::shape::lemma_frame;
use crate::shape::lemma_links_valid;
use crate::shape::link_ok_at;
use crate::shape::links_ok;
use crate::shape::Node;
use crate::shape::points_to;
use crate::shape::taller;
use crate::tree::Tree;
use vstd::prelude::*;

verus! {

/// The node at `i` heads a search tree inside the range from `lo` to `hi`
/// that is balanced everywhere but, perhaps, at `i` itself, where the two
/// subtrees may differ in height by two. Its parent, if it has one, lies
/// outside the range and has two different children.
pub(crate) open spec fn nearly_avl<K: Ord, V>(
    nodes: Seq<Node<K, V>>,
    i: usize,
    lo: Option<K>,
    hi: Option<K>,
) -> bool {
    let n = nodes[i as int];
    let lh = child_height(nodes, n.left);
    let rh = child_height(nodes, n.right);
    &&& i < nodes.len()
    &&& in_range(lo, n.key, hi)
    &&& n.height == 1 + taller(lh, rh)
    &&& lh <= rh + 2
    &&& rh <= lh + 2
    &&& avl(nodes, n.left, lo, Some(n.key), lh)
    &&& avl(nodes, n.right, Some(n.key), hi, rh)
    &&& (n.parent matches Some(p) ==> !in_range(lo, nodes[p as int].key, hi) && nodes[p as int].left
        != nodes[p as int].right)
}

/// The reference through which the tree reaches the place that the node at
/// `i` held in `before`: the root, or a child reference of the node's
/// former parent, read in `after`.
pub(crate) open spec fn place_of<K: Ord, V>(
    before: Seq<Node<K, V>>,
    i: usize,
    after: Seq<Node<K, V>>,
    after_root: usize,
) -> Option<usize> {
    match before[i as int].parent {
        None => Some(after_root),
        Some(p) => if points_to(before[p as int].left, i as int) {
            after[p as int].left
        } else {
            after[p as int].right
        },
    }
}

/// `after` holds the nodes of `before` with the same keys and values, no
/// node outside the range from `lo` to `hi` has changed, and no height has
/// grown beyond `cap` that was not beyond it before.
pub(crate) open spec fn changed_inside<K: Ord, V>(
    before: Seq<Node<K, V>>,
    after: Seq<Node<K, V>>,
    lo: Option<K>,
    hi: Option<K>,
    cap: nat,
    except: Option<usize>,
) -> bool {
    &&& after.len() == before.len()
    &&& forall|j: int|
        0 <= j < before.len() ==> {
            let was = before[j];
            let now = #[trigger] after[j];
            &&& now.key == was.key
            &&& now.value == was.value
            &&& (now.height <= was.height || now.height <= cap)
            &&& (!in_range(lo, was.key, hi) && !points_to(except, j) ==> now == was)
        }
}

/// What rebalancing at the node at `i` makes of a tree: the place that the
/// node held is now held by the root of a balanced search tree in the
/// same range, of the node's former height or one less; the node's former
/// parent refers to that root where it referred to the node and is
/// otherwise unchanged; nothing else outside the range has changed, and
/// nothing at all where the node's subtrees differed in height by at most
/// one. The shape of the tree at the place is the shape that the node
/// headed, rebalanced at its root.
pub(crate) open spec fn rebalanced<K: Ord, V>(
    before: Seq<Node<K, V>>,
    root: usize,
    i: usize,
    lo: Option<K>,
    hi: Option<K>,
    after: Seq<Node<K, V>>,
    after_root: usize,
) -> bool {
    let place = place_of(before, i, after, after_root);
    let h = child_height(after, place);
    let was_height = before[i as int].height as nat;
    let lh = child_height(before, before[i as int].left);
    let rh = child_height(before, before[i as int].right);
    &&& links_ok(after, after_root)
    &&& changed_inside(before, after, lo, hi, was_height, before[i as int].parent)
    &&& (before[i as int].parent matches Some(p) ==> {
        let was = before[p as int];
        let now = after[p as int];
        &&& after_root == root
        &&& now.height == was.height
        &&& now.parent == was.parent
        &&& (points_to(was.left, i as int) ==> now.right == was.right)
        &&& (!points_to(was.left, i as int) ==> now.left == was.left)
    })
    &&& avl(after, place, lo, hi, h)
    &&& h <= was_height <= h + 1
    &&& (lh <= rh + 1 && rh <= lh + 1 ==> after == before && after_root == root)
    &&& layout(after, place) == level(layout(before, Some(i)))
}

/// A tree that needs no rotation at the node at `i` is its own
/// rebalancing.
pub(crate) proof fn lemma_rebalanced_as_is<K: Ord, V>(
    nodes: Seq<Node<K, V>>,
    root: usize,
    i: usize,
    lo: Option<K>,
    hi: Option<K>,
)
    requires
        total_order::<K>(),
        links_ok(nodes, root),
        nearly_avl(nodes, i, lo, hi),
        child_height(nodes, nodes[i as int].left) <= child_height(nodes, nodes[i as int].right) + 1,
        child_height(nodes, nodes[i as int].right) <= child_height(nodes, nodes[i as int].left) + 1,
    ensures
        rebalanced(nodes, root, i, lo, hi, nodes, root),
{
    assert(link_ok_at(nodes, root, i as int));
    let n = nodes[i as int];
    lemma_tall(nodes, n.left, lo, Some(n.key), child_height(nodes, n.left));
    lemma_tall(nodes, n.right, Some(n.key), hi, child_height(nodes, n.right));
}

/// The tree `mid` came from `start` by changes inside the range from `lo`
/// to `hi` alone, and a right rotation at the node at `i` will leave a
/// balanced search tree at its place, of the height that the node has in
/// `start` or one less.
pub(crate) open spec fn ready_right<K: Ord, V>(
    start: Seq<Node<K, V>>,
    root: usize,
    i: usize,
    lo: Option<K>,
    hi: Option<K>,
    mid: Seq<Node<K, V>>,
    mid_root: usize,
) -> bool {
    let low = mid[i as int].left.unwrap();
    let ha = child_height(mid, mid[low as int].left);
    let hb = child_height(mid, mid[low as int].right);
    let hc = child_height(mid, mid[i as int].right);
    let top_height = 1 + taller(hb, hc);
    let low_height = 1 + taller(ha, top_height);
    let cap = start[i as int].height as nat;
    &&& links_ok(start, root)
    &&& i < start.len()
    &&& child_height(start, start[i as int].left) == child_height(start, start[i as int].right) + 2
    &&& right_rotation_site(mid, mid_root, i, lo, hi, ha, hb, hc)
    &&& hb <= hc + 1
    &&& hc <= hb + 1
    &&& ha <= top_height + 1
    &&& top_height <= ha + 1
    &&& low_height <= cap <= low_height + 1
    &&& mid_root == root
    &&& mid[i as int].parent == start[i as int].parent
    &&& changed_inside(start, mid, lo, hi, cap, None)
    &&& level(layout(start, Some(i))) == Layout::Fork(
        Box::new(layout_with(mid, mid[low as int].left, ha)),
        low,
        Box::new(
            Layout::Fork(
                Box::new(layout_with(mid, mid[low as int].right, hb)),
                i,
                Box::new(layout_with(mid, mid[i as int].right, hc)),
            ),
        ),
    )
}

/// A node whose left subtree is taller by two has a left child, and that
/// child's subtrees are balanced search trees.
pub(crate) proof fn lemma_left_heavy<K: Ord, V>(
    nodes: Seq<Node<K, V>>,
    root: usize,
    i: usize,
    lo: Option<K>,
    hi: Option<K>,
)
    requires
        total_order::<K>(),
        links_ok(nodes, root),
        nearly_avl(nodes, i, lo, hi),
        child_height(nodes, nodes[i as int].left) == child_height(nodes, nodes[i as int].right) + 2,
    ensures
        nodes[i as int].left matches Some(l) && l < nodes.len() && {
            let ha = child_height(nodes, nodes[l as int].left);
            let hb = child_height(nodes, nodes[l as int].right);
            &&& ha <= hb + 1
            &&& hb <= ha + 1
            &&& (ha >= hb ==> ready_right(nodes, root, i, lo, hi, nodes, root))
            &&& (ha < hb ==> can_rotate_left(nodes, root, l))
        },
{
    lemma_order::<K>();
    let n = nodes[i as int];
    let l = n.left.unwrap();
    let low = nodes[l as int];
    let short = child_height(nodes, n.right);
    let ha = child_height(nodes, low.left);
    let hb = child_height(nodes, low.right);
    assert(link_ok_at(nodes, root, i as int));
    assert(avl(nodes, low.left, lo, Some(low.key), ha));
    assert(avl(nodes, low.right, Some(low.key), Some(n.key), hb));
    lemma_tall(nodes, n.left, lo, Some(n.key), child_height(nodes, n.left));
    lemma_tall(nodes, n.right, Some(n.key), hi, short);
    lemma_tall(nodes, low.left, lo, Some(low.key), ha);
    lemma_tall(nodes, low.right, Some(low.key), Some(n.key), hb);
    if ha < hb {
        let b = low.right.unwrap();
        let inner = nodes[b as int];
        let hbl = child_height(nodes, inner.left);
        let hbr = child_height(nodes, inner.right);
        lemma_left_site_distinct(nodes, root, l, lo, Some(n.key), hbr, hbl, ha);
    }
}

/// Where the left child of a node whose left subtree is taller by two
/// leans inward, a left rotation at that child makes the node ready for
/// its right rotation.
#[verifier::rlimit(30)]
pub(crate) proof fn lemma_inner_left_rotation<K: Ord, V>(
    start: Seq<Node<K, V>>,
    root: usize,
    i: usize,
    lo: Option<K>,
    hi: Option<K>,
    mid: Seq<Node<K, V>>,
    mid_root: usize,
)
    requires
        total_order::<K>(),
        links_ok(start, root),
        nearly_avl(start, i, lo, hi),
        child_height(start, start[i as int].left) == child_height(start, start[i as int].right) + 2,
        start[i as int].left matches Some(l) && l < start.len() && child_height(
            start,
            start[l as int].left,
        ) < child_height(start, start[l as int].right) && is_left_rotation(
            start,
            root,
            l,
            mid,
            mid_root,
        ),
        links_ok(mid, mid_root),
    ensures
        ready_right(start, root, i, lo, hi, mid, mid_root),
{
    lemma_order::<K>();
    let n = start[i as int];
    let l = n.left.unwrap();
    let low = start[l as int];
    let short = child_height(start, n.right);
    let ha = child_height(start, low.left);
    let hb = child_height(start, low.right);
    assert(link_ok_at(start, root, i as int));
    assert(link_ok_at(start, root, l as int));
    assert(avl(start, low.right, Some(low.key), Some(n.key), hb));
    let b = low.right.unwrap();
    let inner = start[b as int];
    let hbl = child_height(start, inner.left);
    let hbr = child_height(start, inner.right);
    assert(n.left != n.right);
    lemma_left_rotation_shape(start, root, l, lo, Some(n.key), hbr, hbl, ha, mid, mid_root);
    lemma_frame(start, mid, n.right, Some(n.key), hi, short);
    assert(avl(start, low.left, lo, Some(low.key), ha));
    assert(avl(start, inner.left, Some(low.key), Some(inner.key), hbl));
    assert(avl(start, inner.right, Some(inner.key), Some(n.key), hbr));
    lemma_tall(start, n.left, lo, Some(n.key), child_height(start, n.left));
    lemma_tall(start, n.right, Some(n.key), hi, short);
    lemma_tall(start, low.left, lo, Some(low.key), ha);
    lemma_tall(start, low.right, Some(low.key), Some(n.key), hb);
}

/// The right rotation that a node was ready for leaves the tree
/// rebalanced at the node's place.
pub(crate) proof fn lemma_finish_right<K: Ord, V>(
    start: Seq<Node<K, V>>,
    root: usize,
    i: usize,
    lo: Option<K>,
    hi: Option<K>,
    mid: Seq<Node<K, V>>,
    mid_root: usize,
    after: Seq<Node<K, V>>,
    after_root: usize,
)
    requires
        total_order::<K>(),
        ready_right(start, root, i, lo, hi, mid, mid_root),
        is_right_rotation(mid, mid_root, i, after, after_root),
        links_ok(after, after_root),
    ensures
        rebalanced(start, root, i, lo, hi, after, after_root),
{
    lemma_order::<K>();
    let low = mid[i as int].left.unwrap();
    let ha = child_height(mid, mid[low as int].left);
    let hb = child_height(mid, mid[low as int].right);
    let hc = child_height(mid, mid[i as int].right);
    lemma_right_rotation_shape(mid, mid_root, i, lo, hi, ha, hb, hc, after, after_root);
    assert(link_ok_at(start, root, i as int));
}

/// The tree `mid` came from `start` by changes inside the range from `lo`
/// to `hi` alone, and a left rotation at the node at `i` will leave a
/// balanced search tree at its place, of the height that the node has in
/// `start` or one less.
pub(crate) open spec fn ready_left<K: Ord, V>(
    start: Seq<Node<K, V>>,
    root: usize,
    i: usize,
    lo: Option<K>,
    hi: Option<K>,
    mid: Seq<Node<K, V>>,
    mid_root: usize,
) -> bool {
    let low = mid[i as int].right.unwrap();
    let ha = child_height(mid, mid[low as int].right);
    let hb = child_height(mid, mid[low as int].left);
    let hc = child_height(mid, mid[i as int].left);
    let top_height = 1 + taller(hb, hc);
    let low_height = 1 + taller(ha, top_height);
    let cap = start[i as int].height as nat;
    &&& links_ok(start, root)
    &&& i < start.len()
    &&& child_height(start, start[i as int].right) == child_height(start, start[i as int].left) + 2
    &&& left_rotation_site(mid, mid_root, i, lo, hi, ha, hb, hc)
    &&& hb <= hc + 1
    &&& hc <= hb + 1
    &&& ha <= top_height + 1
    &&& top_height <= ha + 1
    &&& low_height <= cap <= low_height + 1
    &&& mid_root == root
    &&& mid[i as int].parent == start[i as int].parent
    &&& changed_inside(start, mid, lo, hi, cap, None)
    &&& level(layout(start, Some(i))) == Layout::Fork(
        Box::new(
            Layout::Fork(
                Box::new(layout_with(mid, mid[i as int].left, hc)),
                i,
                Box::new(layout_with(mid, mid[low as int].left, hb)),
            ),
        ),
        low,
        Box::new(layout_with(mid, mid[low as int].right, ha)),
    )
}

/// A node whose right subtree is taller by two has a right child, and that
/// child's subtrees are balanced search trees.
pub(crate) proof fn lemma_right_heavy<K: Ord, V>(
    nodes: Seq<Node<K, V>>,
    root: usize,
    i: usize,
    lo: Option<K>,
    hi: Option<K>,
)
    requires
        total_order::<K>(),
        links_ok(nodes, root),
        nearly_avl(nodes, i, lo, hi),
        child_height(nodes, nodes[i as int].right) == child_height(nodes, nodes[i as int].left) + 2,
    ensures
        nodes[i as int].right matches Some(l) && l < nodes.len() && {
            let ha = child_height(nodes, nodes[l as int].right);
            let hb = child_height(nodes, nodes[l as int].left);
            &&& ha <= hb + 1
            &&& hb <= ha + 1
            &&& (ha >= hb ==> ready_left(nodes, root, i, lo, hi, nodes, root))
            &&& (ha < hb ==> can_rotate_right(nodes, root, l))
        },
{
    lemma_order::<K>();
    let n = nodes[i as int];
    let l = n.right.unwrap();
    let low = nodes[l as int];
    let ha = child_height(nodes, low.right);
    let hb = child_height(nodes, low.left);
    assert(link_ok_at(nodes, root, i as int));
    assert(avl(nodes, low.right, Some(low.key), hi, ha));
    assert(avl(nodes, low.left, Some(n.key), Some(low.key), hb));
    lemma_tall(nodes, n.right, Some(n.key), hi, child_height(nodes, n.right));
    lemma_tall(nodes, n.left, lo, Some(n.key), child_height(nodes, n.left));
    lemma_tall(nodes, low.right, Some(low.key), hi, ha);
    lemma_tall(nodes, low.left, Some(n.key), Some(low.key), hb);
    if ha < hb {
        let b = low.left.unwrap();
        let inner = nodes[b as int];
        let hbl = child_height(nodes, inner.right);
        let hbr = child_height(nodes, inner.left);
        lemma_right_site_distinct(nodes, root, l, Some(n.key), hi, hbr, hbl, ha);
    }
}

/// Where the right child of a node whose right subtree is taller by two
/// leans inward, a right rotation at that child makes the node ready for
/// its left rotation.
#[verifier::rlimit(30)]
pub(crate) proof fn lemma_inner_right_rotation<K: Ord, V>(
    start: Seq<Node<K, V>>,
    root: usize,
    i: usize,
    lo: Option<K>,
    hi: Option<K>,
    mid: Seq<Node<K, V>>,
    mid_root: usize,
)
    requires
        total_order::<K>(),
        links_ok(start, root),
        nearly_avl(start, i, lo, hi),
        child_height(start, start[i as int].right) == child_height(start, start[i as int].left) + 2,
        start[i as int].right matches Some(l) && l < start.len() && child_height(
            start,
            start[l as int].right,
        ) < child_height(start, start[l as int].left) && is_right_rotation(
            start,
            root,
            l,
            mid,
            mid_root,
        ),
        links_ok(mid, mid_root),
    ensures
        ready_left(start, root, i, lo, hi, mid, mid_root),
{
    lemma_order::<K>();
    let n = start[i as int];
    let l = n.right.unwrap();
    let low = start[l as int];
    let short = child_height(start, n.left);
    let ha = child_height(start, low.right);
    let hb = child_height(start, low.left);
    assert(link_ok_at(start, root, i as int));
    assert(link_ok_at(start, root, l as int));
    assert(avl(start, low.left, Some(n.key), Some(low.key), hb));
    let b = low.left.unwrap();
    let inner = start[b as int];
    let hbl = child_height(start, inner.right);
    let hbr = child_height(start, inner.left);
    lemma_right_rotation_shape(start, root, l, Some(n.key), hi, hbr, hbl, ha, mid, mid_root);
    lemma_frame(start, mid, n.left, lo, Some(n.key), short);
    assert(avl(start, low.right, Some(low.key), hi, ha));
    assert(avl(start, inner.right, Some(inner.key), Some(low.key), hbl));
    assert(avl(start, inner.left, Some(n.key), Some(inner.key), hbr));
    lemma_tall(start, n.right, Some(n.key), hi, child_height(start, n.right));
    lemma_tall(start, n.left, lo, Some(n.key), short);
    lemma_tall(start, low.right, Some(low.key), hi, ha);
    lemma_tall(start, low.left, Some(n.key), Some(low.key), hb);
}

/// The left rotation that a node was ready for leaves the tree
/// rebalanced at the node's place.
pub(crate) proof fn lemma_finish_left<K: Ord, V>(
    start: Seq<Node<K, V>>,
    root: usize,
    i: usize,
    lo: Option<K>,
    hi: Option<K>,
    mid: Seq<Node<K, V>>,
    mid_root: usize,
    after: Seq<Node<K, V>>,
    after_root: usize,
)
    requires
        total_order::<K>(),
        ready_left(start, root, i, lo, hi, mid, mid_root),
        is_left_rotation(mid, mid_root, i, after, after_root),
        links_ok(after, after_root),
    ensures
        rebalanced(start, root, i, lo, hi, after, after_root),
{
    lemma_order::<K>();
    let low = mid[i as int].right.unwrap();
    let ha = child_height(mid, mid[low as int].right);
    let hb = child_height(mid, mid[low as int].left);
    let hc = child_height(mid, mid[i as int].left);
    lemma_left_rotation_shape(mid, mid_root, i, lo, hi, ha, hb, hc, after, after_root);
    assert(link_ok_at(start, root, i as int));
}

impl<K: Ord, V> Tree<K, V> {
    /// Restores the balance at the node at `node` where its two subtrees
    /// differ in height by two: by one rotation where the taller subtree
    /// does not lean inward, by two where it does. `lo` and `hi` bound the
    /// keys of the subtree.
    pub(crate) fn rebalance(
        &mut self,
        node: usize,
        Ghost(lo): Ghost<Option<K>>,
        Ghost(hi): Ghost<Option<K>>,
    )
        requires
            total_order::<K>(),
            links_ok(old(self).nodes@, old(self).root),
            nearly_avl(old(self).nodes@, node, lo, hi),
        ensures
            rebalanced(
                old(self).nodes@,
                old(self).root,
                node,
                lo,
                hi,
                final(self).nodes@,
                final(self).root,
            ),
    {
        let ghost start = self.nodes@;
        let ghost root = self.root;
        proof {
            lemma_links_valid(start, root);
        }
        let factor = self.balance_factor(node).unwrap();
        if factor == -2 {
            proof {
                lemma_right_heavy(start, root, node, lo, hi);
            }
            let right_node = self.nodes[node].right.unwrap();
            if self.balance_factor(right_node).unwrap() > 0 {
                self.rotate_right(right_node);
                proof {
                    lemma_inner_right_rotation(start, root, node, lo, hi, self.nodes@, self.root);
                }
            }
            let ghost mid = self.nodes@;
            let ghost mid_root = self.root;
            proof {
                let low = mid[node as int].right.unwrap();
                lemma_left_site_distinct(
                    mid,
                    mid_root,
                    node,
                    lo,
                    hi,
                    child_height(mid, mid[low as int].right),
                    child_height(mid, mid[low as int].left),
                    child_height(mid, mid[node as int].left),
                );
            }
            self.rotate_left(node);
            proof {
                lemma_finish_left(start, root, node, lo, hi, mid, mid_root, self.nodes@, self.root);
            }
        } else if factor == 2 {
            proof {
                lemma_left_heavy(start, root, node, lo, hi);
            }
            let left_node = self.nodes[node].left.unwrap();
            if self.balance_factor(left_node).unwrap() < 0 {
                self.rotate_left(left_node);
                proof {
                    lemma_inner_left_rotation(start, root, node, lo, hi, self.nodes@, self.root);
                }
            }
            let ghost mid = self.nodes@;
            let ghost mid_root = self.root;
            proof {
                let low = mid[node as int].left.unwrap();
                lemma_right_site_distinct(
                    mid,
                    mid_root,
                    node,
                    lo,
                    hi,
                    child_height(mid, mid[low as int].left),
                    child_height(mid, mid[low as int].right),
                    child_height(mid, mid[node as int].right),
                );
            }
            self.rotate_right(node);
            proof {
                lemma_finish_right(start, root, node, lo, hi, mid, mid_root, self.nodes@, self.root);
            }
        } else {
            proof {
                lemma_rebalanced_as_is(start, root, node, lo, hi);
            }
        }
    }
}

} // verus!
