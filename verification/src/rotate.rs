//! The two rotations: what each makes of the arena, and what it keeps.

use crate::order::in_range;
use crate::order::lemma_order;
use crate::order::total_order;
use crate::shape::avl;
use crate::shape::child_height;
use crate::shape::layout_with;
use crate::shape::Layout;
use crate::shape::children_valid;
use crate::shape::lemma_frame;
use crate::shape::lemma_links_valid;
use crate::shape::link_ok_at;
use crate::shape::links_ok;
use crate::shape::Node;
use crate::shape::points_to;
use crate::shape::same_shape;
use crate::shape::taller;
use crate::tree::Tree;
use vstd::prelude::*;

verus! {

/// The node at `top` has a left child, the nodes that a right rotation at
/// `top` rewires are distinct from one another, and the heights that it
/// stores fit.
pub(crate) open spec fn can_rotate_right<K: Ord, V>(nodes: Seq<Node<K, V>>, root: usize, top: usize) -> bool {
    &&& links_ok(nodes, root)
    &&& top < nodes.len()
    &&& nodes[top as int].left matches Some(low) && {
        let top_node = nodes[top as int];
        let low_node = nodes[low as int];
        &&& low != top
        &&& low_node.left != Some(top) && low_node.left != Some(low)
        &&& low_node.right != Some(top) && low_node.right != Some(low)
        &&& top_node.right != Some(top) && top_node.right != Some(low)
        &&& (low_node.left is Some ==> low_node.left != low_node.right && low_node.left != top_node.right)
        &&& (low_node.right is Some ==> low_node.right != top_node.right)
        &&& (top_node.parent matches Some(p) ==> p != top && p != low && Some(p) != low_node.left && Some(p)
            != low_node.right && Some(p) != top_node.right && nodes[p as int].left != nodes[p as int].right)
        &&& 1 + taller(child_height(nodes, low_node.right), child_height(nodes, top_node.right)) < usize::MAX
        &&& child_height(nodes, low_node.left) < usize::MAX
    }
}

/// `after` and `new_root` are what a right rotation at `top` makes of
/// `before` and `root`.
pub(crate) open spec fn is_right_rotation<K: Ord, V>(
    before: Seq<Node<K, V>>,
    root: usize,
    top: usize,
    after: Seq<Node<K, V>>,
    new_root: usize,
) -> bool {
    let low = before[top as int].left.unwrap();
    let inner = before[low as int].right;
    let above = before[top as int].parent;
    let top_height = (1 + taller(
        child_height(before, inner),
        child_height(before, before[top as int].right),
    )) as usize;
    let low_height = (1 + taller(child_height(before, before[low as int].left), top_height as nat)) as usize;
    &&& after.len() == before.len()
    &&& new_root == if root == top {
        low
    } else {
        root
    }
    &&& after[top as int] == (Node { left: inner, parent: Some(low), height: top_height, ..before[top as int] })
    &&& after[low as int] == (Node {
        right: Some(top),
        parent: above,
        height: low_height,
        ..before[low as int]
    })
    &&& (inner matches Some(b) ==> after[b as int] == (Node { parent: Some(top), ..before[b as int] }))
    &&& (above matches Some(p) ==> after[p as int] == (Node {
        left: if before[p as int].left == Some(top) {
            Some(low)
        } else {
            before[p as int].left
        },
        right: if before[p as int].left != Some(top) {
            Some(low)
        } else {
            before[p as int].right
        },
        ..before[p as int]
    }))
    &&& forall|j: int|
        0 <= j < before.len() && j != top && j != low && !points_to(inner, j) && !points_to(above, j)
            ==> #[trigger] after[j] == before[j]
}

/// A right rotation keeps child and parent references matched.
pub(crate) proof fn lemma_right_rotation_links<K: Ord, V>(
    before: Seq<Node<K, V>>,
    root: usize,
    top: usize,
    after: Seq<Node<K, V>>,
    new_root: usize,
)
    requires
        can_rotate_right(before, root, top),
        is_right_rotation(before, root, top, after, new_root),
    ensures
        links_ok(after, new_root),
{
    let low = before[top as int].left.unwrap();
    let inner = before[low as int].right;
    let above = before[top as int].parent;
    let top_node = before[top as int];
    assert(link_ok_at(before, root, top as int));
    assert(link_ok_at(before, root, low as int));
    assert forall|j: int|
        0 <= j < before.len() && j != top && j != low && !points_to(inner, j) implies (
    #[trigger] after[j]).parent == before[j].parent by {
    }
    assert forall|j: int| 0 <= j < before.len() && j != top && !points_to(above, j) implies (
    #[trigger] after[j]).left == before[j].left by {
    }
    assert forall|j: int| 0 <= j < before.len() && j != low && !points_to(above, j) implies (
    #[trigger] after[j]).right == before[j].right by {
    }
    assert forall|i: int| 0 <= i < after.len() implies #[trigger] link_ok_at(after, new_root, i) by {
        let old_n = before[i];
        assert(link_ok_at(before, root, i));
    }
}

/// The node at `top` can be rotated right inside the range from `lo` to
/// `hi`: it has a left child, the three subtrees that the rotation hands
/// round are balanced search trees of heights `ha`, `hb` and `hc`, each in
/// its part of the range, and the parent of `top`, if any, lies outside
/// the range.
pub(crate) open spec fn right_rotation_site<K: Ord, V>(
    nodes: Seq<Node<K, V>>,
    root: usize,
    top: usize,
    lo: Option<K>,
    hi: Option<K>,
    ha: nat,
    hb: nat,
    hc: nat,
) -> bool {
    &&& links_ok(nodes, root)
    &&& top < nodes.len()
    &&& in_range(lo, nodes[top as int].key, hi)
    &&& nodes[top as int].left matches Some(low) && {
        let top_node = nodes[top as int];
        let low_node = nodes[low as int];
        &&& in_range(lo, low_node.key, Some(top_node.key))
        &&& avl(nodes, low_node.left, lo, Some(low_node.key), ha)
        &&& avl(nodes, low_node.right, Some(low_node.key), Some(top_node.key), hb)
        &&& avl(nodes, top_node.right, Some(top_node.key), hi, hc)
        &&& (top_node.parent matches Some(p) ==> !in_range(lo, nodes[p as int].key, hi)
            && nodes[p as int].left != nodes[p as int].right)
        &&& 1 + taller(hb, hc) < usize::MAX
        &&& ha < usize::MAX
    }
}

/// At a site for a right rotation the nodes that the rotation rewires are
/// distinct from one another.
pub(crate) proof fn lemma_right_site_distinct<K: Ord, V>(
    nodes: Seq<Node<K, V>>,
    root: usize,
    top: usize,
    lo: Option<K>,
    hi: Option<K>,
    ha: nat,
    hb: nat,
    hc: nat,
)
    requires
        total_order::<K>(),
        right_rotation_site(nodes, root, top, lo, hi, ha, hb, hc),
    ensures
        can_rotate_right(nodes, root, top),
{
    lemma_order::<K>();
    let low = nodes[top as int].left.unwrap();
    let top_node = nodes[top as int];
    let low_node = nodes[low as int];
}

/// After a right rotation at a site the three subtrees handed round are
/// what they were, the two rewired nodes head balanced search trees
/// wherever their new subtrees differ in height by at most one, and the
/// shape under the promoted child is made of the three shapes as a turn
/// to the right makes it.
pub(crate) proof fn lemma_right_rotation_shape<K: Ord, V>(
    before: Seq<Node<K, V>>,
    root: usize,
    top: usize,
    lo: Option<K>,
    hi: Option<K>,
    ha: nat,
    hb: nat,
    hc: nat,
    after: Seq<Node<K, V>>,
    new_root: usize,
)
    requires
        total_order::<K>(),
        right_rotation_site(before, root, top, lo, hi, ha, hb, hc),
        is_right_rotation(before, root, top, after, new_root),
    ensures
        ({
            let low = before[top as int].left.unwrap();
            let top_key = before[top as int].key;
            let low_key = before[low as int].key;
            let top_height = 1 + taller(hb, hc);
            let low_height = 1 + taller(ha, top_height);
            &&& avl(after, after[low as int].left, lo, Some(low_key), ha)
            &&& avl(after, after[top as int].left, Some(low_key), Some(top_key), hb)
            &&& avl(after, after[top as int].right, Some(top_key), hi, hc)
            &&& after[top as int].height == top_height
            &&& after[low as int].height == low_height
            &&& (hb <= hc + 1 && hc <= hb + 1 ==> avl(
                after,
                Some(top),
                Some(low_key),
                hi,
                top_height,
            ))
            &&& (hb <= hc + 1 && hc <= hb + 1 && ha <= top_height + 1 && top_height <= ha + 1 ==> avl(
                after,
                Some(low),
                lo,
                hi,
                low_height,
            ))
            &&& layout_with(after, Some(low), low_height) == Layout::Fork(
                Box::new(layout_with(before, before[low as int].left, ha)),
                low,
                Box::new(
                    Layout::Fork(
                        Box::new(layout_with(before, before[low as int].right, hb)),
                        top,
                        Box::new(layout_with(before, before[top as int].right, hc)),
                    ),
                ),
            )
        }),
{
    lemma_order::<K>();
    let low = before[top as int].left.unwrap();
    let top_node = before[top as int];
    let low_node = before[low as int];
    assert(link_ok_at(before, root, top as int));
    assert forall|j: int|
        0 <= j < before.len() && j != top && j != low && !points_to(top_node.parent, j) implies same_shape(
        before[j],
        #[trigger] after[j],
    ) by {
    }
    lemma_frame(before, after, low_node.left, lo, Some(low_node.key), ha);
    lemma_frame(before, after, low_node.right, Some(low_node.key), Some(top_node.key), hb);
    lemma_frame(before, after, top_node.right, Some(top_node.key), hi, hc);
    if hb <= hc + 1 && hc <= hb + 1 {
        assert(avl(after, Some(top), Some(low_node.key), hi, 1 + taller(hb, hc)));
    }
    assert(child_height(after, after[low as int].left) == ha);
    assert(child_height(after, after[top as int].left) == hb);
    assert(child_height(after, after[top as int].right) == hc);
    assert(layout_with(after, Some(top), 1 + taller(hb, hc)) == Layout::Fork(
        Box::new(layout_with(after, after[top as int].left, hb)),
        top,
        Box::new(layout_with(after, after[top as int].right, hc)),
    ));
}

/// The node at `top` has a right child, the nodes that a left rotation at
/// `top` rewires are distinct from one another, and the heights that it
/// stores fit.
pub(crate) open spec fn can_rotate_left<K: Ord, V>(nodes: Seq<Node<K, V>>, root: usize, top: usize) -> bool {
    &&& links_ok(nodes, root)
    &&& top < nodes.len()
    &&& nodes[top as int].right matches Some(low) && {
        let top_node = nodes[top as int];
        let low_node = nodes[low as int];
        &&& low != top
        &&& low_node.right != Some(top) && low_node.right != Some(low)
        &&& low_node.left != Some(top) && low_node.left != Some(low)
        &&& top_node.left != Some(top) && top_node.left != Some(low)
        &&& (low_node.right is Some ==> low_node.right != low_node.left && low_node.right != top_node.left)
        &&& (low_node.left is Some ==> low_node.left != top_node.left)
        &&& (top_node.parent matches Some(p) ==> p != top && p != low && Some(p) != low_node.right && Some(p)
            != low_node.left && Some(p) != top_node.left && nodes[p as int].right != nodes[p as int].left)
        &&& 1 + taller(child_height(nodes, low_node.left), child_height(nodes, top_node.left)) < usize::MAX
        &&& child_height(nodes, low_node.right) < usize::MAX
    }
}

/// `after` and `new_root` are what a left rotation at `top` makes of
/// `before` and `root`.
pub(crate) open spec fn is_left_rotation<K: Ord, V>(
    before: Seq<Node<K, V>>,
    root: usize,
    top: usize,
    after: Seq<Node<K, V>>,
    new_root: usize,
) -> bool {
    let low = before[top as int].right.unwrap();
    let inner = before[low as int].left;
    let above = before[top as int].parent;
    let top_height = (1 + taller(
        child_height(before, inner),
        child_height(before, before[top as int].left),
    )) as usize;
    let low_height = (1 + taller(child_height(before, before[low as int].right), top_height as nat)) as usize;
    &&& after.len() == before.len()
    &&& new_root == if root == top {
        low
    } else {
        root
    }
    &&& after[top as int] == (Node { right: inner, parent: Some(low), height: top_height, ..before[top as int] })
    &&& after[low as int] == (Node {
        left: Some(top),
        parent: above,
        height: low_height,
        ..before[low as int]
    })
    &&& (inner matches Some(b) ==> after[b as int] == (Node { parent: Some(top), ..before[b as int] }))
    &&& (above matches Some(p) ==> after[p as int] == (Node {
        left: if before[p as int].left == Some(top) {
            Some(low)
        } else {
            before[p as int].left
        },
        right: if before[p as int].left != Some(top) {
            Some(low)
        } else {
            before[p as int].right
        },
        ..before[p as int]
    }))
    &&& forall|j: int|
        0 <= j < before.len() && j != top && j != low && !points_to(inner, j) && !points_to(above, j)
            ==> #[trigger] after[j] == before[j]
}

/// A left rotation keeps child and parent references matched.
pub(crate) proof fn lemma_left_rotation_links<K: Ord, V>(
    before: Seq<Node<K, V>>,
    root: usize,
    top: usize,
    after: Seq<Node<K, V>>,
    new_root: usize,
)
    requires
        can_rotate_left(before, root, top),
        is_left_rotation(before, root, top, after, new_root),
    ensures
        links_ok(after, new_root),
{
    let low = before[top as int].right.unwrap();
    let inner = before[low as int].left;
    let above = before[top as int].parent;
    let top_node = before[top as int];
    let low_node = before[low as int];
    assert(link_ok_at(before, root, top as int));
    assert(link_ok_at(before, root, low as int));
    assert forall|j: int|
        0 <= j < before.len() && j != top && j != low && !points_to(inner, j) implies (
    #[trigger] after[j]).parent == before[j].parent by {
    }
    assert forall|j: int| 0 <= j < before.len() && j != top && !points_to(above, j) implies (
    #[trigger] after[j]).right == before[j].right by {
    }
    assert forall|i: int| 0 <= i < after.len() implies #[trigger] link_ok_at(after, new_root, i) by {
        let old_n = before[i];
        assert(link_ok_at(before, root, i));
    }
}

/// The node at `top` can be rotated left inside the range from `lo` to
/// `hi`: it has a right child, the three subtrees that the rotation hands
/// round are balanced search trees of heights `ha`, `hb` and `hc`, each in
/// its part of the range, and the parent of `top`, if any, lies outside
/// the range.
pub(crate) open spec fn left_rotation_site<K: Ord, V>(
    nodes: Seq<Node<K, V>>,
    root: usize,
    top: usize,
    lo: Option<K>,
    hi: Option<K>,
    ha: nat,
    hb: nat,
    hc: nat,
) -> bool {
    &&& links_ok(nodes, root)
    &&& top < nodes.len()
    &&& in_range(lo, nodes[top as int].key, hi)
    &&& nodes[top as int].right matches Some(low) && {
        let top_node = nodes[top as int];
        let low_node = nodes[low as int];
        &&& in_range(Some(top_node.key), low_node.key, hi)
        &&& avl(nodes, low_node.right, Some(low_node.key), hi, ha)
        &&& avl(nodes, low_node.left, Some(top_node.key), Some(low_node.key), hb)
        &&& avl(nodes, top_node.left, lo, Some(top_node.key), hc)
        &&& (top_node.parent matches Some(p) ==> !in_range(lo, nodes[p as int].key, hi)
            && nodes[p as int].right != nodes[p as int].left)
        &&& 1 + taller(hb, hc) < usize::MAX
        &&& ha < usize::MAX
    }
}

/// At a site for a left rotation the nodes that the rotation rewires are
/// distinct from one another.
pub(crate) proof fn lemma_left_site_distinct<K: Ord, V>(
    nodes: Seq<Node<K, V>>,
    root: usize,
    top: usize,
    lo: Option<K>,
    hi: Option<K>,
    ha: nat,
    hb: nat,
    hc: nat,
)
    requires
        total_order::<K>(),
        left_rotation_site(nodes, root, top, lo, hi, ha, hb, hc),
    ensures
        can_rotate_left(nodes, root, top),
{
    lemma_order::<K>();
}

/// After a left rotation at a site the three subtrees handed round are
/// what they were, the two rewired nodes head balanced search trees
/// wherever their new subtrees differ in height by at most one, and the
/// shape under the promoted child is made of the three shapes as a turn
/// to the left makes it.
pub(crate) proof fn lemma_left_rotation_shape<K: Ord, V>(
    before: Seq<Node<K, V>>,
    root: usize,
    top: usize,
    lo: Option<K>,
    hi: Option<K>,
    ha: nat,
    hb: nat,
    hc: nat,
    after: Seq<Node<K, V>>,
    new_root: usize,
)
    requires
        total_order::<K>(),
        left_rotation_site(before, root, top, lo, hi, ha, hb, hc),
        is_left_rotation(before, root, top, after, new_root),
    ensures
        ({
            let low = before[top as int].right.unwrap();
            let top_key = before[top as int].key;
            let low_key = before[low as int].key;
            let top_height = 1 + taller(hb, hc);
            let low_height = 1 + taller(ha, top_height);
            &&& avl(after, after[low as int].right, Some(low_key), hi, ha)
            &&& avl(after, after[top as int].right, Some(top_key), Some(low_key), hb)
            &&& avl(after, after[top as int].left, lo, Some(top_key), hc)
            &&& after[top as int].height == top_height
            &&& after[low as int].height == low_height
            &&& (hb <= hc + 1 && hc <= hb + 1 ==> avl(
                after,
                Some(top),
                lo,
                Some(low_key),
                top_height,
            ))
            &&& (hb <= hc + 1 && hc <= hb + 1 && ha <= top_height + 1 && top_height <= ha + 1 ==> avl(
                after,
                Some(low),
                lo,
                hi,
                low_height,
            ))
            &&& layout_with(after, Some(low), low_height) == Layout::Fork(
                Box::new(
                    Layout::Fork(
                        Box::new(layout_with(before, before[top as int].left, hc)),
                        top,
                        Box::new(layout_with(before, before[low as int].left, hb)),
                    ),
                ),
                low,
                Box::new(layout_with(before, before[low as int].right, ha)),
            )
        }),
{
    lemma_order::<K>();
    let low = before[top as int].right.unwrap();
    let top_node = before[top as int];
    let low_node = before[low as int];
    assert(link_ok_at(before, root, top as int));
    lemma_frame(before, after, low_node.right, Some(low_node.key), hi, ha);
    lemma_frame(before, after, low_node.left, Some(top_node.key), Some(low_node.key), hb);
    lemma_frame(before, after, top_node.left, lo, Some(top_node.key), hc);
    if hb <= hc + 1 && hc <= hb + 1 {
        assert(avl(after, Some(top), lo, Some(low_node.key), 1 + taller(hb, hc)));
    }
    assert(child_height(after, after[low as int].right) == ha);
    assert(child_height(after, after[top as int].right) == hb);
    assert(child_height(after, after[top as int].left) == hc);
    assert(layout_with(after, Some(top), 1 + taller(hb, hc)) == Layout::Fork(
        Box::new(layout_with(after, after[top as int].left, hc)),
        top,
        Box::new(layout_with(after, after[top as int].right, hb)),
    ));
}

impl<K: Ord, V> Tree<K, V> {
    /// Promotes the left child of the node at `rotation_root` above it. The
    /// child's right subtree becomes the left subtree of the node, the node
    /// becomes the child's right child, and the child takes the node's place
    /// under the node's former parent, or as the root. Both heights are
    /// stored anew, the node's first. A node without a left child is left
    /// as it is.
    pub(crate) fn rotate_right(&mut self, rotation_root: usize)
        requires
            rotation_root < old(self).nodes@.len(),
            links_ok(old(self).nodes@, old(self).root),
            old(self).nodes@[rotation_root as int].left is Some ==> can_rotate_right(
                old(self).nodes@,
                old(self).root,
                rotation_root,
            ),
        ensures
            old(self).nodes@[rotation_root as int].left is None ==> *final(self) == *old(self),
            old(self).nodes@[rotation_root as int].left is Some ==> is_right_rotation(
                old(self).nodes@,
                old(self).root,
                rotation_root,
                final(self).nodes@,
                final(self).root,
            ) && links_ok(final(self).nodes@, final(self).root),
    {
        if self.nodes[rotation_root].left.is_none() {
            return ;
        }
        let left_node_index = self.nodes[rotation_root].left.unwrap();
        proof {
            lemma_links_valid(self.nodes@, self.root);
            assert(link_ok_at(self.nodes@, self.root, rotation_root as int));
        }
        let left_right_node = self.nodes[left_node_index].right;
        let root_node_parent = self.nodes[rotation_root].parent;

        if let Some(lrn) = left_right_node {
            self.nodes[lrn].parent = Some(rotation_root);
        }
        self.nodes[left_node_index].right = Some(rotation_root);
        self.nodes[left_node_index].parent = root_node_parent;

        self.nodes[rotation_root].left = left_right_node;
        self.nodes[rotation_root].parent = Some(left_node_index);

        if rotation_root == self.root {
            self.root = left_node_index;
        } else {
            let parent = root_node_parent.unwrap();
            if self.nodes[parent].left == Some(rotation_root) {
                self.nodes[parent].left = Some(left_node_index);
            } else if self.nodes[parent].right == Some(rotation_root) {
                self.nodes[parent].right = Some(left_node_index);
            }
        }
        assert(children_valid(self.nodes@));
        self.update_height(rotation_root);
        self.update_height(left_node_index);
        proof {
            lemma_right_rotation_links(
                old(self).nodes@,
                old(self).root,
                rotation_root,
                self.nodes@,
                self.root,
            );
        }
    }

    /// Promotes the right child of the node at `rotation_root` above it. The
    /// child's left subtree becomes the right subtree of the node, the node
    /// becomes the child's left child, and the child takes the node's place
    /// under the node's former parent, or as the root. Both heights are
    /// stored anew, the node's first. A node without a right child is left
    /// as it is.
    pub(crate) fn rotate_left(&mut self, rotation_root: usize)
        requires
            rotation_root < old(self).nodes@.len(),
            links_ok(old(self).nodes@, old(self).root),
            old(self).nodes@[rotation_root as int].right is Some ==> can_rotate_left(
                old(self).nodes@,
                old(self).root,
                rotation_root,
            ),
        ensures
            old(self).nodes@[rotation_root as int].right is None ==> *final(self) == *old(self),
            old(self).nodes@[rotation_root as int].right is Some ==> is_left_rotation(
                old(self).nodes@,
                old(self).root,
                rotation_root,
                final(self).nodes@,
                final(self).root,
            ) && links_ok(final(self).nodes@, final(self).root),
    {
        if self.nodes[rotation_root].right.is_none() {
            return ;
        }
        let right_node_index = self.nodes[rotation_root].right.unwrap();
        proof {
            lemma_links_valid(self.nodes@, self.root);
            assert(link_ok_at(self.nodes@, self.root, rotation_root as int));
        }
        let right_left_node = self.nodes[right_node_index].left;
        let root_node_parent = self.nodes[rotation_root].parent;

        if let Some(rln) = right_left_node {
            self.nodes[rln].parent = Some(rotation_root);
        }
        self.nodes[right_node_index].left = Some(rotation_root);
        self.nodes[right_node_index].parent = root_node_parent;

        self.nodes[rotation_root].right = right_left_node;
        self.nodes[rotation_root].parent = Some(right_node_index);

        if rotation_root == self.root {
            self.root = right_node_index;
        } else {
            let parent = root_node_parent.unwrap();
            if self.nodes[parent].left == Some(rotation_root) {
                self.nodes[parent].left = Some(right_node_index);
            } else if self.nodes[parent].right == Some(rotation_root) {
                self.nodes[parent].right = Some(right_node_index);
            }
        }
        assert(children_valid(self.nodes@));
        self.update_height(rotation_root);
        self.update_height(right_node_index);
        proof {
            lemma_left_rotation_links(
                old(self).nodes@,
                old(self).root,
                rotation_root,
                self.nodes@,
                self.root,
            );
        }
    }
}

} // verus!
