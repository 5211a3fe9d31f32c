//! The tree: an arena of nodes and the position of the root.

use crate::order::lemma_i64_total_order;
use crate::order::total_order;
use crate::shape::avl;
use crate::shape::balanced_at;
use crate::shape::child_height;
use crate::shape::children_valid;
use crate::shape::distinct_keys;
use crate::shape::heights_fit;
use crate::shape::layout;
use crate::shape::Layout;
use crate::shape::lemma_links_valid;
use crate::shape::links_ok;
use crate::shape::Node;
use crate::shape::subtree;
use crate::shape::taller;
use vstd::prelude::*;

verus! {

/// A balanced search tree. `nodes` holds every node ever inserted, each at
/// the position it was given when it was inserted; `root` is the position
/// of the current root.
#[derive(Debug, Clone)]
pub struct Tree<K: Ord, V> {
    pub nodes: Vec<Node<K, V>>,
    pub root: usize,
}

/// A tree is viewed as its entries in ascending order of their keys.
impl<K: Ord, V> View for Tree<K, V> {
    type V = Seq<(K, V)>;

    open spec fn view(&self) -> Seq<(K, V)> {
        self.entries()
    }
}

impl<K: Ord, V> Tree<K, V> {
    /// The tree is empty, or its arena holds exactly one balanced search
    /// tree whose root is at `root`:
    ///
    /// - child and parent references match, and only the root has no
    ///   parent;
    /// - no two nodes hold the same key;
    /// - from the root down, the keys of each left subtree sort before the
    ///   key of the node and those of each right subtree after it, and
    ///   every node of the arena is reached;
    /// - every node stores the height of its subtree, and its two subtrees
    ///   differ in height by at most one;
    /// - no stored height exceeds the number of nodes.
    pub open spec fn wf(&self) -> bool {
        self.nodes@.len() > 0 ==> {
            &&& links_ok(self.nodes@, self.root)
            &&& distinct_keys(self.nodes@)
            &&& avl(
                self.nodes@,
                Some(self.root),
                None,
                None,
                self.nodes@[self.root as int].height as nat,
            )
            &&& forall|i: int| 0 <= i < self.nodes@.len() ==> balanced_at(self.nodes@, i)
            &&& heights_fit(self.nodes@)
        }
    }

    /// The shape of the tree: which node stands where.
    pub open spec fn layout(&self) -> Layout {
        if self.nodes@.len() == 0 {
            Layout::Empty
        } else {
            layout(self.nodes@, Some(self.root))
        }
    }

    /// The positions of the nodes in ascending order of their keys.
    pub open spec fn inorder(&self) -> Seq<usize> {
        if self.nodes@.len() == 0 {
            Seq::empty()
        } else {
            subtree(self.nodes@, Some(self.root))
        }
    }

    /// The entries of the tree in ascending order of their keys.
    pub open spec fn entries(&self) -> Seq<(K, V)> {
        Seq::new(
            self.inorder().len(),
            |a: int| (self.nodes@[self.inorder()[a] as int].key, self.nodes@[self.inorder()[a] as int].value),
        )
    }

    /// The balance factor of the node at `node` can be taken: every child
    /// reference points into the arena, and the factor fits the type of
    /// the result.
    pub open spec fn measurable(&self, node: usize) -> bool {
        &&& children_valid(self.nodes@)
        &&& node < self.nodes@.len() ==> -127 <= child_height(
            self.nodes@,
            self.nodes@[node as int].left,
        ) - child_height(self.nodes@, self.nodes@[node as int].right) <= 127
    }

    /// An empty tree.
    pub fn new() -> (tree: Self)
        ensures
            tree.wf(),
            tree.nodes@.len() == 0,
            tree.root == 0,
    {
        Tree { nodes: Vec::new(), root: 0 }
    }

    /// The height of the left subtree of the node at `node`, 0 where it has
    /// none; `None` where `node` is no position of the arena.
    pub(crate) fn left_height(&self, node: usize) -> (h: Option<usize>)
        requires
            children_valid(self.nodes@),
        ensures
            node >= self.nodes@.len() ==> h is None,
            node < self.nodes@.len() ==> h == Some(
                child_height(self.nodes@, self.nodes@[node as int].left) as usize,
            ),
    {
        if node >= self.nodes.len() {
            return None;
        }
        if let Some(left) = self.nodes[node].left {
            Some(self.nodes[left].height)
        } else {
            Some(0)
        }
    }

    /// The height of the right subtree of the node at `node`, 0 where it has
    /// none; `None` where `node` is no position of the arena.
    pub(crate) fn right_height(&self, node: usize) -> (h: Option<usize>)
        requires
            children_valid(self.nodes@),
        ensures
            node >= self.nodes@.len() ==> h is None,
            node < self.nodes@.len() ==> h == Some(
                child_height(self.nodes@, self.nodes@[node as int].right) as usize,
            ),
    {
        if node >= self.nodes.len() {
            return None;
        }
        if let Some(right) = self.nodes[node].right {
            Some(self.nodes[right].height)
        } else {
            Some(0)
        }
    }

    /// Stores in the node at `node` the height that its two subtrees give it.
    pub(crate) fn update_height(&mut self, node: usize)
        requires
            children_valid(old(self).nodes@),
            node < old(self).nodes@.len(),
            taller(
                child_height(old(self).nodes@, old(self).nodes@[node as int].left),
                child_height(old(self).nodes@, old(self).nodes@[node as int].right),
            ) < usize::MAX,
        ensures
            final(self).root == old(self).root,
            final(self).nodes@ == old(self).nodes@.update(
                node as int,
                (Node {
                    height: (1 + taller(
                        child_height(old(self).nodes@, old(self).nodes@[node as int].left),
                        child_height(old(self).nodes@, old(self).nodes@[node as int].right),
                    )) as usize,
                    ..old(self).nodes@[node as int]
                }),
            ),
    {
        let left_height = self.left_height(node).unwrap();
        let right_height = self.right_height(node).unwrap();
        let larger = if left_height >= right_height {
            left_height
        } else {
            right_height
        };
        self.nodes[node].height = 1 + larger;
    }

    /// The balance factor of the node at `node`: the height of its left
    /// subtree less that of its right subtree. `None` where `node` is no
    /// position of the arena.
    pub fn balance_factor(&self, node: usize) -> (factor: Option<i8>)
        requires
            self.wf() || self.measurable(node),
        ensures
            node >= self.nodes@.len() ==> factor is None,
            node < self.nodes@.len() ==> factor == Some(
                (child_height(self.nodes@, self.nodes@[node as int].left) - child_height(
                    self.nodes@,
                    self.nodes@[node as int].right,
                )) as i8,
            ),
            self.wf() && node < self.nodes@.len() ==> factor == Some(-1i8) || factor == Some(0i8)
                || factor == Some(1i8),
    {
        if node >= self.nodes.len() {
            return None;
        }
        proof {
            if self.wf() {
                assert(balanced_at(self.nodes@, node as int));
                lemma_links_valid(self.nodes@, self.root);
            }
        }
        let left_height = self.left_height(node).unwrap_or(0);
        let right_height = self.right_height(node).unwrap_or(0);
        if left_height >= right_height {
            Some((left_height - right_height) as i8)
        } else {
            Some(-((right_height - left_height) as i8))
        }
    }
}

/// A tree of one node, with key 4 and value 2. The order of its keys is
/// a lawful total order, so that the tree can be inserted into.
pub fn basic_tree() -> (tree: Tree<i64, i8>)
    ensures
        total_order::<i64>(),
        tree.wf(),
        tree.root == 0,
        tree.nodes@ == seq![
            (Node::<i64, i8> { key: 4, value: 2, left: None, right: None, height: 1, parent: None }),
        ],
{
    let tree = Tree {
        nodes: vec![Node { key: 4, value: 2, left: None, right: None, height: 1, parent: None }],
        root: 0,
    };
    proof {
        lemma_i64_total_order();
        let nodes = tree.nodes@;
        assert(avl(nodes, None, None, Some(4i64), 0));
        assert(avl(nodes, None, Some(4i64), None, 0));
    }
    tree
}

} // verus!
