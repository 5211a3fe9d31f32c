//! The ordered cursor: a walk over the nodes in ascending order of their
//! keys that keeps its place on an explicit stack.

use crate::order::total_order;
use crate::shape::balanced_at;
use crate::shape::lemma_links_valid;
use crate::shape::Node;
use crate::shape::subtree;
use crate::tree::Tree;
use vstd::prelude::*;

verus! {

/// A cursor over a tree. It yields each node once, in ascending order of
/// the keys, and is then exhausted.
pub struct TreeIter<'a, K: Ord, V> {
    prev_nodes: Vec<usize>,
    current_node: usize,
    cur_emitted: bool,
    going_left: bool,
    tree: &'a Tree<K, V>,
}

/// What the nodes on the stack still owe: each its own position and then
/// its right subtree, the node on top first.
pub open spec fn deferred<K: Ord, V>(nodes: Seq<Node<K, V>>, stack: Seq<usize>) -> Seq<usize>
    decreases stack.len(),
{
    if stack.len() == 0 {
        Seq::empty()
    } else {
        seq![stack.last()] + subtree(nodes, nodes[stack.last() as int].right) + deferred(
            nodes,
            stack.drop_last(),
        )
    }
}

/// A cursor is viewed as the positions of the nodes that it has yet to
/// yield.
impl<'a, K: Ord, V> View for TreeIter<'a, K, V> {
    type V = Seq<usize>;

    open spec fn view(&self) -> Seq<usize> {
        self.remaining()
    }
}

impl<'a, K: Ord, V> TreeIter<'a, K, V> {
    /// The tree that the cursor walks.
    pub closed spec fn tree(&self) -> Tree<K, V> {
        *self.tree
    }

    /// The cursor stands at a node of a well-formed tree, and its stack
    /// holds nodes of that tree.
    pub closed spec fn wf(&self) -> bool {
        let nodes = self.tree.nodes@;
        &&& self.tree.wf()
        &&& (nodes.len() > 0 ==> self.current_node < nodes.len())
        &&& (nodes.len() > 0 && self.cur_emitted && self.going_left
            ==> nodes[self.current_node as int].left is None)
        &&& forall|s: int|
            0 <= s < self.prev_nodes@.len() ==> (#[trigger] self.prev_nodes@[s]) < nodes.len()
    }

    /// The positions of the nodes that the cursor has yet to yield, in the
    /// order in which it will yield them.
    pub closed spec fn remaining(&self) -> Seq<usize> {
        let nodes = self.tree.nodes@;
        if nodes.len() == 0 {
            Seq::empty()
        } else {
            let n = nodes[self.current_node as int];
            (if self.going_left && !self.cur_emitted {
                subtree(nodes, n.left)
            } else {
                Seq::empty()
            }) + (if !self.cur_emitted {
                seq![self.current_node]
            } else {
                Seq::empty()
            }) + subtree(nodes, n.right) + deferred(nodes, self.prev_nodes@)
        }
    }

    /// How far the cursor is from its next halt.
    closed spec fn steps_left(&self) -> nat {
        if !self.cur_emitted && !self.going_left {
            0
        } else {
            1 + self.tree.nodes@[self.current_node as int].height as nat
        }
    }

    /// Moves to the next node in ascending order of the keys and yields
    /// it; `None` once every node has been yielded.
    pub fn next(&mut self) -> (item: Option<&'a Node<K, V>>)
        requires
            old(self).wf(),
        ensures
            final(self).wf(),
            final(self).tree() == old(self).tree(),
            match item {
                Some(node) => {
                    &&& old(self).remaining().len() > 0
                    &&& *node == old(self).tree().nodes@[old(self).remaining()[0] as int]
                    &&& final(self).remaining() == old(self).remaining().drop_first()
                },
                None => old(self).remaining().len() == 0 && final(self).remaining().len() == 0,
            },
    {
        let tree: &'a Tree<K, V> = self.tree;
        let ghost nodes = tree.nodes@;
        loop
            invariant
                self.wf(),
                self.tree == tree,
                tree == old(self).tree,
                nodes == tree.nodes@,
                self.remaining() == old(self).remaining(),
            decreases self.steps_left(),
        {
            if self.current_node >= tree.nodes.len() {
                return None;
            }
            let node = &tree.nodes[self.current_node];
            let ghost cur = self.current_node;
            let ghost stack = self.prev_nodes@;
            proof {
                assert(balanced_at(nodes, cur as int));
                lemma_links_valid(nodes, tree.root);
            }
            if node.left.is_some() && self.going_left {
                self.prev_nodes.push(self.current_node);
                self.cur_emitted = false;
                self.current_node = node.left.unwrap();
                proof {
                    let child = self.current_node;
                    assert(balanced_at(nodes, child as int));
                    assert(self.prev_nodes@.drop_last() =~= stack);
                }
                continue ;
            } else if !self.cur_emitted {
                self.cur_emitted = true;
                return Some(node);
            } else if let Some(right) = node.right {
                self.current_node = right;
                self.going_left = true;
                self.cur_emitted = false;
                proof {
                    assert(balanced_at(nodes, right as int));
                }
                continue ;
            } else {
                let nn = self.prev_nodes.pop();
                if let Some(nnn) = nn {
                    self.cur_emitted = false;
                    self.current_node = nnn;
                    self.going_left = false;
                } else {
                    return None;
                }
            }
        }
    }
}

impl<K: Ord, V> Tree<K, V> {
    /// A cursor at the start of the tree.
    pub fn iter_nodes<'a>(&'a self) -> (cursor: TreeIter<'a, K, V>)
        requires
            self.wf(),
        ensures
            cursor.wf(),
            cursor.tree() == *self,
            cursor.remaining() == self.inorder(),
    {
        let cursor = TreeIter {
            prev_nodes: vec![],
            current_node: self.root,
            tree: self,
            cur_emitted: false,
            going_left: true,
        };
        cursor
    }

    /// The entries of the tree, by reference, in ascending order of their
    /// keys: one for each node of the arena.
    pub fn iter<'a>(&'a self) -> (entries: Vec<(&'a K, &'a V)>)
        requires
            total_order::<K>(),
            self.wf(),
        ensures
            entries@.len() == self.nodes@.len(),
            entries@.len() == self@.len(),
            forall|a: int|
                0 <= a < entries@.len() ==> *(#[trigger] entries@[a]).0 == self@[a].0 && *entries@[a].1
                    == self@[a].1,
    {
        let mut cursor = self.iter_nodes();
        let mut entries: Vec<(&'a K, &'a V)> = Vec::new();
        loop
            invariant
                cursor.wf(),
                cursor.tree() == *self,
                entries@.len() <= self.inorder().len(),
                cursor.remaining() == self.inorder().skip(entries@.len() as int),
                forall|a: int|
                    0 <= a < entries@.len() ==> *(#[trigger] entries@[a]).0 == self.entries()[a].0
                        && *entries@[a].1 == self.entries()[a].1,
            ensures
                entries@.len() == self.inorder().len(),
            decreases cursor.remaining().len(),
        {
            match cursor.next() {
                Some(node) => {
                    entries.push((&node.key, &node.value));
                },
                None => {
                    break ;
                },
            }
        }
        proof {
            self.lemma_complete();
        }
        entries
    }
}

} // verus!
