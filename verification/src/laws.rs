//! What holds of every well-formed tree: its walk is ascending, it misses
//! no node and repeats none, and it is the only ascending arrangement of
//! the keys.

use crate::growth::flat;
use crate::growth::lemma_tall;
use crate::growth::tall;
use crate::growth::lemma_flat;
use crate::order::in_range;
use crate::order::lemma_order;
use crate::order::lt;
use crate::order::same;
use crate::order::total_order;
use crate::shape::avl;
use crate::shape::balanced_at;
use crate::shape::child_height;
use crate::shape::distinct_keys;
use crate::shape::inorder;
use crate::shape::layout;
use crate::shape::Node;
use crate::shape::taller;
use crate::tree::Tree;
use vstd::prelude::*;

verus! {

/// The walk `s` names nodes of the arena whose keys lie between `lo` and
/// `hi` and ascend strictly along the walk.
pub open spec fn ascending_in<K: Ord, V>(
    nodes: Seq<Node<K, V>>,
    s: Seq<usize>,
    lo: Option<K>,
    hi: Option<K>,
) -> bool {
    &&& forall|a: int|
        0 <= a < s.len() ==> (#[trigger] s[a]) < nodes.len() && in_range(
            lo,
            nodes[s[a] as int].key,
            hi,
        )
    &&& forall|a: int, b: int|
        0 <= a < b < s.len() ==> lt(nodes[#[trigger] s[a] as int].key, nodes[#[trigger] s[b] as int].key)
}

/// The walk over a balanced search tree ascends strictly, stays in the
/// range of the tree, and names every node of the arena whose key lies in
/// that range.
pub proof fn lemma_walk<K: Ord, V>(
    nodes: Seq<Node<K, V>>,
    child: Option<usize>,
    lo: Option<K>,
    hi: Option<K>,
    h: nat,
)
    requires
        total_order::<K>(),
        distinct_keys(nodes),
        avl(nodes, child, lo, hi, h),
    ensures
        ascending_in(nodes, inorder(nodes, child, h), lo, hi),
        forall|j: int|
            0 <= j < nodes.len() && in_range(lo, (#[trigger] nodes[j]).key, hi) ==> inorder(
                nodes,
                child,
                h,
            ).contains(j as usize),
    decreases h,
{
    lemma_order::<K>();
    if let Some(i) = child {
        let n = nodes[i as int];
        let lh = child_height(nodes, n.left);
        let rh = child_height(nodes, n.right);
        let left = inorder(nodes, n.left, lh);
        let right = inorder(nodes, n.right, rh);
        let s = inorder(nodes, child, h);
        lemma_walk(nodes, n.left, lo, Some(n.key), lh);
        lemma_walk(nodes, n.right, Some(n.key), hi, rh);
        let at = left.len() as int;
        assert forall|j: int|
            0 <= j < nodes.len() && in_range(lo, (#[trigger] nodes[j]).key, hi) implies s.contains(
            j as usize,
        ) by {
            let k = nodes[j].key;
            if lt(k, n.key) {
                let a = choose|a: int| 0 <= a < left.len() && left[a] == j as usize;
                assert(s[a] == j as usize);
            } else if lt(n.key, k) {
                let a = choose|a: int| 0 <= a < right.len() && right[a] == j as usize;
                assert(s[at + 1 + a] == j as usize);
            } else {
                assert(s[at] == i);
            }
        }
    }
}

/// The node at `j` stores the height of the shape below it, counted node
/// by node.
pub open spec fn measured_at<K: Ord, V>(nodes: Seq<Node<K, V>>, j: int) -> bool {
    nodes[j].height == tall(layout(nodes, Some(j as usize)))
}

/// In a balanced search tree that holds no key twice, every node of the
/// arena whose key lies in the tree's range stores the height of the
/// shape below it.
pub proof fn lemma_measured<K: Ord, V>(
    nodes: Seq<Node<K, V>>,
    child: Option<usize>,
    lo: Option<K>,
    hi: Option<K>,
    h: nat,
)
    requires
        total_order::<K>(),
        distinct_keys(nodes),
        avl(nodes, child, lo, hi, h),
    ensures
        forall|j: int|
            0 <= j < nodes.len() && in_range(lo, nodes[j].key, hi) ==> #[trigger] measured_at(nodes, j),
    decreases h,
{
    lemma_order::<K>();
    if let Some(i) = child {
        let n = nodes[i as int];
        lemma_measured(nodes, n.left, lo, Some(n.key), child_height(nodes, n.left));
        lemma_measured(nodes, n.right, Some(n.key), hi, child_height(nodes, n.right));
        lemma_tall(nodes, child, lo, hi, h);
        assert forall|j: int|
            0 <= j < nodes.len() && in_range(lo, nodes[j].key, hi) implies #[trigger] measured_at(
            nodes,
            j,
        ) by {
            if same(nodes[j].key, n.key) {
                assert(j == i);
            }
        }
    }
}

impl<K: Ord, V> Tree<K, V> {
    /// In a well-formed tree the height that a node stores is the height
    /// of the shape below it, counted anew node by node.
    pub proof fn lemma_heights_measured(&self, i: int)
        requires
            total_order::<K>(),
            self.wf(),
            0 <= i < self.nodes@.len(),
        ensures
            self.nodes@[i].height == tall(layout(self.nodes@, Some(i as usize))),
    {
        let h = self.nodes@[self.root as int].height as nat;
        lemma_measured(self.nodes@, Some(self.root), None, None, h);
        assert(in_range(None, self.nodes@[i].key, None));
        assert(measured_at(self.nodes@, i));
    }

    /// Walking a well-formed tree yields the keys in strictly ascending
    /// order.
    pub proof fn lemma_ascending(&self)
        requires
            total_order::<K>(),
            self.wf(),
        ensures
            ascending_by(self.entries(), |e: (K, V)| e.0),
    {
        if self.nodes@.len() > 0 {
            let h = self.nodes@[self.root as int].height as nat;
            lemma_walk(self.nodes@, Some(self.root), None, None, h);
        }
    }

    /// Walking a well-formed tree yields every node of the arena, and each
    /// once: the walk is as long as the arena, names only its positions,
    /// names each of them, and names none twice.
    pub proof fn lemma_complete(&self)
        requires
            total_order::<K>(),
            self.wf(),
        ensures
            self.inorder().len() == self.nodes@.len(),
            self.entries().len() == self.nodes@.len(),
            self.inorder().no_duplicates(),
            forall|a: int| 0 <= a < self.inorder().len() ==> (#[trigger] self.inorder()[a]) < self.nodes@.len(),
            forall|j: usize| j < self.nodes@.len() ==> #[trigger] self.inorder().contains(j),
    {
        lemma_order::<K>();
        let nodes = self.nodes@;
        let s = self.inorder();
        if nodes.len() > 0 {
            let h = nodes[self.root as int].height as nat;
            lemma_walk(nodes, Some(self.root), None, None, h);
            assert forall|j: usize| j < nodes.len() implies #[trigger] s.contains(j) by {
                assert(in_range(None, nodes[j as int].key, None));
            }
            let positions = Set::new(|j: usize| j < nodes.len());
            assert(s.to_set() =~= positions) by {
                assert forall|j: usize| s.to_set().contains(j) <==> positions.contains(j) by {
                    if s.to_set().contains(j) {
                        let a = choose|a: int| 0 <= a < s.len() && s[a] == j;
                    }
                }
            }
            s.unique_seq_to_set();
            assert(nodes.len() == self.nodes.len());
            lemma_positions_len(nodes.len());
        }
    }

    /// The keys of the tree in the order of the walk.
    pub open spec fn keys(&self) -> Seq<K> {
        Seq::new(self.entries().len(), |a: int| self.entries()[a].0)
    }

    /// The walk is what sorting gives: any strictly ascending sequence
    /// that is as long as the arena and holds the key of each of its nodes
    /// is the sequence of keys that the walk yields.
    pub proof fn lemma_walk_is_sorted(&self, sorted: Seq<K>)
        requires
            total_order::<K>(),
            self.wf(),
            sorted.len() == self.nodes@.len(),
            ascending_by(sorted, |k: K| k),
            forall|j: int| 0 <= j < self.nodes@.len() ==> sorted.contains((#[trigger] self.nodes@[j]).key),
        ensures
            self.keys() == sorted,
    {
        self.lemma_ascending();
        self.lemma_complete();
        let u = self.keys();
        let itself = |k: K| k;
        lemma_ascending_unique(sorted, u, itself);
    }

    /// The walk names the positions of the tree's shape in symmetric
    /// order.
    pub proof fn lemma_walk_is_flat_shape(&self)
        ensures
            self.inorder() == flat(self.layout()),
    {
        if self.nodes@.len() > 0 {
            lemma_flat(self.nodes@, Some(self.root), child_height(self.nodes@, Some(self.root)));
        }
    }

    /// In a well-formed tree every node stores the height of its subtree,
    /// one more than the larger of the heights of its two subtrees, and
    /// the two differ by at most one.
    pub proof fn lemma_balanced(&self, i: int)
        requires
            self.wf(),
            0 <= i < self.nodes@.len(),
        ensures
            ({
                let n = self.nodes@[i];
                let lh = child_height(self.nodes@, n.left);
                let rh = child_height(self.nodes@, n.right);
                &&& n.height == 1 + taller(lh, rh)
                &&& -1 <= lh - rh <= 1
            }),
    {
        assert(balanced_at(self.nodes@, i));
    }
}

/// The items of `s` ascend strictly by the keys that `key` gives them.
pub open spec fn ascending_by<T, K: Ord>(s: Seq<T>, key: spec_fn(T) -> K) -> bool {
    forall|a: int, b: int| 0 <= a < b < s.len() ==> lt(key(#[trigger] s[a]), key(#[trigger] s[b]))
}

/// Every item of `u` occurs in `s`.
pub open spec fn covers<T>(s: Seq<T>, u: Seq<T>) -> bool {
    forall|j: int| 0 <= j < u.len() ==> s.contains(#[trigger] u[j])
}

/// Where the item `u[j]` stands in `s`.
pub open spec fn stand<T>(s: Seq<T>, u: Seq<T>, j: int) -> int {
    choose|a: int| 0 <= a < s.len() && s[a] == u[j]
}

/// Of two ascending arrangements of equal length, of which the first
/// holds every item of the second, an item of the second stands no
/// earlier in the first.
proof fn lemma_stands_late<T, K: Ord>(s: Seq<T>, u: Seq<T>, key: spec_fn(T) -> K, j: int)
    requires
        total_order::<K>(),
        s.len() == u.len(),
        ascending_by(s, key),
        ascending_by(u, key),
        covers(s, u),
        0 <= j < u.len(),
    ensures
        0 <= stand(s, u, j) < s.len(),
        s[stand(s, u, j)] == u[j],
        j <= stand(s, u, j),
    decreases j,
{
    lemma_order::<K>();
    if j > 0 {
        lemma_stands_late(s, u, key, j - 1);
    }
}

/// Under the same conditions an item of the second stands no later in the
/// first.
proof fn lemma_stands_early<T, K: Ord>(s: Seq<T>, u: Seq<T>, key: spec_fn(T) -> K, j: int)
    requires
        total_order::<K>(),
        s.len() == u.len(),
        ascending_by(s, key),
        ascending_by(u, key),
        covers(s, u),
        0 <= j < u.len(),
    ensures
        0 <= stand(s, u, j) < s.len(),
        s[stand(s, u, j)] == u[j],
        stand(s, u, j) <= j,
    decreases u.len() - j,
{
    lemma_order::<K>();
    if j + 1 < u.len() {
        lemma_stands_early(s, u, key, j + 1);
    }
}

/// Items have one ascending arrangement: two ascending sequences of equal
/// length, of which one holds every item of the other, are equal.
pub proof fn lemma_ascending_unique<T, K: Ord>(s: Seq<T>, u: Seq<T>, key: spec_fn(T) -> K)
    requires
        total_order::<K>(),
        s.len() == u.len(),
        ascending_by(s, key),
        ascending_by(u, key),
        covers(s, u),
    ensures
        s == u,
{
    assert forall|j: int| 0 <= j < s.len() implies s[j] == u[j] by {
        lemma_stands_late(s, u, key, j);
        lemma_stands_early(s, u, key, j);
    }
}

/// The number of entries at the start of `entries` whose keys sort before
/// `key`: in an ascending sequence, the place where `key` belongs.
pub open spec fn rank<K: Ord, V>(entries: Seq<(K, V)>, key: K) -> int
    decreases entries.len(),
{
    if entries.len() > 0 && lt(entries[0].0, key) {
        1 + rank(entries.drop_first(), key)
    } else {
        0
    }
}

/// In an ascending sequence that does not hold `key`, the entries before
/// the rank of `key` sort before it and the others after it.
pub proof fn lemma_rank<K: Ord, V>(entries: Seq<(K, V)>, key: K)
    requires
        total_order::<K>(),
        ascending_by(entries, |e: (K, V)| e.0),
        forall|a: int| 0 <= a < entries.len() ==> !same((#[trigger] entries[a]).0, key),
    ensures
        0 <= rank(entries, key) <= entries.len(),
        forall|a: int| 0 <= a < rank(entries, key) ==> lt((#[trigger] entries[a]).0, key),
        forall|a: int| rank(entries, key) <= a < entries.len() ==> lt(key, (#[trigger] entries[a]).0),
    decreases entries.len(),
{
    lemma_order::<K>();
    if entries.len() > 0 && lt(entries[0].0, key) {
        let rest = entries.drop_first();
        lemma_rank(rest, key);
        assert forall|a: int| 0 <= a < rank(entries, key) implies lt((#[trigger] entries[a]).0, key) by {
            if a > 0 {
                assert(entries[a] == rest[a - 1]);
            }
        }
        assert forall|a: int| rank(entries, key) <= a < entries.len() implies lt(
            key,
            (#[trigger] entries[a]).0,
        ) by {
            assert(entries[a] == rest[a - 1]);
        }
    }
}

/// What a successful insertion does to the entries: a well-formed tree
/// whose arena is that of another with one node more holds the entries of
/// the other and the new entry, at the place where its key belongs.
pub proof fn lemma_entries_grow<K: Ord, V>(before: Tree<K, V>, after: Tree<K, V>, key: K, value: V)
    requires
        total_order::<K>(),
        before.wf(),
        after.wf(),
        !before.contains_key(key),
        after.nodes@.len() == before.nodes@.len() + 1,
        after.nodes@[before.nodes@.len() as int].key == key,
        after.nodes@[before.nodes@.len() as int].value == value,
        forall|j: int|
            0 <= j < before.nodes@.len() ==> (#[trigger] after.nodes@[j]).key == before.nodes@[j].key
                && after.nodes@[j].value == before.nodes@[j].value,
    ensures
        after.entries() == before.entries().insert(rank(before.entries(), key), (key, value)),
{
    let by_key = |e: (K, V)| e.0;
    let old_entries = before.entries();
    let old_walk = before.inorder();
    let walk = after.inorder();
    let len = before.nodes@.len();
    before.lemma_ascending();
    before.lemma_complete();
    after.lemma_ascending();
    after.lemma_complete();
    lemma_rank(old_entries, key);
    let r = rank(old_entries, key);
    let grown = old_entries.insert(r, (key, value));
    assert forall|j: int| 0 <= j < after.entries().len() implies grown.contains(
        #[trigger] after.entries()[j],
    ) by {
        let i = walk[j];
        if i < len {
            assert(old_walk.contains(i));
            let a = choose|a: int| 0 <= a < old_walk.len() && old_walk[a] == i;
            if a < r {
                assert(grown[a] == old_entries[a]);
            } else {
                assert(grown[a + 1] == old_entries[a]);
            }
        } else {
            assert(grown[r] == (key, value));
        }
    }
    lemma_ascending_unique(grown, after.entries(), by_key);
}

/// There are `n` positions below `n`.
pub proof fn lemma_positions_len(n: nat)
    requires
        n <= usize::MAX,
    ensures
        Set::new(|j: usize| j < n).finite(),
        Set::new(|j: usize| j < n).len() == n,
    decreases n,
{
    let s = Set::new(|j: usize| j < n);
    if n == 0 {
        assert(s =~= Set::empty());
    } else {
        let m = (n - 1) as nat;
        let t = Set::new(|j: usize| j < m);
        lemma_positions_len(m);
        assert(s =~= t.insert(m as usize));
    }
}

} // verus!
