//! Insertion: the descent to the place of a new key, and the climb back
//! to the root that restores heights and balance.

use crate::growth::grown;
use crate::laws::lemma_entries_grow;
use crate::laws::rank;
use crate::order::in_range;
use crate::order::lemma_narrow;
use crate::order::lemma_order;
use crate::order::locate;
use crate::order::lt;
use crate::order::same;
use crate::order::Side;
use crate::order::total_order;
use crate::rebalance::nearly_avl;
use crate::rebalance::rebalanced;
use crate::shape::avl;
use crate::shape::balanced_at;
use crate::shape::child_height;
use crate::shape::children_valid;
use crate::shape::distinct_keys;
use crate::shape::heights_fit;
use crate::shape::layout;
use crate::shape::layout_with;
use crate::shape::Layout;
use crate::shape::lemma_frame;
use crate::shape::lemma_links_valid;
use crate::shape::link_ok_at;
use crate::shape::links_ok;
use crate::shape::Node;
use crate::shape::points_to;
use crate::shape::same_shape;
use crate::shape::taller;
use crate::tree::Tree;
use vstd::prelude::*;

verus! {

/// The child reference of `n` on the side where `key` belongs.
pub(crate) open spec fn toward<K: Ord, V>(n: Node<K, V>, key: K) -> Option<usize> {
    if lt(key, n.key) {
        n.left
    } else {
        n.right
    }
}

/// The child reference of `n` on the side where `key` does not belong.
pub(crate) open spec fn away<K: Ord, V>(n: Node<K, V>, key: K) -> Option<usize> {
    if lt(key, n.key) {
        n.right
    } else {
        n.left
    }
}

/// Step `t` of a descent for `key`: the node `path[t]` heads a balanced
/// search tree in the range from `los[t]` to `his[t]`, `key` lies in that
/// range and differs from the node's key, and the next range is the part
/// of this one on the side of the node where `key` belongs.
pub(crate) open spec fn descent_at<K: Ord, V>(
    nodes: Seq<Node<K, V>>,
    key: K,
    path: Seq<usize>,
    los: Seq<Option<K>>,
    his: Seq<Option<K>>,
    t: int,
) -> bool {
    let p = path[t];
    let n = nodes[p as int];
    &&& p < nodes.len()
    &&& avl(nodes, Some(p), los[t], his[t], n.height as nat)
    &&& in_range(los[t], key, his[t])
    &&& !same(key, n.key)
    &&& los[t + 1] == if lt(key, n.key) {
        los[t]
    } else {
        Some(n.key)
    }
    &&& his[t + 1] == if lt(key, n.key) {
        Some(n.key)
    } else {
        his[t]
    }
    &&& (t + 1 < path.len() ==> toward(n, key) == Some(path[t + 1]))
}

/// `path` is a descent for `key` from the root: each of its nodes is the
/// child of the one before on the side where `key` belongs.
pub(crate) open spec fn descent<K: Ord, V>(
    nodes: Seq<Node<K, V>>,
    root: usize,
    key: K,
    path: Seq<usize>,
    los: Seq<Option<K>>,
    his: Seq<Option<K>>,
) -> bool {
    &&& los.len() == path.len() + 1
    &&& his.len() == path.len() + 1
    &&& los[0] is None
    &&& his[0] is None
    &&& (path.len() > 0 ==> path[0] == root)
    &&& forall|t: int| 0 <= t < path.len() ==> #[trigger] descent_at(nodes, key, path, los, his, t)
}

/// The reference through which the tree reaches step `t` of a descent:
/// the root, or the child reference of the node one step up.
pub(crate) open spec fn place_at<K: Ord, V>(
    nodes: Seq<Node<K, V>>,
    root: usize,
    key: K,
    path: Seq<usize>,
    t: int,
) -> Option<usize> {
    if t == 0 {
        Some(root)
    } else {
        toward(nodes[path[t - 1] as int], key)
    }
}

/// What one node that was in the tree before the insertion looks like
/// when the climb has reached step `t`: it has its key and value, it is
/// unchanged where its key lies outside the range of step `t` and it is
/// not the node one step up, and the node one step up has changed at most
/// in the child reference on the side of the new key.
pub(crate) open spec fn carried_at<K: Ord, V>(
    old_nodes: Seq<Node<K, V>>,
    key: K,
    path: Seq<usize>,
    los: Seq<Option<K>>,
    his: Seq<Option<K>>,
    t: int,
    nodes: Seq<Node<K, V>>,
    j: int,
) -> bool {
    let was = old_nodes[j];
    let now = nodes[j];
    &&& now.key == was.key
    &&& now.value == was.value
    &&& now.height <= old_nodes.len() + 1
    &&& (!in_range(los[t], was.key, his[t]) && (t == 0 || j != path[t - 1]) ==> now == was)
    &&& (t > 0 && j == path[t - 1] ==> now.height == was.height && now.parent == was.parent && away(
        now,
        key,
    ) == away(was, key))
}

/// The state of the climb when it has reached step `t` of the descent:
/// the new node is in the arena, the place of step `t` holds a balanced
/// search tree whose height is that of the old tree there or one more
/// and whose shape is that of the old tree there, grown by the new node,
/// and the rest of the arena is as the old tree had it.
pub(crate) open spec fn climbing<K: Ord, V>(
    old_nodes: Seq<Node<K, V>>,
    old_root: usize,
    key: K,
    value: V,
    path: Seq<usize>,
    los: Seq<Option<K>>,
    his: Seq<Option<K>>,
    t: int,
    nodes: Seq<Node<K, V>>,
    root: usize,
) -> bool {
    let place = place_at(nodes, root, key, path, t);
    let old_place = place_at(old_nodes, old_root, key, path, t);
    let h = child_height(nodes, place);
    let old_h = child_height(old_nodes, old_place);
    let fresh = nodes[old_nodes.len() as int];
    &&& 0 <= t <= path.len()
    &&& nodes.len() == old_nodes.len() + 1
    &&& links_ok(nodes, root)
    &&& forall|j: int|
        0 <= j < old_nodes.len() ==> #[trigger] carried_at(old_nodes, key, path, los, his, t, nodes, j)
    &&& fresh.key == key
    &&& fresh.value == value
    &&& fresh.height <= old_nodes.len() + 1
    &&& avl(nodes, place, los[t], his[t], h)
    &&& old_h <= h <= old_h + 1
    &&& (t > 0 ==> root == old_root)
    &&& layout(nodes, place) == grown(
        old_nodes,
        layout(old_nodes, old_place),
        key,
        old_nodes.len() as usize,
    )
}

/// The node at step `t - 1` with its height stored anew.
pub(crate) open spec fn with_height<K: Ord, V>(nodes: Seq<Node<K, V>>, p: usize) -> Seq<Node<K, V>> {
    nodes.update(
        p as int,
        (Node {
            height: (1 + taller(
                child_height(nodes, nodes[p as int].left),
                child_height(nodes, nodes[p as int].right),
            )) as usize,
            ..nodes[p as int]
        }),
    )
}

/// What the arena holds once the new node has been linked under the last
/// node of the descent and appended.
pub(crate) open spec fn linked<K: Ord, V>(
    old_nodes: Seq<Node<K, V>>,
    key: K,
    value: V,
    on: usize,
    nodes: Seq<Node<K, V>>,
) -> bool {
    let len = old_nodes.len();
    let was = old_nodes[on as int];
    &&& nodes.len() == len + 1
    &&& nodes[len as int] == (Node {
        key,
        value,
        left: None,
        right: None,
        height: 1,
        parent: Some(on),
    })
    &&& nodes[on as int] == if lt(key, was.key) {
        Node { left: Some(len as usize), ..was }
    } else {
        Node { right: Some(len as usize), ..was }
    }
    &&& forall|j: int| 0 <= j < len && j != on ==> #[trigger] nodes[j] == old_nodes[j]
}

/// Linking the new node under the last node of the descent starts the
/// climb at the new node's place.
pub(crate) proof fn lemma_climb_start<K: Ord, V>(
    old_nodes: Seq<Node<K, V>>,
    old_root: usize,
    key: K,
    value: V,
    path: Seq<usize>,
    los: Seq<Option<K>>,
    his: Seq<Option<K>>,
    nodes: Seq<Node<K, V>>,
)
    requires
        total_order::<K>(),
        old_nodes.len() > 0,
        old_nodes.len() < usize::MAX,
        links_ok(old_nodes, old_root),
        forall|i: int| 0 <= i < old_nodes.len() ==> balanced_at(old_nodes, i),
        heights_fit(old_nodes),
        forall|j: int| 0 <= j < old_nodes.len() ==> !same((#[trigger] old_nodes[j]).key, key),
        descent(old_nodes, old_root, key, path, los, his),
        path.len() > 0,
        toward(old_nodes[path[path.len() - 1] as int], key) is None,
        linked(old_nodes, key, value, path[path.len() - 1], nodes),
    ensures
        climbing(old_nodes, old_root, key, value, path, los, his, path.len() as int, nodes, old_root),
{
    lemma_order::<K>();
    let k = path.len() - 1;
    let len = old_nodes.len();
    let t = path.len() as int;
    assert(descent_at(old_nodes, key, path, los, his, k));
    assert forall|i: int| 0 <= i < nodes.len() implies #[trigger] link_ok_at(nodes, old_root, i) by {
        if i < len {
            assert(link_ok_at(old_nodes, old_root, i));
        }
    }
    assert(avl(old_nodes, None, los[t], his[t], 0));
    assert(avl(nodes, None, los[t], Some(key), 0));
    assert(avl(nodes, None, Some(key), his[t], 0));
    assert(place_at(nodes, old_root, key, path, t) == Some(len as usize));
    assert(place_at(old_nodes, old_root, key, path, t) is None);
    assert(layout_with(nodes, None, 0) == Layout::Empty);
    assert(layout(nodes, Some(len as usize)) == Layout::Fork(
        Box::new(Layout::Empty),
        len as usize,
        Box::new(Layout::Empty),
    ));
}

/// What holds at the node one step up while the climb is at step `t`:
/// in the old tree the node stored the height that its subtrees gave it,
/// they differed by at most one, and on the side away from the new key
/// the subtree is still what it was.
pub(crate) open spec fn climb_local<K: Ord, V>(
    old_nodes: Seq<Node<K, V>>,
    key: K,
    path: Seq<usize>,
    t: int,
    nodes: Seq<Node<K, V>>,
) -> bool {
    let p = path[t - 1];
    let was = old_nodes[p as int];
    let now = nodes[p as int];
    let old_h = child_height(old_nodes, toward(was, key));
    let oh = child_height(old_nodes, away(was, key));
    &&& p < old_nodes.len()
    &&& was.height == 1 + taller(old_h, oh)
    &&& old_h <= oh + 1
    &&& oh <= old_h + 1
    &&& was.height <= old_nodes.len()
    &&& away(now, key) == away(was, key)
    &&& child_height(nodes, away(now, key)) == oh
    &&& now.key == was.key
    &&& now.height == was.height
    &&& now.parent == was.parent
}

/// The facts of `climb_local` hold during the climb.
pub(crate) proof fn lemma_climb_local<K: Ord, V>(
    old_nodes: Seq<Node<K, V>>,
    old_root: usize,
    key: K,
    value: V,
    path: Seq<usize>,
    los: Seq<Option<K>>,
    his: Seq<Option<K>>,
    t: int,
    nodes: Seq<Node<K, V>>,
    root: usize,
)
    requires
        total_order::<K>(),
        links_ok(old_nodes, old_root),
        forall|i: int| 0 <= i < old_nodes.len() ==> balanced_at(old_nodes, i),
        heights_fit(old_nodes),
        descent(old_nodes, old_root, key, path, los, his),
        t > 0,
        climbing(old_nodes, old_root, key, value, path, los, his, t, nodes, root),
    ensures
        climb_local(old_nodes, key, path, t, nodes),
{
    lemma_order::<K>();
    let p = path[t - 1];
    let was = old_nodes[p as int];
    assert(descent_at(old_nodes, key, path, los, his, t - 1));
    assert(carried_at(old_nodes, key, path, los, his, t, nodes, p as int));
    let other = away(was, key);
    let olo = if lt(key, was.key) { Some(was.key) } else { los[t - 1] };
    let ohi = if lt(key, was.key) { his[t - 1] } else { Some(was.key) };
    assert(avl(old_nodes, other, olo, ohi, child_height(old_nodes, other)));
    if let Some(o) = other {
        assert(carried_at(old_nodes, key, path, los, his, t, nodes, o as int));
    }
}

/// While the climb is at step `t`, the two subtrees of the node one step
/// up are balanced search trees, each on its side of the node's key, and
/// they stay so when the node's height is stored anew.
pub(crate) proof fn lemma_climb_children<K: Ord, V>(
    old_nodes: Seq<Node<K, V>>,
    old_root: usize,
    key: K,
    value: V,
    path: Seq<usize>,
    los: Seq<Option<K>>,
    his: Seq<Option<K>>,
    t: int,
    nodes: Seq<Node<K, V>>,
    root: usize,
)
    requires
        total_order::<K>(),
        links_ok(old_nodes, old_root),
        forall|i: int| 0 <= i < old_nodes.len() ==> balanced_at(old_nodes, i),
        heights_fit(old_nodes),
        descent(old_nodes, old_root, key, path, los, his),
        t > 0,
        climbing(old_nodes, old_root, key, value, path, los, his, t, nodes, root),
    ensures
        ({
            let p = path[t - 1];
            let n = nodes[p as int];
            let after = with_height(nodes, p);
            let lh = child_height(nodes, n.left);
            let rh = child_height(nodes, n.right);
            &&& climb_local(old_nodes, key, path, t, nodes)
            &&& in_range(los[t - 1], n.key, his[t - 1])
            &&& avl(after, n.left, los[t - 1], Some(n.key), lh)
            &&& avl(after, n.right, Some(n.key), his[t - 1], rh)
            &&& child_height(after, n.left) == lh
            &&& child_height(after, n.right) == rh
            &&& lh <= rh + 2
            &&& rh <= lh + 2
            &&& taller(lh, rh) <= old_nodes[p as int].height
            &&& layout(after, toward(n, key)) == layout(nodes, toward(n, key))
            &&& layout(after, away(n, key)) == layout(old_nodes, away(old_nodes[p as int], key))
        }),
{
    lemma_climb_local(old_nodes, old_root, key, value, path, los, his, t, nodes, root);
    let p = path[t - 1];
    let after = with_height(nodes, p);
    let was = old_nodes[p as int];
    let now = nodes[p as int];
    assert(descent_at(old_nodes, key, path, los, his, t - 1));
    let place = toward(now, key);
    let other = away(now, key);
    let h = child_height(nodes, place);
    let oh = child_height(old_nodes, other);
    let olo = if lt(key, was.key) {
        Some(was.key)
    } else {
        los[t - 1]
    };
    let ohi = if lt(key, was.key) {
        his[t - 1]
    } else {
        Some(was.key)
    };
    assert forall|j: int| 0 <= j < after.len() && in_range(olo, (#[trigger] after[j]).key, ohi) implies j
        < old_nodes.len() && same_shape(old_nodes[j], after[j]) by {
        lemma_narrow(los[t - 1], was.key, his[t - 1], nodes[j].key);
        if j < old_nodes.len() {
            assert(carried_at(old_nodes, key, path, los, his, t, nodes, j));
        } else {
            lemma_narrow(los[t - 1], was.key, his[t - 1], key);
        }
    }
    assert forall|j: int|
        0 <= j < old_nodes.len() && in_range(olo, (#[trigger] old_nodes[j]).key, ohi) implies j
        < after.len() && same_shape(old_nodes[j], after[j]) by {
        lemma_narrow(los[t - 1], was.key, his[t - 1], old_nodes[j].key);
        assert(carried_at(old_nodes, key, path, los, his, t, nodes, j));
    }
    lemma_frame(old_nodes, after, other, olo, ohi, oh);
    lemma_frame(nodes, after, place, los[t], his[t], h);
}

/// While the climb is at step `t`, the parent of the node one step up, if
/// it has one, is the node two steps up; its key lies outside the range
/// of step `t - 1`, and its two children differ.
pub(crate) proof fn lemma_climb_parent<K: Ord, V>(
    old_nodes: Seq<Node<K, V>>,
    old_root: usize,
    key: K,
    value: V,
    path: Seq<usize>,
    los: Seq<Option<K>>,
    his: Seq<Option<K>>,
    t: int,
    nodes: Seq<Node<K, V>>,
    root: usize,
)
    requires
        total_order::<K>(),
        links_ok(old_nodes, old_root),
        forall|i: int| 0 <= i < old_nodes.len() ==> balanced_at(old_nodes, i),
        descent(old_nodes, old_root, key, path, los, his),
        t > 0,
        climbing(old_nodes, old_root, key, value, path, los, his, t, nodes, root),
    ensures
        nodes[path[t - 1] as int].parent == old_nodes[path[t - 1] as int].parent,
        t == 1 ==> nodes[path[t - 1] as int].parent is None,
        t > 1 ==> {
            let up = path[t - 2];
            &&& nodes[path[t - 1] as int].parent == Some(up)
            &&& up < old_nodes.len()
            &&& up != path[t - 1]
            &&& nodes[up as int] == old_nodes[up as int]
            &&& !in_range(los[t - 1], nodes[up as int].key, his[t - 1])
            &&& nodes[up as int].left != nodes[up as int].right
            &&& toward(nodes[up as int], key) == Some(path[t - 1])
            &&& points_to(nodes[up as int].left, path[t - 1] as int) == lt(key, nodes[up as int].key)
        },
{
    let p = path[t - 1];
    let was = old_nodes[p as int];
    assert(descent_at(old_nodes, key, path, los, his, t - 1));
    assert(carried_at(old_nodes, key, path, los, his, t, nodes, p as int));
    assert(link_ok_at(old_nodes, old_root, p as int));
    if t > 1 {
        assert(descent_at(old_nodes, key, path, los, his, t - 2));
        let up = path[t - 2];
        let above = old_nodes[up as int];
        assert(link_ok_at(old_nodes, old_root, up as int));
        lemma_two_children(old_nodes, up, los[t - 2], his[t - 2]);
        assert(!in_range(los[t - 1], above.key, his[t - 1]) && up != p) by {
            lemma_order::<K>();
        }
        lemma_narrow_out(los[t - 1], was.key, his[t - 1], above.key);
        assert(carried_at(old_nodes, key, path, los, his, t, nodes, up as int));
    }
}

/// Before the height of the node one step up is stored anew: the stored
/// height will fit, and with it stored the node heads a search tree that
/// lacks balance at most at the node itself.
pub(crate) proof fn lemma_climb_update<K: Ord, V>(
    old_nodes: Seq<Node<K, V>>,
    old_root: usize,
    key: K,
    value: V,
    path: Seq<usize>,
    los: Seq<Option<K>>,
    his: Seq<Option<K>>,
    t: int,
    nodes: Seq<Node<K, V>>,
    root: usize,
)
    requires
        total_order::<K>(),
        old_nodes.len() < usize::MAX,
        links_ok(old_nodes, old_root),
        forall|i: int| 0 <= i < old_nodes.len() ==> balanced_at(old_nodes, i),
        heights_fit(old_nodes),
        descent(old_nodes, old_root, key, path, los, his),
        t > 0,
        climbing(old_nodes, old_root, key, value, path, los, his, t, nodes, root),
    ensures
        path[t - 1] < nodes.len(),
        children_valid(nodes),
        taller(
            child_height(nodes, nodes[path[t - 1] as int].left),
            child_height(nodes, nodes[path[t - 1] as int].right),
        ) < usize::MAX,
        links_ok(with_height(nodes, path[t - 1]), root),
        nearly_avl(with_height(nodes, path[t - 1]), path[t - 1], los[t - 1], his[t - 1]),
{
    lemma_links_valid(nodes, root);
    lemma_climb_children(old_nodes, old_root, key, value, path, los, his, t, nodes, root);
    lemma_climb_parent(old_nodes, old_root, key, value, path, los, his, t, nodes, root);
    let p = path[t - 1];
    let after = with_height(nodes, p);
    assert forall|i: int| 0 <= i < after.len() implies #[trigger] link_ok_at(after, root, i) by {
        assert(link_ok_at(nodes, root, i));
    }
}

/// The two child references of a node that heads a search tree differ,
/// unless both are absent.
pub(crate) proof fn lemma_two_children<K: Ord, V>(
    nodes: Seq<Node<K, V>>,
    i: usize,
    lo: Option<K>,
    hi: Option<K>,
)
    requires
        total_order::<K>(),
        avl(nodes, Some(i), lo, hi, nodes[i as int].height as nat),
    ensures
        nodes[i as int].left is Some ==> nodes[i as int].left != nodes[i as int].right,
{
    lemma_order::<K>();
    let n = nodes[i as int];
    assert(avl(nodes, n.left, lo, Some(n.key), child_height(nodes, n.left)));
    assert(avl(nodes, n.right, Some(n.key), hi, child_height(nodes, n.right)));
}

/// One step of the climb: with the height of the node one step up stored
/// anew and the tree rebalanced there, the climb has reached that step.
pub(crate) proof fn lemma_climb_step<K: Ord, V>(
    old_nodes: Seq<Node<K, V>>,
    old_root: usize,
    key: K,
    value: V,
    path: Seq<usize>,
    los: Seq<Option<K>>,
    his: Seq<Option<K>>,
    t: int,
    nodes: Seq<Node<K, V>>,
    root: usize,
    updated: Seq<Node<K, V>>,
    after: Seq<Node<K, V>>,
    after_root: usize,
)
    requires
        total_order::<K>(),
        old_nodes.len() < usize::MAX,
        links_ok(old_nodes, old_root),
        forall|i: int| 0 <= i < old_nodes.len() ==> balanced_at(old_nodes, i),
        heights_fit(old_nodes),
        descent(old_nodes, old_root, key, path, los, his),
        t > 0,
        climbing(old_nodes, old_root, key, value, path, los, his, t, nodes, root),
        updated == with_height(nodes, path[t - 1]),
        nearly_avl(updated, path[t - 1], los[t - 1], his[t - 1]),
        rebalanced(updated, root, path[t - 1], los[t - 1], his[t - 1], after, after_root),
    ensures
        climbing(old_nodes, old_root, key, value, path, los, his, t - 1, after, after_root),
{
    lemma_order::<K>();
    let p = path[t - 1];
    let was = old_nodes[p as int];
    let len = old_nodes.len();
    assert(descent_at(old_nodes, key, path, los, his, t - 1));
    lemma_climb_children(old_nodes, old_root, key, value, path, los, his, t, nodes, root);
    assert(balanced_at(old_nodes, p as int));
    assert(layout(old_nodes, Some(p)) == Layout::Fork(
        Box::new(layout(old_nodes, was.left)),
        p,
        Box::new(layout(old_nodes, was.right)),
    ));
    assert(layout(updated, Some(p)) == Layout::Fork(
        Box::new(layout(updated, updated[p as int].left)),
        p,
        Box::new(layout(updated, updated[p as int].right)),
    ));
    if t - 1 > 0 {
        assert(descent_at(old_nodes, key, path, los, his, t - 2));
        let up = path[t - 2];
        assert(link_ok_at(old_nodes, old_root, up as int));
        assert(carried_at(old_nodes, key, path, los, his, t, nodes, up as int));
    }
    assert forall|j: int| 0 <= j < len implies #[trigger] carried_at(
        old_nodes,
        key,
        path,
        los,
        his,
        t - 1,
        after,
        j,
    ) by {
        assert(carried_at(old_nodes, key, path, los, his, t, nodes, j));
        assert(after[j].key == old_nodes[j].key);
        if !in_range(los[t - 1], old_nodes[j].key, his[t - 1]) {
            lemma_narrow_out(los[t - 1], was.key, his[t - 1], old_nodes[j].key);
        }
    }
    let fresh = after[len as int];
    assert(fresh.key == key && fresh.value == value && fresh.height <= len + 1);
}

/// A key outside a range is outside the part of the range on either side
/// of a key inside it.
pub(crate) proof fn lemma_narrow_out<K: Ord>(lo: Option<K>, mid: K, hi: Option<K>, k: K)
    requires
        total_order::<K>(),
        in_range(lo, mid, hi),
        !in_range(lo, k, hi),
    ensures
        !in_range(lo, k, Some(mid)),
        !in_range(Some(mid), k, hi),
{
    lemma_order::<K>();
}

/// A climb that has reached the root leaves a well-formed tree.
pub(crate) proof fn lemma_climb_done<K: Ord, V>(
    old_nodes: Seq<Node<K, V>>,
    old_root: usize,
    key: K,
    value: V,
    path: Seq<usize>,
    los: Seq<Option<K>>,
    his: Seq<Option<K>>,
    nodes: Seq<Node<K, V>>,
    root: usize,
)
    requires
        total_order::<K>(),
        distinct_keys(old_nodes),
        forall|j: int| 0 <= j < old_nodes.len() ==> !same((#[trigger] old_nodes[j]).key, key),
        descent(old_nodes, old_root, key, path, los, his),
        climbing(old_nodes, old_root, key, value, path, los, his, 0, nodes, root),
    ensures
        links_ok(nodes, root),
        distinct_keys(nodes),
        avl(nodes, Some(root), None, None, nodes[root as int].height as nat),
        forall|i: int| 0 <= i < nodes.len() ==> balanced_at(nodes, i),
        heights_fit(nodes),
        forall|j: int|
            0 <= j < old_nodes.len() ==> (#[trigger] nodes[j]).key == old_nodes[j].key && nodes[j].value
                == old_nodes[j].value,
        layout(nodes, Some(root)) == grown(
            old_nodes,
            layout(old_nodes, Some(old_root)),
            key,
            old_nodes.len() as usize,
        ),
{
    let len = old_nodes.len();
    assert forall|j: int| 0 <= j < len implies (#[trigger] nodes[j]).key == old_nodes[j].key
        && nodes[j].value == old_nodes[j].value && nodes[j].height <= nodes.len() by {
        assert(carried_at(old_nodes, key, path, los, his, 0, nodes, j));
    }
    assert(distinct_keys(nodes)) by {
        lemma_order::<K>();
        assert forall|i: int, j: int|
            0 <= i < nodes.len() && 0 <= j < nodes.len() && same(
                (#[trigger] nodes[i]).key,
                (#[trigger] nodes[j]).key,
            ) implies i == j by {
        }
    }
    lemma_all_balanced(nodes, Some(root), None, None, nodes[root as int].height as nat);
}

/// In a balanced search tree that holds no key twice, every node of the
/// arena whose key lies in the tree's range stores the height of its
/// subtree, and its two subtrees differ in height by at most one.
pub(crate) proof fn lemma_all_balanced<K: Ord, V>(
    nodes: Seq<Node<K, V>>,
    child: Option<usize>,
    lo: Option<K>,
    hi: Option<K>,
    h: nat,
)
    requires
        total_order::<K>(),
        distinct_keys(nodes),
        avl(nodes, child, lo, hi, h),
    ensures
        forall|j: int|
            0 <= j < nodes.len() && in_range(lo, nodes[j].key, hi) ==> #[trigger] balanced_at(nodes, j),
    decreases h,
{
    lemma_order::<K>();
    if let Some(i) = child {
        let n = nodes[i as int];
        lemma_all_balanced(nodes, n.left, lo, Some(n.key), child_height(nodes, n.left));
        lemma_all_balanced(nodes, n.right, Some(n.key), hi, child_height(nodes, n.right));
    }
}

impl<K: Ord, V> Tree<K, V> {
    /// Some node of the tree holds `key`.
    pub open spec fn contains_key(&self, key: K) -> bool {
        exists|j: int| 0 <= j < self.nodes@.len() && same((#[trigger] self.nodes@[j]).key, key)
    }

    /// Adds `key` with `value` to the tree, unless the tree holds the key
    /// already; says whether it was added.
    ///
    /// The new node is appended to the arena; no other node moves or
    /// changes its key or value.
    pub fn insert(&mut self, key: K, value: V) -> (inserted: bool)
        requires
            total_order::<K>(),
            old(self).wf(),
        ensures
            inserted == !old(self).contains_key(key),
            !inserted ==> *final(self) == *old(self),
            inserted ==> {
                &&& final(self).wf()
                &&& final(self).nodes@.len() == old(self).nodes@.len() + 1
                &&& final(self).nodes@[old(self).nodes@.len() as int].key == key
                &&& final(self).nodes@[old(self).nodes@.len() as int].value == value
                &&& forall|j: int|
                    0 <= j < old(self).nodes@.len() ==> (#[trigger] final(self).nodes@[j]).key == old(
                        self,
                    ).nodes@[j].key && final(self).nodes@[j].value == old(self).nodes@[j].value
                &&& final(self)@ == old(self)@.insert(rank(old(self)@, key), (key, value))
                &&& final(self).layout() == grown(
                    old(self).nodes@,
                    old(self).layout(),
                    key,
                    old(self).nodes@.len() as usize,
                )
            },
    {
        let ghost old_nodes = self.nodes@;
        let ghost old_root = self.root;
        if self.nodes.len() == 0 {
            self.nodes.push(Node { key, value, left: None, right: None, height: 1, parent: None });
            self.root = 0;
            proof {
                lemma_order::<K>();
                assert(avl(self.nodes@, None, None, Some(key), 0));
                assert(avl(self.nodes@, None, Some(key), None, 0));
                assert(layout_with(self.nodes@, None, 0) == Layout::Empty);
                assert(layout(self.nodes@, Some(0)) == Layout::Fork(
                    Box::new(Layout::Empty),
                    0,
                    Box::new(Layout::Empty),
                ));
                lemma_entries_grow(*old(self), *self, key, value);
            }
            return true;
        }
        let mut cur_node = self.root;
        let mut insert_left = false;
        let mut insert_on = cur_node;
        let mut prev_nodes: Vec<usize> = Vec::new();
        let ghost mut los: Seq<Option<K>> = seq![None];
        let ghost mut his: Seq<Option<K>> = seq![None];
        proof {
            lemma_links_valid(self.nodes@, self.root);
        }
        loop
            invariant_except_break
                cur_node < self.nodes@.len(),
                place_at(self.nodes@, self.root, key, prev_nodes@, prev_nodes@.len() as int) == Some(
                    cur_node,
                ),
                avl(
                    self.nodes@,
                    Some(cur_node),
                    los[prev_nodes@.len() as int],
                    his[prev_nodes@.len() as int],
                    self.nodes@[cur_node as int].height as nat,
                ),
                in_range(los[prev_nodes@.len() as int], key, his[prev_nodes@.len() as int]),
            invariant
                total_order::<K>(),
                *self == *old(self),
                self.wf(),
                self.nodes@.len() > 0,
                children_valid(self.nodes@),
                descent(self.nodes@, self.root, key, prev_nodes@, los, his),
            ensures
                prev_nodes@.len() > 0,
                insert_on < self.nodes@.len(),
                insert_on == prev_nodes@[prev_nodes@.len() - 1],
                toward(self.nodes@[insert_on as int], key) is None,
                insert_left == lt(key, self.nodes@[insert_on as int].key),
                !self.contains_key(key),
            decreases self.nodes@[cur_node as int].height,
        {
            let ghost path = prev_nodes@;
            let ghost k = path.len() as int;
            let ghost los0 = los;
            let ghost his0 = his;
            let ghost n = self.nodes@[cur_node as int];
            proof {
                lemma_order::<K>();
            }
            let node = &self.nodes[cur_node];
            prev_nodes.push(cur_node);
            let side = locate(&key, &node.key);
            if let Side::Here = side {
                return false;
            }
            let next = if let Side::Before = side {
                node.left
            } else {
                node.right
            };
            proof {
                los = los0.push(if lt(key, n.key) { los0[k] } else { Some(n.key) });
                his = his0.push(if lt(key, n.key) { Some(n.key) } else { his0[k] });
                assert forall|t: int| 0 <= t < prev_nodes@.len() implies #[trigger] descent_at(
                    self.nodes@,
                    key,
                    prev_nodes@,
                    los,
                    his,
                    t,
                ) by {
                    if t < k {
                        assert(descent_at(self.nodes@, key, path, los0, his0, t));
                    }
                }
            }
            if let Some(child) = next {
                cur_node = child;
            } else {
                insert_left = matches!(side, Side::Before);
                insert_on = cur_node;
                proof {
                    assert(avl(self.nodes@, None, los[k + 1], his[k + 1], 0));
                }
                break ;
            }
        }
        let len = self.nodes.len();
        if insert_left {
            self.nodes[insert_on].left = Some(len);
        } else {
            self.nodes[insert_on].right = Some(len);
        }
        self.nodes.push(
            Node { key, value, left: None, right: None, height: 1, parent: Some(insert_on) },
        );
        proof {
            assert(self.nodes.len() == old_nodes.len() + 1);
            lemma_climb_start(old_nodes, old_root, key, value, prev_nodes@, los, his, self.nodes@);
        }
        let mut i = prev_nodes.len();
        while i > 0
            invariant
                total_order::<K>(),
                old(self).wf(),
                old_nodes == old(self).nodes@,
                old_root == old(self).root,
                old_nodes.len() > 0,
                old_nodes.len() < usize::MAX,
                !old(self).contains_key(key),
                descent(old_nodes, old_root, key, prev_nodes@, los, his),
                toward(old_nodes[prev_nodes@[prev_nodes@.len() - 1] as int], key) is None,
                prev_nodes@.len() > 0,
                0 <= i <= prev_nodes@.len(),
                climbing(
                    old_nodes,
                    old_root,
                    key,
                    value,
                    prev_nodes@,
                    los,
                    his,
                    i as int,
                    self.nodes@,
                    self.root,
                ),
            decreases i,
        {
            let node = prev_nodes[i - 1];
            let ghost before = self.nodes@;
            let ghost before_root = self.root;
            proof {
                lemma_climb_update(
                    old_nodes,
                    old_root,
                    key,
                    value,
                    prev_nodes@,
                    los,
                    his,
                    i as int,
                    before,
                    before_root,
                );
            }
            self.update_height(node);
            let ghost updated = self.nodes@;
            self.rebalance(node, Ghost(los[i - 1]), Ghost(his[i - 1]));
            proof {
                lemma_climb_step(
                    old_nodes,
                    old_root,
                    key,
                    value,
                    prev_nodes@,
                    los,
                    his,
                    i as int,
                    before,
                    before_root,
                    updated,
                    self.nodes@,
                    self.root,
                );
            }
            i -= 1;
        }
        proof {
            lemma_climb_done(
                old_nodes,
                old_root,
                key,
                value,
                prev_nodes@,
                los,
                his,
                self.nodes@,
                self.root,
            );
            lemma_entries_grow(*old(self), *self, key, value);
        }
        true
    }
}

} // verus!
