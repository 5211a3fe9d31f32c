//! A copy of the tree in the form in which it is drawn: each node with a
//! label and its children in a list. The copy is made without recursion,
//! from a stack of the nodes that still lack their children.

use core::fmt::Debug;
use crate::shape::balanced_at;
use crate::shape::children_valid;
use crate::shape::lemma_links_valid;
use crate::shape::Node;
use crate::tree::Tree;
use vstd::pervasive::cloned;
use vstd::prelude::*;

verus! {

/// A node as it is drawn: its entry, the label shown for it, and its
/// children from left to right.
#[derive(Debug)]
pub struct NodeForRendering<K: Debug, V: Debug> {
    pub key: K,
    pub value: V,
    pub name: String,
    pub children: Vec<NodeForRendering<K, V>>,
}

/// A node of the tree whose copy still lacks its children, with the way
/// from the root of the copy down to that copy: at each step, which child
/// to take.
pub struct Marker {
    directions: Vec<usize>,
    node_corresponding: usize,
}

/// The label of an entry: the key and the value as `Debug` prints them,
/// with a colon and a space between. Calls `format!` of the standard
/// library; what the two `Debug` impls print is theirs to decide, so
/// nothing is claimed of the text.
#[verifier::external_body]
fn label<K: Debug, V: Debug>(key: &K, value: &V) -> (name: String) {
    format!("{:?}: {:?}", key, value)
}

impl<K: Debug, V: Debug> NodeForRendering<K, V> {
    /// A node for `key` and `value` with the given children, labelled
    /// with the two as `Debug` prints them.
    pub fn new(key: K, value: V, children: Vec<NodeForRendering<K, V>>) -> (node: NodeForRendering<
        K,
        V,
    >)
        ensures
            node.key == key,
            node.value == value,
            node.children == children,
    {
        NodeForRendering { name: label(&key, &value), key, value, children }
    }
}

/// The children of a node, the left one first.
pub open spec fn kids<K: Ord, V>(n: Node<K, V>) -> Seq<usize> {
    (match n.left {
        Some(l) => seq![l],
        None => Seq::empty(),
    }) + (match n.right {
        Some(r) => seq![r],
        None => Seq::empty(),
    })
}

/// `drawn` is a copy of the subtree at `i`: it holds a clone of the
/// node's key and of its value, and its children are copies of the node's
/// children, the left one first.
pub open spec fn copies<K: Ord + Debug + Clone, V: Debug + Clone>(
    drawn: NodeForRendering<K, V>,
    nodes: Seq<Node<K, V>>,
    i: usize,
) -> bool
    decreases nodes[i as int].height,
{
    let n = nodes[i as int];
    &&& i < nodes.len()
    &&& cloned(n.key, drawn.key)
    &&& cloned(n.value, drawn.value)
    &&& drawn.children@.len() == kids(n).len()
    &&& forall|d: int|
        #![trigger drawn.children@[d]]
        #![trigger kids(n)[d]]
        0 <= d < kids(n).len() ==> nodes[kids(n)[d] as int].height < n.height && copies(
            drawn.children@[d],
            nodes,
            kids(n)[d],
        )
}

/// `drawn` is a copy of the subtree at `i` as far as it has been made: a
/// node whose way from the root of the copy is among the ways in `open`
/// has no children yet, every other node has copies of all its children.
/// `at` is the way to `drawn`.
spec fn partly<K: Ord + Debug + Clone, V: Debug + Clone>(
    drawn: NodeForRendering<K, V>,
    nodes: Seq<Node<K, V>>,
    i: usize,
    at: Seq<usize>,
    open: Set<Seq<usize>>,
) -> bool
    decreases nodes[i as int].height,
{
    let n = nodes[i as int];
    &&& i < nodes.len()
    &&& cloned(n.key, drawn.key)
    &&& cloned(n.value, drawn.value)
    &&& if open.contains(at) {
        drawn.children@.len() == 0
    } else {
        &&& drawn.children@.len() == kids(n).len()
        &&& forall|d: int|
            #![trigger drawn.children@[d]]
            #![trigger kids(n)[d]]
            0 <= d < kids(n).len() ==> nodes[kids(n)[d] as int].height < n.height && partly(
                drawn.children@[d],
                nodes,
                kids(n)[d],
                at.push(d as usize),
                open,
            )
    }
}

/// `drawn` holds a clone of the entry of the node at `i` and has no
/// children.
spec fn bare_copy<K: Ord + Debug + Clone, V: Debug + Clone>(
    drawn: NodeForRendering<K, V>,
    nodes: Seq<Node<K, V>>,
    i: usize,
) -> bool {
    &&& i < nodes.len()
    &&& cloned(nodes[i as int].key, drawn.key)
    &&& cloned(nodes[i as int].value, drawn.value)
    &&& drawn.children@.len() == 0
}

/// The way `path`, from its step `from` on, can be gone from `drawn`
/// down: each step names a child that is there.
spec fn navigable<K: Debug, V: Debug>(
    drawn: NodeForRendering<K, V>,
    path: Seq<usize>,
    from: int,
) -> bool
    decreases path.len() - from,
{
    from >= path.len() || (path[from] < drawn.children@.len() && navigable(
        drawn.children@[path[from] as int],
        path,
        from + 1,
    ))
}

/// The children of the node that the way `path`, from its step `from` on,
/// leads to from `drawn`.
spec fn kids_at<K: Debug, V: Debug>(
    drawn: NodeForRendering<K, V>,
    path: Seq<usize>,
    from: int,
) -> Seq<NodeForRendering<K, V>>
    decreases path.len() - from,
{
    if from >= path.len() {
        drawn.children@
    } else if path[from] < drawn.children@.len() {
        kids_at(drawn.children@[path[from] as int], path, from + 1)
    } else {
        Seq::empty()
    }
}

/// `after` is `before` with `cs` for the children of the node that the
/// way `path`, from its step `from` on, leads to, and nothing else
/// changed.
spec fn refilled<K: Debug, V: Debug>(
    before: NodeForRendering<K, V>,
    path: Seq<usize>,
    from: int,
    cs: Seq<NodeForRendering<K, V>>,
    after: NodeForRendering<K, V>,
) -> bool
    decreases path.len() - from,
{
    &&& after.key == before.key
    &&& after.value == before.value
    &&& after.name == before.name
    &&& if from >= path.len() {
        after.children@ == cs
    } else {
        let d = path[from] as int;
        &&& d < before.children@.len()
        &&& after.children@.len() == before.children@.len()
        &&& refilled(before.children@[d], path, from + 1, cs, after.children@[d])
        &&& forall|c: int|
            0 <= c < before.children@.len() && c != d ==> #[trigger] after.children@[c]
                == before.children@[c]
    }
}

/// In the tree, the way `path`, from its step `from` on, leads from the
/// node at `i` to the node at `target`.
spec fn leads<K: Ord, V>(
    nodes: Seq<Node<K, V>>,
    i: usize,
    path: Seq<usize>,
    from: int,
    target: usize,
) -> bool
    decreases path.len() - from,
{
    if from >= path.len() {
        i == target
    } else {
        &&& i < nodes.len()
        &&& path[from] < kids(nodes[i as int]).len()
        &&& leads(nodes, kids(nodes[i as int])[path[from] as int], path, from + 1, target)
    }
}

/// The number of nodes of the subtree at `i`.
spec fn size<K: Ord, V>(nodes: Seq<Node<K, V>>, i: usize) -> nat
    decreases nodes[i as int].height,
{
    let n = nodes[i as int];
    1 + (match n.left {
        Some(l) if nodes[l as int].height < n.height => size(nodes, l),
        _ => 0,
    }) + (match n.right {
        Some(r) if nodes[r as int].height < n.height => size(nodes, r),
        _ => 0,
    })
}

/// The number of nodes in the subtrees at the nodes on the stack: how much
/// of the tree is still to be worked through.
spec fn weight<K: Ord, V>(nodes: Seq<Node<K, V>>, stack: Seq<Marker>) -> nat
    decreases stack.len(),
{
    if stack.len() == 0 {
        0
    } else {
        weight(nodes, stack.drop_last()) + size(nodes, stack.last().node_corresponding)
    }
}

/// The ways of the markers on the stack.
spec fn open_ways(stack: Seq<Marker>) -> Set<Seq<usize>> {
    Set::new(|p: Seq<usize>| exists|k: int| 0 <= k < stack.len() && (#[trigger] stack[k]).directions@ == p)
}

/// The state of the copying: `drawn` is the copy as far as it has been
/// made, each marker on the stack names a node whose copy has no children
/// yet and the way to that copy, and no two markers name the same way.
spec fn copying<K: Ord + Debug + Clone, V: Debug + Clone>(
    nodes: Seq<Node<K, V>>,
    root: usize,
    drawn: NodeForRendering<K, V>,
    stack: Seq<Marker>,
) -> bool {
    &&& partly(drawn, nodes, root, Seq::empty(), open_ways(stack))
    &&& forall|k: int|
        0 <= k < stack.len() ==> {
            let m = #[trigger] stack[k];
            &&& m.node_corresponding < nodes.len()
            &&& navigable(drawn, m.directions@, 0)
            &&& leads(nodes, root, m.directions@, 0, m.node_corresponding)
        }
    &&& forall|j: int, k: int|
        0 <= j < k < stack.len() ==> (#[trigger] stack[j]).directions@ != (#[trigger] stack[k]).directions@
}

/// A node whose way is open has no children yet.
proof fn lemma_open_is_bare<K: Ord + Debug + Clone, V: Debug + Clone>(
    drawn: NodeForRendering<K, V>,
    nodes: Seq<Node<K, V>>,
    i: usize,
    path: Seq<usize>,
    from: int,
    open: Set<Seq<usize>>,
)
    requires
        0 <= from <= path.len(),
        partly(drawn, nodes, i, path.take(from), open),
        navigable(drawn, path, from),
        open.contains(path),
    ensures
        kids_at(drawn, path, from).len() == 0,
    decreases path.len() - from,
{
    if from >= path.len() {
        assert(path.take(from) =~= path);
    } else {
        let d = path[from] as int;
        let n = nodes[i as int];
        assert(path.take(from).push(d as usize) =~= path.take(from + 1));
        lemma_open_is_bare(drawn.children@[d], nodes, kids(n)[d], path, from + 1, open);
    }
}

/// A copy in the making is the same copy in the making under any set of
/// open ways that agrees with the first on the ways through `at`.
proof fn lemma_same_open<K: Ord + Debug + Clone, V: Debug + Clone>(
    drawn: NodeForRendering<K, V>,
    nodes: Seq<Node<K, V>>,
    i: usize,
    at: Seq<usize>,
    open: Set<Seq<usize>>,
    other: Set<Seq<usize>>,
)
    requires
        partly(drawn, nodes, i, at, open),
        forall|q: Seq<usize>| at.is_prefix_of(q) ==> (open.contains(q) <==> other.contains(q)),
    ensures
        partly(drawn, nodes, i, at, other),
    decreases nodes[i as int].height,
{
    let n = nodes[i as int];
    if !open.contains(at) {
        assert forall|d: int|
            #![trigger drawn.children@[d]]
            #![trigger kids(n)[d]]
            0 <= d < kids(n).len() implies nodes[kids(n)[d] as int].height < n.height && partly(
            drawn.children@[d],
            nodes,
            kids(n)[d],
            at.push(d as usize),
            other,
        ) by {
            let below = at.push(d as usize);
            assert(partly(drawn.children@[d], nodes, kids(n)[d], below, open));
            assert forall|q: Seq<usize>| below.is_prefix_of(q) implies (open.contains(q)
                <==> other.contains(q)) by {
                assert(at.is_prefix_of(q)) by {
                    assert(at =~= below.take(at.len() as int));
                    assert(q.take(below.len() as int).take(at.len() as int) =~= q.take(at.len() as int));
                }
            }
            lemma_same_open(drawn.children@[d], nodes, kids(n)[d], below, open, other);
        }
    }
}

/// The ways that are open once the node at the end of `path` has been
/// given its `n` children: those that were open but `path`, and the ways
/// to the `n` children.
spec fn open_after(open: Set<Seq<usize>>, path: Seq<usize>, n: nat) -> Set<Seq<usize>> {
    Set::new(
        |q: Seq<usize>|
            (open.contains(q) && q != path) || (q.len() == path.len() + 1 && q.drop_last() == path
                && q.last() < n),
    )
}

/// Giving the node at the end of an open way bare copies of all its
/// children keeps the copy a copy in the making: the way is closed, and
/// the ways to the children are open.
proof fn lemma_fill<K: Ord + Debug + Clone, V: Debug + Clone>(
    drawn: NodeForRendering<K, V>,
    after: NodeForRendering<K, V>,
    nodes: Seq<Node<K, V>>,
    i: usize,
    path: Seq<usize>,
    from: int,
    target: usize,
    cs: Seq<NodeForRendering<K, V>>,
    open: Set<Seq<usize>>,
)
    requires
        forall|j: int| 0 <= j < nodes.len() ==> balanced_at(nodes, j),
        children_valid(nodes),
        0 <= from <= path.len(),
        partly(drawn, nodes, i, path.take(from), open),
        navigable(drawn, path, from),
        leads(nodes, i, path, from, target),
        open.contains(path),
        refilled(drawn, path, from, cs, after),
        target < nodes.len(),
        cs.len() == kids(nodes[target as int]).len(),
        forall|d: int|
            0 <= d < cs.len() ==> bare_copy(#[trigger] cs[d], nodes, kids(nodes[target as int])[d]),
    ensures
        partly(after, nodes, i, path.take(from), open_after(open, path, cs.len())),
    decreases path.len() - from,
{
    let here = path.take(from);
    let next = open_after(open, path, cs.len());
    let n = nodes[i as int];
    assert(balanced_at(nodes, i as int));
    if from >= path.len() {
        assert(here =~= path);
        assert forall|d: int|
            #![trigger after.children@[d]]
            #![trigger kids(n)[d]]
            0 <= d < kids(n).len() implies nodes[kids(n)[d] as int].height < n.height && partly(
            after.children@[d],
            nodes,
            kids(n)[d],
            here.push(d as usize),
            next,
        ) by {
            assert(bare_copy(cs[d], nodes, kids(n)[d]));
            assert(path.push(d as usize).drop_last() =~= path);
            assert(next.contains(path.push(d as usize)));
        }
    } else {
        let d = path[from] as int;
        assert forall|c: int|
            #![trigger after.children@[c]]
            #![trigger kids(n)[c]]
            0 <= c < kids(n).len() implies nodes[kids(n)[c] as int].height < n.height && partly(
            after.children@[c],
            nodes,
            kids(n)[c],
            here.push(c as usize),
            next,
        ) by {
            let below = here.push(c as usize);
            assert(partly(drawn.children@[c], nodes, kids(n)[c], below, open));
            if c == d {
                assert(below =~= path.take(from + 1));
                lemma_fill(drawn.children@[d], after.children@[d], nodes, kids(n)[d], path, from + 1, target, cs, open);
            } else {
                assert(after.children@[c] == drawn.children@[c]);
                assert forall|q: Seq<usize>| below.is_prefix_of(q) implies (open.contains(q)
                    <==> next.contains(q)) by {
                    assert(q[from] == below[from]);
                    assert(q != path);
                    if q.len() == path.len() + 1 {
                        assert(q.drop_last()[from] == q[from]);
                    }
                }
                lemma_same_open(drawn.children@[c], nodes, kids(n)[c], below, open, next);
            }
        }
    }
}

/// A copy in the making with no way open is a copy.
proof fn lemma_closed<K: Ord + Debug + Clone, V: Debug + Clone>(
    drawn: NodeForRendering<K, V>,
    nodes: Seq<Node<K, V>>,
    i: usize,
    at: Seq<usize>,
    open: Set<Seq<usize>>,
)
    requires
        partly(drawn, nodes, i, at, open),
        forall|q: Seq<usize>| !open.contains(q),
    ensures
        copies(drawn, nodes, i),
    decreases nodes[i as int].height,
{
    let n = nodes[i as int];
    assert forall|d: int|
        #![trigger drawn.children@[d]]
        #![trigger kids(n)[d]]
        0 <= d < kids(n).len() implies nodes[kids(n)[d] as int].height < n.height && copies(
        drawn.children@[d],
        nodes,
        kids(n)[d],
    ) by {
        assert(partly(drawn.children@[d], nodes, kids(n)[d], at.push(d as usize), open));
        lemma_closed(drawn.children@[d], nodes, kids(n)[d], at.push(d as usize), open);
    }
}

/// After a refill the node at the end of the way has the new children,
/// and the way can still be gone, and on to each of them.
proof fn lemma_refilled_kids<K: Debug, V: Debug>(
    before: NodeForRendering<K, V>,
    path: Seq<usize>,
    from: int,
    cs: Seq<NodeForRendering<K, V>>,
    after: NodeForRendering<K, V>,
)
    requires
        0 <= from <= path.len(),
        refilled(before, path, from, cs, after),
        navigable(before, path, from),
    ensures
        kids_at(after, path, from) == cs,
        navigable(after, path, from),
    decreases path.len() - from,
{
    if from < path.len() {
        let c = path[from] as int;
        lemma_refilled_kids(before.children@[c], path, from + 1, cs, after.children@[c]);
    }
}

/// Whether a way can be gone, and where it leads, depends on its steps
/// alone.
proof fn lemma_longer_way<K: Debug, V: Debug>(
    drawn: NodeForRendering<K, V>,
    path: Seq<usize>,
    longer: Seq<usize>,
    from: int,
)
    requires
        0 <= from <= path.len(),
        longer.len() == path.len() + 1,
        path.is_prefix_of(longer),
        navigable(drawn, path, from),
    ensures
        navigable(drawn, longer, from) <==> longer.last() < kids_at(drawn, path, from).len(),
    decreases path.len() - from,
{
    if from >= path.len() {
        assert(navigable(drawn.children@[longer[from] as int], longer, from + 1));
    } else {
        lemma_longer_way(drawn.children@[path[from] as int], path, longer, from + 1);
    }
}

/// Two refills of the same node, one after the other, are one refill
/// with the children of the second.
proof fn lemma_refilled_twice<K: Debug, V: Debug>(
    first: NodeForRendering<K, V>,
    path: Seq<usize>,
    from: int,
    cs: Seq<NodeForRendering<K, V>>,
    second: NodeForRendering<K, V>,
    ds: Seq<NodeForRendering<K, V>>,
    third: NodeForRendering<K, V>,
)
    requires
        0 <= from <= path.len(),
        refilled(first, path, from, cs, second),
        refilled(second, path, from, ds, third),
    ensures
        refilled(first, path, from, ds, third),
    decreases path.len() - from,
{
    if from < path.len() {
        let c = path[from] as int;
        lemma_refilled_twice(first.children@[c], path, from + 1, cs, second.children@[c], ds, third.children@[c]);
    }
}

/// A copy is its own refill with the children that the node at the end
/// of the way has.
proof fn lemma_refilled_same<K: Debug, V: Debug>(
    drawn: NodeForRendering<K, V>,
    path: Seq<usize>,
    from: int,
)
    requires
        0 <= from <= path.len(),
        navigable(drawn, path, from),
    ensures
        refilled(drawn, path, from, kids_at(drawn, path, from), drawn),
    decreases path.len() - from,
{
    if from < path.len() {
        lemma_refilled_same(drawn.children@[path[from] as int], path, from + 1);
    }
}

/// A way that could be gone before a refill of a node without children
/// can be gone after it.
proof fn lemma_way_kept<K: Debug, V: Debug>(
    before: NodeForRendering<K, V>,
    path: Seq<usize>,
    from: int,
    cs: Seq<NodeForRendering<K, V>>,
    after: NodeForRendering<K, V>,
    way: Seq<usize>,
)
    requires
        0 <= from <= path.len(),
        from <= way.len(),
        refilled(before, path, from, cs, after),
        navigable(before, path, from),
        kids_at(before, path, from).len() == 0,
        navigable(before, way, from),
        forall|x: int| 0 <= x < from ==> way[x] == path[x],
    ensures
        navigable(after, way, from),
        !(way.len() == path.len() + 1 && way.drop_last() == path),
    decreases path.len() - from,
{
    if from < way.len() {
        if from < path.len() {
            if way[from] == path[from] {
                lemma_way_kept(
                    before.children@[path[from] as int],
                    path,
                    from + 1,
                    cs,
                    after.children@[path[from] as int],
                    way,
                );
            }
        }
    }
}

/// A way that leads to a node leads on to each of its children.
proof fn lemma_leads_on<K: Ord, V>(
    nodes: Seq<Node<K, V>>,
    i: usize,
    path: Seq<usize>,
    from: int,
    target: usize,
    d: int,
)
    requires
        0 <= from <= path.len(),
        leads(nodes, i, path, from, target),
        target < nodes.len(),
        0 <= d < kids(nodes[target as int]).len(),
    ensures
        leads(nodes, i, path.push(d as usize), from, kids(nodes[target as int])[d]),
    decreases path.len() - from,
{
    let longer = path.push(d as usize);
    if from >= path.len() {
        assert(leads(nodes, kids(nodes[i as int])[d], longer, from + 1, kids(nodes[target as int])[d]));
    } else {
        lemma_leads_on(nodes, kids(nodes[i as int])[path[from] as int], path, from + 1, target, d);
    }
}

/// Appends `child` to the children of the node that the way `directions`,
/// from its step `from` on, leads to from `root`; says at which place
/// among them it now stands.
fn push_child<K: Debug, V: Debug>(
    root: &mut NodeForRendering<K, V>,
    directions: &Vec<usize>,
    from: usize,
    child: NodeForRendering<K, V>,
) -> (at: usize)
    requires
        from <= directions@.len(),
        navigable(*old(root), directions@, from as int),
    ensures
        refilled(
            *old(root),
            directions@,
            from as int,
            kids_at(*old(root), directions@, from as int).push(child),
            *final(root),
        ),
        at == kids_at(*old(root), directions@, from as int).len(),
    decreases directions@.len() - from,
{
    if from == directions.len() {
        root.children.push(child);
        root.children.len() - 1
    } else {
        let d = directions[from];
        push_child(&mut root.children[d], directions, from + 1, child)
    }
}

/// The weight of a stack with one marker more is that of the stack and
/// the size of the subtree at the marker's node.
proof fn lemma_weight_push<K: Ord, V>(nodes: Seq<Node<K, V>>, stack: Seq<Marker>, m: Marker)
    ensures
        weight(nodes, stack.push(m)) == weight(nodes, stack) + size(nodes, m.node_corresponding),
{
    assert(stack.push(m).drop_last() =~= stack);
}

/// One round of the copying: the marker `m` has been taken off the stack
/// `rest`, the copy of its node has been given bare copies of the node's
/// children, and `stack` is `rest` with a marker for each child. The
/// copying is then in order again, and less is left to do.
proof fn lemma_round<K: Ord + Debug + Clone, V: Debug + Clone>(
    nodes: Seq<Node<K, V>>,
    root: usize,
    before: NodeForRendering<K, V>,
    rest: Seq<Marker>,
    m: Marker,
    cs: Seq<NodeForRendering<K, V>>,
    after: NodeForRendering<K, V>,
    stack: Seq<Marker>,
)
    requires
        forall|j: int| 0 <= j < nodes.len() ==> balanced_at(nodes, j),
        children_valid(nodes),
        copying(nodes, root, before, rest.push(m)),
        refilled(before, m.directions@, 0, cs, after),
        cs.len() == kids(nodes[m.node_corresponding as int]).len(),
        forall|d: int|
            0 <= d < cs.len() ==> bare_copy(
                #[trigger] cs[d],
                nodes,
                kids(nodes[m.node_corresponding as int])[d],
            ),
        stack.len() == rest.len() + cs.len(),
        forall|k: int| 0 <= k < rest.len() ==> stack[k] == rest[k],
        forall|k: int|
            rest.len() <= k < stack.len() ==> (#[trigger] stack[k]).directions@ == m.directions@.push(
                (k - rest.len()) as usize,
            ) && stack[k].node_corresponding == kids(nodes[m.node_corresponding as int])[k - rest.len()],
    ensures
        copying(nodes, root, after, stack),
        weight(nodes, stack) < weight(nodes, rest.push(m)),
{
    let old_stack = rest.push(m);
    let path = m.directions@;
    let target = m.node_corresponding;
    let open = open_ways(old_stack);
    assert(old_stack[rest.len() as int] == m);
    assert(path.take(0) =~= Seq::<usize>::empty());
    lemma_open_is_bare(before, nodes, root, path, 0, open);
    lemma_fill(before, after, nodes, root, path, 0, target, cs, open);
    lemma_refilled_kids(before, path, 0, cs, after);
    assert(open_after(open, path, cs.len()) =~= open_ways(stack)) by {
        assert forall|q: Seq<usize>| open_after(open, path, cs.len()).contains(q) <==> open_ways(
            stack,
        ).contains(q) by {
            if open.contains(q) && q != path {
                let k = choose|k: int| 0 <= k < old_stack.len() && (#[trigger] old_stack[k]).directions@ == q;
                assert(stack[k].directions@ == q);
            }
            if q.len() == path.len() + 1 && q.drop_last() == path && q.last() < cs.len() {
                let d = q.last() as int;
                assert(path.push(d as usize) =~= q);
                assert(stack[rest.len() + d].directions@ == q);
            }
            if open_ways(stack).contains(q) {
                let k = choose|k: int| 0 <= k < stack.len() && (#[trigger] stack[k]).directions@ == q;
                if k < rest.len() {
                    assert(old_stack[k].directions@ == q);
                    assert(old_stack[k].directions@ != old_stack[rest.len() as int].directions@);
                } else {
                    let d = k - rest.len();
                    assert(path.push(d as usize).drop_last() =~= path);
                }
            }
        }
    }
    assert forall|k: int| 0 <= k < stack.len() implies {
        let x = #[trigger] stack[k];
        &&& x.node_corresponding < nodes.len()
        &&& navigable(after, x.directions@, 0)
        &&& leads(nodes, root, x.directions@, 0, x.node_corresponding)
    } by {
        if k < rest.len() {
            assert(stack[k] == old_stack[k]);
            lemma_way_kept(before, path, 0, cs, after, stack[k].directions@);
        } else {
            let d = k - rest.len();
            let way = path.push(d as usize);
            lemma_leads_on(nodes, root, path, 0, target, d);
            lemma_longer_way(after, path, way, 0);
        }
    }
    assert forall|j: int, k: int| 0 <= j < k < stack.len() implies (#[trigger] stack[j]).directions@ != (
    #[trigger] stack[k]).directions@ by {
        if k < rest.len() {
            assert(stack[j] == old_stack[j] && stack[k] == old_stack[k]);
        } else {
            let d = k - rest.len();
            assert(path.push(d as usize).drop_last() =~= path);
            if j < rest.len() {
                assert(stack[j] == old_stack[j]);
                lemma_way_kept(before, path, 0, cs, after, stack[j].directions@);
            } else {
                let c = j - rest.len();
                assert(path.push(c as usize)[path.len() as int] != path.push(d as usize)[path.len() as int]);
            }
        }
    }
    lemma_weight_push(nodes, rest, m);
    assert(balanced_at(nodes, target as int));
    let base = rest.len() as int;
    if cs.len() == 0 {
        assert(stack =~= rest);
    } else if cs.len() == 1 {
        assert(stack =~= rest.push(stack[base]));
        lemma_weight_push(nodes, rest, stack[base]);
    } else {
        let one = rest.push(stack[base]);
        assert(stack =~= one.push(stack[base + 1]));
        lemma_weight_push(nodes, rest, stack[base]);
        lemma_weight_push(nodes, one, stack[base + 1]);
    }
}

/// A copy of the whole tree for drawing.
pub fn tree_for_rendering<K: Ord + Debug + Clone, V: Debug + Clone>(tree: &Tree<K, V>) -> (drawn:
    NodeForRendering<K, V>)
    requires
        tree.wf(),
        tree.nodes@.len() > 0,
    ensures
        copies(drawn, tree.nodes@, tree.root),
{
    let ghost nodes = tree.nodes@;
    proof {
        lemma_links_valid(nodes, tree.root);
    }
    let root = &tree.nodes[tree.root];
    let mut root_node = NodeForRendering::new(root.key.clone(), root.value.clone(), vec![]);
    let mut stack = vec![Marker { directions: vec![], node_corresponding: tree.root }];
    loop
        invariant
            tree.wf(),
            nodes == tree.nodes@,
            nodes.len() > 0,
            children_valid(nodes),
            copying(nodes, tree.root, root_node, stack@),
        ensures
            stack@.len() == 0,
        decreases weight(nodes, stack@),
    {
        let ghost old_stack = stack@;
        let cur_task = match stack.pop() {
            Some(task) => task,
            None => {
                break ;
            },
        };
        let ghost before = root_node;
        let ghost rest = stack@;
        let ghost path = cur_task.directions@;
        proof {
            assert(old_stack =~= rest.push(cur_task));
            assert(path.take(0) =~= Seq::<usize>::empty());
            lemma_open_is_bare(before, nodes, tree.root, path, 0, open_ways(old_stack));
            lemma_refilled_same(before, path, 0);
        }
        let corresponding_node = &tree.nodes[cur_task.node_corresponding];
        if let Some(left) = corresponding_node.left {
            let leftnode = &tree.nodes[left];
            let new_node = NodeForRendering::new(leftnode.key.clone(), leftnode.value.clone(), vec![]);
            let at = push_child(&mut root_node, &cur_task.directions, 0, new_node);
            let mut new_directions = cur_task.directions.clone();
            new_directions.push(at);
            stack.push(Marker { node_corresponding: left, directions: new_directions });
            proof {
                lemma_refilled_kids(before, path, 0, kids_at(before, path, 0).push(new_node), root_node);
            }
        }
        let ghost half = root_node;
        if let Some(right) = corresponding_node.right {
            let rightnode = &tree.nodes[right];
            let new_node = NodeForRendering::new(rightnode.key.clone(), rightnode.value.clone(), vec![]);
            let at = push_child(&mut root_node, &cur_task.directions, 0, new_node);
            let mut new_directions = cur_task.directions.clone();
            new_directions.push(at);
            stack.push(Marker { node_corresponding: right, directions: new_directions });
            proof {
                lemma_refilled_twice(
                    before,
                    path,
                    0,
                    kids_at(half, path, 0),
                    half,
                    kids_at(half, path, 0).push(new_node),
                    root_node,
                );
                lemma_refilled_kids(half, path, 0, kids_at(half, path, 0).push(new_node), root_node);
            }
        }
        proof {
            lemma_round(
                nodes,
                tree.root,
                before,
                rest,
                cur_task,
                kids_at(root_node, path, 0),
                root_node,
                stack@,
            );
        }
    }
    proof {
        lemma_closed(root_node, nodes, tree.root, Seq::empty(), open_ways(stack@));
    }
    root_node
}

} // verus!
