//! The order on keys.
//!
//! The tree is generic over any key type with a lawful `Ord`. Everything the
//! tree needs from that order is gathered here: two relations, the laws
//! they obey, and the one executable comparison.

use core::cmp::Ordering;
use vstd::laws_cmp::obeys_cmp;
use vstd::laws_cmp::obeys_cmp_ord;
use vstd::laws_cmp::obeys_cmp_partial_ord;
use vstd::laws_cmp::obeys_partial_cmp_spec_properties;
use vstd::laws_eq::obeys_eq_spec_properties;
use vstd::prelude::*;
use vstd::std_specs::cmp::OrdSpec;

verus! {

/// `K`'s comparison is a lawful total order, and the executable `cmp`
/// computes it.
pub open spec fn total_order<K: Ord>() -> bool {
    obeys_cmp::<K>()
}

/// `a` sorts strictly before `b`.
pub open spec fn lt<K: Ord>(a: K, b: K) -> bool {
    a.cmp_spec(&b) == Ordering::Less
}

/// `a` and `b` compare as equal; the tree treats such keys as one key.
pub open spec fn same<K: Ord>(a: K, b: K) -> bool {
    a.cmp_spec(&b) == Ordering::Equal
}

/// `k` lies strictly between the two bounds; an absent bound does not
/// constrain.
pub open spec fn in_range<K: Ord>(lo: Option<K>, k: K, hi: Option<K>) -> bool {
    &&& (lo matches Some(l) ==> lt(l, k))
    &&& (hi matches Some(h) ==> lt(k, h))
}

/// Where a key stands relative to the key of a node.
#[derive(Clone, Copy, Debug, PartialEq, Eq)]
pub enum Side {
    /// The key sorts before the node's key.
    Before,
    /// The key equals the node's key.
    Here,
    /// The key sorts after the node's key.
    After,
}

/// The laws of a total order, in the form the solver picks up by itself.
pub proof fn lemma_order<K: Ord>()
    requires
        total_order::<K>(),
    ensures
        forall|a: K| #[trigger] same(a, a),
        forall|a: K, b: K| #[trigger] lt(a, b) ==> !lt(b, a) && !same(a, b) && !same(b, a),
        forall|a: K, b: K| #[trigger] same(a, b) ==> same(b, a),
        forall|a: K, b: K| #![trigger lt(a, b)] #![trigger lt(b, a)] lt(a, b) || same(a, b) || lt(b, a),
        forall|a: K, b: K, c: K| #[trigger] lt(a, b) && #[trigger] lt(b, c) ==> lt(a, c),
        forall|a: K, b: K, c: K| #[trigger] same(a, b) && #[trigger] same(b, c) ==> same(a, c),
        forall|a: K, b: K, c: K| #[trigger] same(a, b) && #[trigger] lt(b, c) ==> lt(a, c),
        forall|a: K, b: K, c: K| #[trigger] lt(a, b) && #[trigger] same(b, c) ==> lt(a, c),
{
    reveal(obeys_eq_spec_properties);
    reveal(obeys_partial_cmp_spec_properties);
    reveal(obeys_cmp_partial_ord);
    reveal(obeys_cmp_ord);
}

/// The order of `i64` is a lawful total order.
pub proof fn lemma_i64_total_order()
    ensures
        total_order::<i64>(),
{
    broadcast use vstd::laws_cmp::group_laws_cmp;

}

/// Narrowing a range at a key inside it gives a range inside it.
pub proof fn lemma_narrow<K: Ord>(lo: Option<K>, mid: K, hi: Option<K>, k: K)
    requires
        total_order::<K>(),
        in_range(lo, mid, hi),
    ensures
        in_range(lo, k, Some(mid)) ==> in_range(lo, k, hi),
        in_range(Some(mid), k, hi) ==> in_range(lo, k, hi),
        !(in_range(lo, k, Some(mid)) && in_range(Some(mid), k, hi)),
        in_range(lo, k, hi) ==> in_range(lo, k, Some(mid)) || same(k, mid) || in_range(
            Some(mid),
            k,
            hi,
        ),
{
    lemma_order::<K>();
}

/// Says where `key` stands relative to `at`, the key of a node.
pub fn locate<K: Ord>(key: &K, at: &K) -> (side: Side)
    requires
        total_order::<K>(),
    ensures
        side == Side::Before <==> lt(*key, *at),
        side == Side::Here <==> same(*key, *at),
        side == Side::After <==> lt(*at, *key),
{
    proof {
        reveal(obeys_cmp_ord);
        lemma_order::<K>();
    }
    match at.cmp(key) {
        Ordering::Greater => Side::Before,
        Ordering::Equal => Side::Here,
        Ordering::Less => Side::After,
    }
}

} // verus!
