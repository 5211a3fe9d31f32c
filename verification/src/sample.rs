//! Random entries, and trees filled with them.

use crate::order::lemma_i64_total_order;
use crate::order::same;
use crate::order::total_order;
use crate::tree::Tree;
use rand::Rng;
use vstd::prelude::*;

verus! {

/// The least key of a random entry.
pub const KEY_LOW: i64 = -1000000000;

/// The bound below which the keys of random entries lie.
pub const KEY_HIGH: i64 = 10000000000;

/// The least value of a random entry.
pub const VALUE_LOW: i8 = -10;

/// The bound below which the values of random entries lie.
pub const VALUE_HIGH: i8 = 10;

/// An entry drawn at random: a key from `key_low` up to, but not
/// including, `key_high`, and a value from `value_low` up to, but not
/// including, `value_high`.
///
/// Calls `rand::rng` for the generator of the current thread and
/// `Rng::random_range` on it, once for the key and once for the value.
/// `random_range` panics on an empty range, which the precondition rules
/// out, and returns a number of the range. Which number comes is chance:
/// nothing more is claimed, and two calls may differ. The generator is
/// seeded from the operating system when a thread first asks for it, and
/// `rand::rng` panics if that source fails; no argument can rule that out.
#[verifier::external_body]
fn random_entry(key_low: i64, key_high: i64, value_low: i8, value_high: i8) -> (entry: (i64, i8))
    requires
        key_low < key_high,
        value_low < value_high,
    ensures
        key_low <= entry.0 < key_high,
        value_low <= entry.1 < value_high,
{
    let mut rng = rand::rng();
    (rng.random_range(key_low..key_high), rng.random_range(value_low..value_high))
}

/// The entry lies in the ranges from which random entries are drawn.
pub open spec fn in_bounds(entry: (i64, i8)) -> bool {
    &&& KEY_LOW <= entry.0 < KEY_HIGH
    &&& VALUE_LOW <= entry.1 < VALUE_HIGH
}

/// `count` entries drawn at random.
pub fn random_entries(count: usize) -> (entries: Vec<(i64, i8)>)
    ensures
        entries@.len() == count,
        forall|i: int| 0 <= i < count ==> in_bounds(#[trigger] entries@[i]),
{
    let mut randoms: Vec<(i64, i8)> = Vec::new();
    let mut drawn: usize = 0;
    while drawn < count
        invariant
            drawn <= count,
            randoms@.len() == drawn,
            forall|i: int| 0 <= i < drawn ==> in_bounds(#[trigger] randoms@[i]),
        decreases count - drawn,
    {
        randoms.push(random_entry(KEY_LOW, KEY_HIGH, VALUE_LOW, VALUE_HIGH));
        drawn += 1;
    }
    randoms
}

/// Inserts the entries into the tree, one after the other; an entry whose
/// key the tree holds by then is passed over. Says how many were
/// inserted.
pub fn insert_all(tree: &mut Tree<i64, i8>, entries: &Vec<(i64, i8)>) -> (added: usize)
    requires
        old(tree).wf(),
    ensures
        final(tree).wf(),
        added <= entries@.len(),
        final(tree).nodes@.len() == old(tree).nodes@.len() + added,
        forall|j: int|
            0 <= j < old(tree).nodes@.len() ==> (#[trigger] final(tree).nodes@[j]).key == old(
                tree,
            ).nodes@[j].key && final(tree).nodes@[j].value == old(tree).nodes@[j].value,
        forall|i: int| 0 <= i < entries@.len() ==> final(tree).contains_key((#[trigger] entries@[i]).0),
{
    proof {
        lemma_i64_total_order();
    }
    let mut added: usize = 0;
    let mut done: usize = 0;
    while done < entries.len()
        invariant
            total_order::<i64>(),
            tree.wf(),
            done <= entries@.len(),
            added <= done,
            tree.nodes@.len() == old(tree).nodes@.len() + added,
            forall|j: int|
                0 <= j < old(tree).nodes@.len() ==> (#[trigger] tree.nodes@[j]).key == old(
                    tree,
                ).nodes@[j].key && tree.nodes@[j].value == old(tree).nodes@[j].value,
            forall|i: int| 0 <= i < done ==> tree.contains_key((#[trigger] entries@[i]).0),
        decreases entries@.len() - done,
    {
        let ghost before = *tree;
        let entry = entries[done];
        let inserted = tree.insert(entry.0, entry.1);
        proof {
            assert forall|i: int| 0 <= i < done implies tree.contains_key((#[trigger] entries@[i]).0) by {
                let k = entries@[i].0;
                let j = choose|j: int| 0 <= j < before.nodes@.len() && same((#[trigger] before.nodes@[j]).key, k);
                assert(same(tree.nodes@[j].key, k));
            }
            if inserted {
                assert(same(tree.nodes@[before.nodes@.len() as int].key, entry.0));
            }
        }
        if inserted {
            added += 1;
        }
        done += 1;
    }
    added
}

} // verus!
