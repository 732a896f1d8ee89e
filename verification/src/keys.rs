//! The prices of a tree of price levels, in order.

use crate::types::Order;
use std::collections::BTreeMap;
use std::collections::VecDeque;
use vstd::prelude::*;
use vstd::std_specs::btree::spec_keys_iter;
use vstd::std_specs::cmp::OrdSpec;
use vstd::std_specs::iter::IteratorSpec;

verus! {

/// Returns the prices of `levels`, each once, from the lowest to the
/// highest.
pub(crate) fn prices_ascending(levels: &BTreeMap<i64, VecDeque<Order>>) -> (prices: Vec<i64>)
    ensures
        forall|px: i64| levels@.contains_key(px) <==> prices@.contains(px),
        forall|i: int, j: int| 0 <= i < j < prices@.len() ==> prices@[i] < prices@[j],
{
    let mut prices: Vec<i64> = Vec::new();
    let ghost keys = spec_keys_iter(levels).remaining();
    for px in it: levels.keys()
        invariant
            it.seq() == keys,
            prices@.len() == it.index(),
            forall|j: int| 0 <= j < prices@.len() ==> prices@[j] == *keys[j],
    {
        prices.push(*px);
    }
    proof {
        assert(prices@ =~= keys.unref());
        vstd::std_specs::btree::axiom_increasing_seq_meaning::<&i64>(keys);
        assert forall|i: int, j: int| 0 <= i < j < keys.len() implies *keys[i] < *keys[j] by {
            assert(OrdSpec::cmp_spec(&keys[i], &keys[j]) is Less);
        }
        assert forall|px: i64| levels@.contains_key(px) <==> prices@.contains(px) by {
            assert(prices@.to_set().contains(px) <==> prices@.contains(px));
        }
    }
    prices
}

} // verus!
