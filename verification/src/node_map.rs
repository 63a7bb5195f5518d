//! The two-way map of `bimap` between symbols and nodes, with what it does stated over maps.
use bimap::{BiHashMap, BiMap};
use vstd::prelude::*;

verus! {

/// `bimap::BiHashMap`, a map that can be looked up from both sides.
#[verifier::external_type_specification]
#[verifier::external_body]
#[verifier::reject_recursive_types(L)]
#[verifier::reject_recursive_types(R)]
#[verifier::reject_recursive_types(LS)]
#[verifier::reject_recursive_types(RS)]
pub struct ExBiHashMap<L, R, LS, RS>(BiHashMap<L, R, LS, RS>);

/// What a two-way map holds: the right value of each left value.
pub uninterp spec fn node_pairs(nodes: BiMap<usize, u32>) -> Map<usize, u32>;

/// `BiMap::new` makes a map with no pair.
#[verifier::external_body]
pub(crate) fn new_node_map() -> (nodes: BiMap<usize, u32>)
    ensures
        node_pairs(nodes) == (Map::<usize, u32>::empty()),
{
    BiMap::new()
}

/// `BiMap::get_by_left` gives the right value of a left value, if the map holds a pair with it.
#[verifier::external_body]
pub(crate) fn node_by_symbol(nodes: &BiMap<usize, u32>, symbol: usize) -> (node: Option<u32>)
    ensures
        node == node_pairs(*nodes).get(symbol),
{
    nodes.get_by_left(&symbol).copied()
}

/// `BiMap::insert` puts a pair in, and takes out every pair that has the same left or the same
/// right value.
#[verifier::external_body]
pub(crate) fn insert_node_pair(nodes: &mut BiMap<usize, u32>, symbol: usize, node: u32)
    ensures
        node_pairs(*final(nodes)) == node_pairs(*old(nodes)).remove_keys(
            Set::new(|s: usize| node_pairs(*old(nodes))[s] == node),
        ).insert(symbol, node),
{
    nodes.insert(symbol, node);
}

} // verus!
