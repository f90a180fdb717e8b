//! Helpers for nodes that carry a class: the masked metric, the bucket of a
//! key at a class, and a plain lookup over a list of classified nodes.
use vstd::prelude::*;

use crate::metric::{lemma_subnet_bound, masked_distance, subnet_of, SUBNET_BITS};
use crate::nearest::{
    is_ranked_pairs, lemma_permutation_members, min_len, rank_pairs_by_distance,
};

verus! {

/// A node key together with its class.
pub type NodeId = (super::NodeId, super::Class);

/// XOR distance between a node key and a target with the top `class` bits
/// cleared.
pub fn distance(node_id: super::NodeId, target: super::Target, class: super::Class) -> (r:
    super::Distance)
    requires
        class < 64,
    ensures
        r == masked_distance(node_id, target, class),
{
    (node_id ^ target) & (u64::MAX >> class)
}

/// Sorts `node_ids` by ascending distance to `target`, each node measured
/// under its own class, and returns the keys of its first `count` nodes (all
/// of them when there are fewer).
pub fn find(node_ids: &mut [NodeId], target: super::Target, count: usize) -> (r: Vec<
    super::NodeId,
>)
    requires
        forall|i: int| 0 <= i < old(node_ids)@.len() ==> (#[trigger] old(node_ids)@[i]).1 < 64,
    ensures
        final(node_ids)@.len() == old(node_ids)@.len(),
        final(node_ids)@.to_multiset() == old(node_ids)@.to_multiset(),
        is_ranked_pairs(final(node_ids)@, target, final(node_ids)@.len() as int),
        r@ == final(node_ids)@.take(min_len(count, old(node_ids)@.len() as int)).map_values(
            |p: NodeId| p.0,
        ),
{
    let len = node_ids.len();
    rank_pairs_by_distance(node_ids, target, len);
    let n = node_ids.len();
    let m = if count < n {
        count
    } else {
        n
    };
    let mut r: Vec<super::NodeId> = Vec::new();
    let mut i: usize = 0;
    while i < m
        invariant
            m <= n,
            n == node_ids@.len(),
            i <= m,
            r@ == node_ids@.take(i as int).map_values(|p: NodeId| p.0),
        decreases m - i,
    {
        r.push(node_ids[i].0);
        i += 1;
        assert(r@ =~= node_ids@.take(i as int).map_values(|p: NodeId| p.0));
    }
    r
}

/// The bucket of `id` at class `class`: the `SUBNET_BITS`-bit window of the
/// key that starts at its `class`-th highest bit, padded with zeros past the
/// lowest bit.
pub fn subnet_index(id: super::NodeId, class: super::Class) -> (r: usize)
    requires
        class < 64,
    ensures
        r == subnet_of(id, class),
        r < 2048,
{
    proof {
        lemma_subnet_bound(id, class);
    }
    ((id << class) >> (64 - SUBNET_BITS)) as usize
}

} // verus!
