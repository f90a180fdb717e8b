//! In-memory indexes over 64-bit node keys that answer Kademlia-style
//! "k closest nodes to a key" queries under the XOR metric, plus a
//! classified variant in which every node carries a class that masks out
//! the top bits of the metric. The `placement` module holds the storage
//! rules of the ingest simulation that runs on top of these indexes.
use vstd::prelude::*;

pub mod metric;
pub mod nearest;
pub mod classified;
pub mod trie;
pub mod bin_overlay;
pub mod classified_overlay;
pub mod laws;
pub mod placement;

pub use crate::bin_overlay::BinOverlay;
pub use crate::classified_overlay::{ClassOverlay, Classified};
pub use crate::trie::TrieOverlay;

use crate::metric::masked_distance;
use crate::nearest::{
    is_nearest, is_nearest_classified, is_ranked, lemma_permutation_members,
    lemma_ranked_is_nearest, min_len, rank_by_distance,
};

verus! {

/// Key of a node.
pub type NodeId = u64;

/// Key that a lookup is made for: the key of a node or of a piece of data.
pub type Target = u64;

/// Value of the XOR metric between two keys.
pub type Distance = u64;

/// Number of top bits of the metric that a node ignores, in `0..=63`.
pub type Class = u8;

/// XOR distance between a node key and a target key.
pub fn distance(node_id: NodeId, target: Target) -> (r: Distance)
    ensures
        r == node_id ^ target,
{
    node_id ^ target
}

/// Sorts `node_ids` by ascending XOR distance to `target` and returns its
/// first `count` keys (all of them when there are fewer).
pub fn find(node_ids: &mut [NodeId], target: Target, count: usize) -> (r: Vec<NodeId>)
    ensures
        final(node_ids)@.len() == old(node_ids)@.len(),
        final(node_ids)@.to_multiset() == old(node_ids)@.to_multiset(),
        is_ranked(final(node_ids)@, target, 0, final(node_ids)@.len() as int),
        r@ == final(node_ids)@.take(min_len(count, old(node_ids)@.len() as int)),
        old(node_ids)@.no_duplicates() ==> is_nearest(
            r@,
            old(node_ids)@.to_set(),
            target,
            count as nat,
            0,
        ),
{
    let ghost orig = node_ids@;
    let len = node_ids.len();
    rank_by_distance(node_ids, target, 0, len);
    let n = node_ids.len();
    let m = if count < n {
        count
    } else {
        n
    };
    let mut r: Vec<NodeId> = Vec::new();
    let mut i: usize = 0;
    while i < m
        invariant
            m <= n,
            n == node_ids@.len(),
            i <= m,
            r@ == node_ids@.take(i as int),
        decreases m - i,
    {
        r.push(node_ids[i]);
        i += 1;
        assert(r@ =~= node_ids@.take(i as int));
    }
    proof {
        lemma_permutation_members(orig, node_ids@);
        if orig.no_duplicates() {
            let s = node_ids@;
            let m = min_len(count, s.len() as int);
            assert forall|i: int, j: int|
                #![trigger s[i], s[j]]
                0 <= i < m && i < j < s.len() implies masked_distance(s[i], target, 0)
                <= masked_distance(s[j], target, 0) by {}
            lemma_ranked_is_nearest(node_ids@, target, 0, count);
            assert(orig.to_set() =~= node_ids@.to_set());
        }
    }
    r
}

/// One overlay of either kind, behind a single lookup.
pub enum Overlay {
    Vanilla(BinOverlay),
    Classified(Classified),
}

impl Overlay {
    /// The overlay inside is well formed.
    pub open spec fn wf(self) -> bool {
        match self {
            Overlay::Vanilla(overlay) => overlay.wf(),
            Overlay::Classified(overlay) => overlay.wf(),
        }
    }

    /// The `count` stored keys closest to `target` under the overlay's metric.
    pub fn find(&self, target: Target, count: usize) -> (r: Vec<NodeId>)
        requires
            self.wf(),
        ensures
            match self {
                Overlay::Vanilla(overlay) => is_nearest(r@, overlay@, target, count as nat, 0),
                Overlay::Classified(overlay) => is_nearest_classified(
                    r@,
                    overlay@,
                    target,
                    count as nat,
                ),
            },
    {
        match self {
            Overlay::Vanilla(overlay) => overlay.find(target, count),
            Overlay::Classified(overlay) => overlay.find(target, count),
        }
    }
}

} // verus!
