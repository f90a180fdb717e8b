//! Properties of lookups that follow from the overlays' contracts.
use vstd::prelude::*;

use crate::classified_overlay::Classified;
use crate::metric::{lemma_class_zero, lemma_distance_basics, masked_distance};
use crate::nearest::{is_ascending, is_ascending_classified, is_nearest, is_nearest_classified, lemma_distinct_within};
use crate::trie::TrieOverlay;
use crate::{Class, NodeId};

verus! {

/// Distinct keys are at distinct XOR distances from any target.
proof fn lemma_xor_injective(x: u64, y: u64, target: u64)
    requires
        x != y,
    ensures
        x ^ target != y ^ target,
{
    assert(x != y ==> x ^ target != y ^ target) by (bit_vector);
}

/// Under the full XOR metric there are no ties: every key a lookup returns is
/// strictly closer to the target than every stored key it leaves out. With
/// the length that `is_nearest` fixes, the result holds exactly the `k` keys
/// of smallest XOR distance (all of them when there are fewer).
pub proof fn law_xor_nearest_strict(r: Seq<NodeId>, ids: Set<NodeId>, target: u64, k: nat)
    requires
        is_nearest(r, ids, target, k, 0),
    ensures
        forall|i: int, y: NodeId|
            #![trigger r[i], ids.contains(y)]
            0 <= i < r.len() && ids.contains(y) && !r.contains(y) ==> r[i] ^ target < y ^ target,
{
    assert forall|i: int, y: NodeId|
        #![trigger r[i], ids.contains(y)]
        0 <= i < r.len() && ids.contains(y) && !r.contains(y) implies r[i] ^ target < y
        ^ target by {
        lemma_class_zero(r[i], target);
        lemma_class_zero(y, target);
        assert(r.contains(r[i]));
        lemma_xor_injective(r[i], y, target);
    }
}

/// Every key of `r1` is in `r2` when both answer the same lookup under the
/// full XOR metric.
proof fn lemma_xor_nearest_included(
    r1: Seq<NodeId>,
    r2: Seq<NodeId>,
    ids: Set<NodeId>,
    target: u64,
    k: nat,
)
    requires
        is_nearest(r1, ids, target, k, 0),
        is_nearest(r2, ids, target, k, 0),
    ensures
        forall|x: NodeId| r1.contains(x) ==> r2.contains(x),
{
    law_xor_nearest_strict(r1, ids, target, k);
    law_xor_nearest_strict(r2, ids, target, k);
    assert forall|x: NodeId| r1.contains(x) implies r2.contains(x) by {
        if !r2.contains(x) {
            let i = choose|i: int| 0 <= i < r1.len() && r1[i] == x;
            assert(ids.contains(r1[i]));
            assert(r2.len() == k);
            assert forall|j: int| 0 <= j < r2.len() implies r1.contains(#[trigger] r2[j]) by {
                assert(ids.contains(r2[j]));
                if !r1.contains(r2[j]) {
                    assert(r1[i] ^ target < r2[j] ^ target);
                    assert(r2[j] ^ target < r1[i] ^ target);
                }
            }
            let longer = r2.push(x);
            assert forall|j: int| 0 <= j < longer.len() implies r1.contains(#[trigger] longer[j]) by {
                if j < r2.len() {
                    assert(longer[j] == r2[j]);
                }
            }
            assert forall|a: int, b: int| 0 <= a < b < longer.len() implies longer[a]
                != longer[b] by {
                if b == r2.len() {
                    assert(r2.contains(longer[a]));
                } else {
                    assert(longer[a] == r2[a] && longer[b] == r2[b]);
                }
            }
            lemma_distinct_within(longer, r1);
        }
    }
}

/// Under the full XOR metric a lookup has one answer: any two results over
/// the same keys hold the same keys.
pub proof fn law_xor_nearest_unique(
    r1: Seq<NodeId>,
    r2: Seq<NodeId>,
    ids: Set<NodeId>,
    target: u64,
    k: nat,
)
    requires
        is_nearest(r1, ids, target, k, 0),
        is_nearest(r2, ids, target, k, 0),
    ensures
        r1.to_set() == r2.to_set(),
{
    lemma_xor_nearest_included(r1, r2, ids, target, k);
    lemma_xor_nearest_included(r2, r1, ids, target, k);
    assert(r1.to_set() =~= r2.to_set());
}

/// Two strictly ascending lists that hold the same keys, each once, agree on
/// their first `i` entries.
proof fn lemma_ascending_prefix_equal(r1: Seq<NodeId>, r2: Seq<NodeId>, target: u64, i: int)
    requires
        r1.no_duplicates(),
        r2.no_duplicates(),
        r1.len() == r2.len(),
        r1.to_set() == r2.to_set(),
        is_ascending(r1, target, 0),
        is_ascending(r2, target, 0),
        0 <= i <= r1.len(),
    ensures
        forall|j: int| 0 <= j < i ==> r1[j] == r2[j],
    decreases i,
{
    if i > 0 {
        lemma_ascending_prefix_equal(r1, r2, target, i - 1);
        let k = i - 1;
        let x = r1[k];
        let y = r2[k];
        assert(r1.to_set().contains(x));
        assert(r2.to_set().contains(y));
        let q = choose|q: int| 0 <= q < r2.len() && r2[q] == x;
        let q2 = choose|q2: int| 0 <= q2 < r1.len() && r1[q2] == y;
        if q < k {
            assert(r1[q] == r2[q]);
        }
        if q2 < k {
            assert(r1[q2] == r2[q2]);
        }
        if q > k {
            assert(masked_distance(r2[k], target, 0) < masked_distance(r2[q], target, 0));
            if q2 > k {
                assert(masked_distance(r1[k], target, 0) < masked_distance(r1[q2], target, 0));
            }
        }
    }
}

/// Under the full XOR metric a lookup that returns its keys in ascending
/// distance has one answer: any two such results over the same keys are the
/// same sequence.
pub proof fn law_ascending_lookup_unique(
    r1: Seq<NodeId>,
    r2: Seq<NodeId>,
    ids: Set<NodeId>,
    target: u64,
    k: nat,
)
    requires
        is_nearest(r1, ids, target, k, 0),
        is_nearest(r2, ids, target, k, 0),
        is_ascending(r1, target, 0),
        is_ascending(r2, target, 0),
    ensures
        r1 == r2,
{
    law_xor_nearest_unique(r1, r2, ids, target, k);
    r1.unique_seq_to_set();
    r2.unique_seq_to_set();
    lemma_ascending_prefix_equal(r1, r2, target, r1.len() as int);
    assert(r1 =~= r2);
}

/// Lookups on a trie and on the trie that compression made of it return the
/// same keys in the same order, for every target and count.
pub proof fn law_compress_keeps_lookups(
    before: TrieOverlay,
    after: TrieOverlay,
    target: u64,
    k: nat,
    r1: Seq<NodeId>,
    r2: Seq<NodeId>,
)
    requires
        after@ == before@,
        is_nearest(r1, before@, target, k, 0),
        is_ascending(r1, target, 0),
        is_nearest(r2, after@, target, k, 0),
        is_ascending(r2, target, 0),
    ensures
        r1 == r2,
{
    law_ascending_lookup_unique(r1, r2, before@, target, k);
}

/// Two tries that hold the same keys, whatever order they were inserted in,
/// answer every lookup with the same sequence.
pub proof fn law_trie_insert_order(
    t1: TrieOverlay,
    t2: TrieOverlay,
    target: u64,
    k: nat,
    r1: Seq<NodeId>,
    r2: Seq<NodeId>,
)
    requires
        t1@ == t2@,
        is_nearest(r1, t1@, target, k, 0),
        is_ascending(r1, target, 0),
        is_nearest(r2, t2@, target, k, 0),
        is_ascending(r2, target, 0),
    ensures
        r1 == r2,
{
    law_ascending_lookup_unique(r1, r2, t1@, target, k);
}

/// Compressing twice gives what compressing once gives.
pub proof fn law_compress_idempotent(t0: TrieOverlay, t1: TrieOverlay, t2: TrieOverlay)
    requires
        t1@ == t0@,
        t1.is_compact(),
        t0.is_compact() ==> t1 == t0,
        t2@ == t1@,
        t2.is_compact(),
        t1.is_compact() ==> t2 == t1,
    ensures
        t2 == t1,
{
}

/// Optimizing twice gives what optimizing once gives: the same slots, the
/// same nodes, and so the same lookups.
pub proof fn law_optimize_idempotent(c0: Classified, c1: Classified, c2: Classified)
    requires
        c1@ == c0@,
        c1.is_optimized(),
        c0.is_optimized() ==> c1.slots() == c0.slots(),
        c2@ == c1@,
        c2.is_optimized(),
        c1.is_optimized() ==> c2.slots() == c1.slots(),
    ensures
        c2.slots() == c1.slots(),
        c2@ == c1@,
        forall|r: Seq<NodeId>, target: u64, k: nat|
            is_nearest_classified(r, c2@, target, k) <==> is_nearest_classified(
                r,
                c1@,
                target,
                k,
            ),
{
}

/// The order in which two keys are inserted does not change the keys that a
/// lookup under the full XOR metric returns.
pub proof fn law_insert_order(
    ids: Set<NodeId>,
    a: NodeId,
    b: NodeId,
    target: u64,
    k: nat,
    r1: Seq<NodeId>,
    r2: Seq<NodeId>,
)
    requires
        is_nearest(r1, ids.insert(a).insert(b), target, k, 0),
        is_nearest(r2, ids.insert(b).insert(a), target, k, 0),
    ensures
        r1.to_set() == r2.to_set(),
{
    assert(ids.insert(a).insert(b) =~= ids.insert(b).insert(a));
    law_xor_nearest_unique(r1, r2, ids.insert(a).insert(b), target, k);
}

/// The order in which two distinct nodes enter a classified overlay does not
/// change which results are correct for a lookup; results may differ only
/// between equally distant nodes.
pub proof fn law_insert_order_classified(
    nodes: Map<NodeId, Class>,
    a: NodeId,
    class_a: Class,
    b: NodeId,
    class_b: Class,
    target: u64,
    k: nat,
    r: Seq<NodeId>,
)
    requires
        a != b,
    ensures
        is_nearest_classified(r, nodes.insert(a, class_a).insert(b, class_b), target, k)
            <==> is_nearest_classified(r, nodes.insert(b, class_b).insert(a, class_a), target, k),
{
    assert(nodes.insert(a, class_a).insert(b, class_b) =~= nodes.insert(b, class_b).insert(
        a,
        class_a,
    ));
}

/// The stored nodes strictly closer to `target` than distance `d`, each
/// measured under its own class.
pub open spec fn closer_than(nodes: Map<NodeId, Class>, target: u64, d: u64) -> Set<NodeId> {
    Set::new(
        |y: NodeId| nodes.dom().contains(y) && masked_distance(y, target, nodes[y]) < d,
    )
}

/// Fewer than `k` stored nodes are strictly closer to the target than any
/// node a classified lookup returns: its masked distance is at most the
/// `k`-th smallest masked distance over all stored nodes.
pub proof fn law_within_kth_distance(r: Seq<NodeId>, nodes: Map<NodeId, Class>, target: u64, k: nat)
    requires
        is_nearest_classified(r, nodes, target, k),
    ensures
        forall|i: int|
            0 <= i < r.len() ==> (#[trigger] closer_than(
                nodes,
                target,
                masked_distance(r[i], target, nodes[r[i]]),
            )).finite() && closer_than(nodes, target, masked_distance(r[i], target, nodes[r[i]])).len()
                < k,
{
    assert forall|i: int| 0 <= i < r.len() implies (#[trigger] closer_than(
        nodes,
        target,
        masked_distance(r[i], target, nodes[r[i]]),
    )).finite() && closer_than(nodes, target, masked_distance(r[i], target, nodes[r[i]])).len()
        < k by {
        let x = r[i];
        let closer = closer_than(nodes, target, masked_distance(x, target, nodes[x]));
        let rest = r.to_set().remove(x);
        assert(nodes.dom().contains(x));
        assert forall|y: NodeId| closer.contains(y) implies rest.contains(y) by {
            if !r.contains(y) {
                assert(masked_distance(r[i], target, nodes[r[i]]) <= masked_distance(
                    y,
                    target,
                    nodes[y],
                ));
            }
        }
        r.unique_seq_to_set();
        assert(r.to_set().contains(x));
        vstd::set_lib::lemma_len_subset(closer, rest);
    }
}

/// A node looked up by its own key comes back alone, as long as no other
/// node is at masked distance zero from that key under its own class.
pub proof fn law_self_lookup(nodes: Map<NodeId, Class>, id: NodeId, r: Seq<NodeId>)
    requires
        nodes.dom().contains(id),
        forall|y: NodeId|
            #[trigger] nodes.dom().contains(y) && y != id ==> masked_distance(y, id, nodes[y]) != 0,
        is_nearest_classified(r, nodes, id, 1),
    ensures
        r == seq![id],
{
    lemma_distance_basics(id, id, nodes[id]);
    if r.len() == 0 {
        assert(r.contains(id));
    }
    assert(r.len() == 1);
    if r[0] != id {
        assert(!r.contains(id));
        assert(masked_distance(r[0], id, nodes[r[0]]) <= masked_distance(id, id, nodes[id]));
    }
    assert(r =~= seq![id]);
}

/// With every node at class 0, a classified overlay answers every lookup
/// with the same keys as a bin overlay over the same keys.
pub proof fn law_class_zero_matches_bin(
    nodes: Map<NodeId, Class>,
    ids: Set<NodeId>,
    target: u64,
    k: nat,
    r1: Seq<NodeId>,
    r2: Seq<NodeId>,
)
    requires
        nodes.dom() == ids,
        forall|id: NodeId| #[trigger] ids.contains(id) ==> nodes[id] == 0,
        is_nearest_classified(r1, nodes, target, k),
        is_nearest(r2, ids, target, k, 0),
    ensures
        r1.to_set() == r2.to_set(),
{
    assert forall|i: int| 0 <= i < r1.len() implies ids.contains(#[trigger] r1[i]) by {
        assert(nodes.dom().contains(r1[i]));
    }
    assert(is_nearest(r1, ids, target, k, 0));
    law_xor_nearest_unique(r1, r2, ids, target, k);
}

/// A lookup over finitely many keys returns `min(k, N)` keys, `N` being how
/// many are stored.
pub proof fn law_nearest_len(r: Seq<NodeId>, ids: Set<NodeId>, target: u64, k: nat, class: Class)
    requires
        is_nearest(r, ids, target, k, class),
        ids.finite(),
    ensures
        r.len() == if k < ids.len() {
            k
        } else {
            ids.len()
        },
{
    r.unique_seq_to_set();
    assert(r.to_set().subset_of(ids)) by {
        assert forall|x: NodeId| r.to_set().contains(x) implies ids.contains(x) by {
            let i = choose|i: int| 0 <= i < r.len() && r[i] == x;
            assert(ids.contains(r[i]));
        }
    }
    vstd::set_lib::lemma_len_subset(r.to_set(), ids);
    if r.len() < k {
        assert(r.to_set() =~= ids);
    }
}

/// A classified lookup over finitely many nodes returns `min(k, N)` keys,
/// `N` being how many are stored.
pub proof fn law_nearest_classified_len(
    r: Seq<NodeId>,
    nodes: Map<NodeId, Class>,
    target: u64,
    k: nat,
)
    requires
        is_nearest_classified(r, nodes, target, k),
        nodes.dom().finite(),
    ensures
        r.len() == if k < nodes.dom().len() {
            k
        } else {
            nodes.dom().len()
        },
{
    r.unique_seq_to_set();
    assert(r.to_set().subset_of(nodes.dom())) by {
        assert forall|x: NodeId| r.to_set().contains(x) implies nodes.dom().contains(x) by {
            let i = choose|i: int| 0 <= i < r.len() && r[i] == x;
            assert(nodes.dom().contains(r[i]));
        }
    }
    vstd::set_lib::lemma_len_subset(r.to_set(), nodes.dom());
    if r.len() < k {
        assert(r.to_set() =~= nodes.dom());
    }
}

/// Distance of the `i`-th key of `r` under its own class.
spec fn nth_distance(r: Seq<NodeId>, nodes: Map<NodeId, Class>, target: u64, i: int) -> u64 {
    masked_distance(r[i], target, nodes[r[i]])
}

/// The `i`-th distance of one ascending classified result is never below the
/// `i`-th distance of another over the same nodes.
proof fn lemma_nth_distance_not_below(
    r1: Seq<NodeId>,
    r2: Seq<NodeId>,
    nodes: Map<NodeId, Class>,
    target: u64,
    k: nat,
    i: int,
)
    requires
        is_nearest_classified(r1, nodes, target, k),
        is_nearest_classified(r2, nodes, target, k),
        is_ascending_classified(r1, nodes, target),
        is_ascending_classified(r2, nodes, target),
        0 <= i < r1.len(),
        i < r2.len(),
    ensures
        nth_distance(r1, nodes, target, i) >= nth_distance(r2, nodes, target, i),
{
    if nth_distance(r1, nodes, target, i) < nth_distance(r2, nodes, target, i) {
        let head = r1.take(i + 1);
        let below = r2.take(i);
        assert forall|a: int| 0 <= a < head.len() implies below.contains(#[trigger] head[a]) by {
            let x = head[a];
            assert(x == r1[a]);
            assert(nth_distance(r1, nodes, target, a) <= nth_distance(r1, nodes, target, i));
            assert(nodes.dom().contains(x));
            if !r2.contains(x) {
                assert(masked_distance(r2[i], target, nodes[r2[i]]) <= masked_distance(
                    x,
                    target,
                    nodes[x],
                ));
            } else {
                let q = choose|q: int| 0 <= q < r2.len() && r2[q] == x;
                if q >= i {
                    assert(nth_distance(r2, nodes, target, i) <= nth_distance(r2, nodes, target, q));
                }
                assert(below[q] == x);
            }
        }
        assert forall|a: int, b: int| 0 <= a < b < head.len() implies head[a] != head[b] by {
            assert(head[a] == r1[a] && head[b] == r1[b]);
        }
        lemma_distinct_within(head, below);
    }
}

/// Two correct classified lookups over the same nodes, returned in ascending
/// order, have the same length and the same distance at every position: they
/// can differ only between equally distant nodes. So the order in which the
/// nodes were inserted changes no distance that a lookup reports.
pub proof fn law_classified_distances_agree(
    r1: Seq<NodeId>,
    r2: Seq<NodeId>,
    nodes: Map<NodeId, Class>,
    target: u64,
    k: nat,
)
    requires
        is_nearest_classified(r1, nodes, target, k),
        is_nearest_classified(r2, nodes, target, k),
        is_ascending_classified(r1, nodes, target),
        is_ascending_classified(r2, nodes, target),
    ensures
        r1.len() == r2.len(),
        forall|i: int|
            0 <= i < r1.len() ==> masked_distance(#[trigger] r1[i], target, nodes[r1[i]])
                == masked_distance(r2[i], target, nodes[r2[i]]),
{
    if r1.len() < k {
        assert forall|a: int| 0 <= a < r2.len() implies r1.contains(#[trigger] r2[a]) by {
            assert(nodes.dom().contains(r2[a]));
        }
        lemma_distinct_within(r2, r1);
    }
    if r2.len() < k {
        assert forall|a: int| 0 <= a < r1.len() implies r2.contains(#[trigger] r1[a]) by {
            assert(nodes.dom().contains(r1[a]));
        }
        lemma_distinct_within(r1, r2);
    }
    assert forall|i: int| 0 <= i < r1.len() implies masked_distance(
        #[trigger] r1[i],
        target,
        nodes[r1[i]],
    ) == masked_distance(r2[i], target, nodes[r2[i]]) by {
        lemma_nth_distance_not_below(r1, r2, nodes, target, k, i);
        lemma_nth_distance_not_below(r2, r1, nodes, target, k, i);
    }
}

} // verus!
