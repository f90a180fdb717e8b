//! Placement rules of the ingest simulation: storage nodes with a capacity,
//! storing a piece of data on the nodes a lookup chose, with rejection or
//! with eviction of a random copy.
use std::collections::HashMap;
use vstd::prelude::*;

use crate::NodeId;

verus! {

/// Key of a piece of data.
pub type DataId = u64;

/// A storage node: how many copies it can hold, and the copies it holds.
pub struct Node {
    pub capacity: usize,
    pub data: Vec<DataId>,
}

impl Node {
    /// The node holds no more copies than its capacity.
    pub open spec fn wf(self) -> bool {
        self.data@.len() <= self.capacity
    }

    /// The node has no room for another copy.
    pub open spec fn is_full(self) -> bool {
        self.data@.len() >= self.capacity
    }

    /// How many more copies the node can take.
    pub fn available_capacity(&self) -> (r: usize)
        requires
            self.wf(),
        ensures
            r == self.capacity - self.data@.len(),
    {
        self.capacity - self.data.len()
    }
}

/// Every key of `node_ids` names a node of `nodes`, and that node is well formed.
pub open spec fn all_known(nodes: Map<NodeId, Node>, node_ids: Seq<NodeId>) -> bool {
    forall|i: int|
        0 <= i < node_ids.len() ==> nodes.contains_key(#[trigger] node_ids[i])
            && nodes[node_ids[i]].wf()
}

/// Takes node `id` out of `nodes` and gives it back.
fn take_node(nodes: &mut HashMap<NodeId, Node>, id: NodeId) -> (r: Node)
    requires
        old(nodes)@.contains_key(id),
    ensures
        r == old(nodes)@[id],
        final(nodes)@ == old(nodes)@.remove(id),
{
    broadcast use vstd::std_specs::hash::group_hash_axioms;

    match nodes.remove(&id) {
        Some(node) => node,
        None => {
            proof {
                assert(false);
            }
            Node { capacity: 0, data: Vec::new() }
        },
    }
}

/// How many times `x` occurs in `s`.
pub open spec fn occurrences(s: Seq<NodeId>, x: NodeId) -> nat
    decreases s.len(),
{
    if s.len() == 0 {
        0
    } else {
        occurrences(s.drop_last(), x) + if s.last() == x {
            1nat
        } else {
            0nat
        }
    }
}

/// `data_id` repeated `n` times.
pub open spec fn copies(data_id: DataId, n: nat) -> Seq<DataId> {
    Seq::new(n, |i: int| data_id)
}

/// Stores `data_id` on every node of `node_ids`, once per occurrence, when
/// none of them is at its capacity, and otherwise stores it nowhere. Returns
/// whether it was stored.
pub fn ingest_with_rejection(
    nodes: &mut HashMap<NodeId, Node>,
    data_id: DataId,
    node_ids: &[NodeId],
) -> (r: bool)
    requires
        forall|i: int| 0 <= i < node_ids@.len() ==> old(nodes)@.contains_key(#[trigger] node_ids@[i]),
    ensures
        r == forall|i: int|
            0 <= i < node_ids@.len() ==> (#[trigger] old(nodes)@[node_ids@[i]]).data@.len() != old(
                nodes,
            )@[node_ids@[i]].capacity,
        !r ==> final(nodes)@ == old(nodes)@,
        r ==> final(nodes)@.dom() == old(nodes)@.dom(),
        r ==> forall|id: NodeId|
            #[trigger] old(nodes)@.contains_key(id) ==> final(nodes)@[id].capacity == old(
                nodes,
            )@[id].capacity && final(nodes)@[id].data@ == old(nodes)@[id].data@ + copies(
                data_id,
                occurrences(node_ids@, id),
            ),
{
    broadcast use vstd::std_specs::hash::group_hash_axioms;

    let ghost orig = nodes@;
    let n = node_ids.len();
    let mut i: usize = 0;
    while i < n
        invariant
            n == node_ids@.len(),
            i <= n,
            nodes@ == orig,
            forall|j: int| 0 <= j < n ==> orig.contains_key(#[trigger] node_ids@[j]),
            forall|j: int|
                0 <= j < i ==> (#[trigger] orig[node_ids@[j]]).data@.len()
                    != orig[node_ids@[j]].capacity,
        decreases n - i,
    {
        let full = match nodes.get(&node_ids[i]) {
            Some(node) => node.data.len() == node.capacity,
            None => true,
        };
        if full {
            return false;
        }
        i += 1;
    }
    let mut i: usize = 0;
    while i < n
        invariant
            n == node_ids@.len(),
            i <= n,
            forall|j: int| 0 <= j < n ==> orig.contains_key(#[trigger] node_ids@[j]),
            nodes@.dom() == orig.dom(),
            forall|id: NodeId|
                #[trigger] orig.contains_key(id) ==> nodes@[id].capacity == orig[id].capacity
                    && nodes@[id].data@ == orig[id].data@ + copies(
                    data_id,
                    occurrences(node_ids@.take(i as int), id),
                ),
        decreases n - i,
    {
        let id = node_ids[i];
        let ghost before = nodes@;
        let mut node = take_node(nodes, id);
        node.data.push(data_id);
        nodes.insert(id, node);
        proof {
            assert(nodes@.dom() =~= orig.dom());
            let t = node_ids@.take(i + 1);
            assert(t.drop_last() =~= node_ids@.take(i as int));
            assert(t.last() == id);
            assert forall|other: NodeId| #[trigger]
                orig.contains_key(other) implies nodes@[other].capacity == orig[other].capacity
                && nodes@[other].data@ == orig[other].data@ + copies(
                data_id,
                occurrences(t, other),
            ) by {
                if other == id {
                    let k = occurrences(node_ids@.take(i as int), id);
                    assert(copies(data_id, k + 1) =~= copies(data_id, k).push(data_id));
                    assert(orig[other].data@ + copies(data_id, k + 1) =~= (orig[other].data@
                        + copies(data_id, k)).push(data_id));
                } else {
                    assert(nodes@[other] == before[other]);
                }
            }
        }
        i += 1;
    }
    proof {
        assert(node_ids@.take(n as int) =~= node_ids@);
    }
    true
}

/// How many of the nodes named by `node_ids` are full.
pub open spec fn full_count(nodes: Map<NodeId, Node>, node_ids: Seq<NodeId>) -> nat
    decreases node_ids.len(),
{
    if node_ids.len() == 0 {
        0
    } else {
        full_count(nodes, node_ids.drop_last()) + if nodes[node_ids.last()].is_full() {
            1nat
        } else {
            0nat
        }
    }
}

/// What `node` holds after `data_id` has been stored on it: appended while
/// there is room, else written over the copy in slot `slot`.
pub open spec fn stored(node: Node, data_id: DataId, slot: usize) -> Seq<DataId> {
    if node.is_full() {
        node.data@.update(slot as int, data_id)
    } else {
        node.data@.push(data_id)
    }
}

/// The copies that storing on the first `n` nodes of `node_ids` evicts, in
/// order: the copy in slot `slots[i]` of every full node.
pub open spec fn evicted(
    nodes: Map<NodeId, Node>,
    node_ids: Seq<NodeId>,
    slots: Seq<usize>,
    n: int,
) -> Seq<DataId>
    decreases n,
{
    if n <= 0 {
        Seq::empty()
    } else {
        let before = evicted(nodes, node_ids, slots, n - 1);
        let node = nodes[node_ids[n - 1]];
        if node.is_full() {
            before.push(node.data@[slots[n - 1] as int])
        } else {
            before
        }
    }
}

/// The copy counts after each copy of `gone` has taken one off the count of
/// its piece; a count already at zero stays there.
pub open spec fn release(counts: Map<DataId, u8>, gone: Seq<DataId>) -> Map<DataId, u8>
    decreases gone.len(),
{
    if gone.len() == 0 {
        counts
    } else {
        let c = release(counts, gone.drop_last());
        let d = gone.last();
        if c.contains_key(d) && c[d] >= 1 {
            c.insert(d, (c[d] - 1) as u8)
        } else {
            c
        }
    }
}

/// How many pieces see their count go from one to zero as the copies of
/// `gone` are released in order: the pieces lost.
pub open spec fn losses(counts: Map<DataId, u8>, gone: Seq<DataId>) -> nat
    decreases gone.len(),
{
    if gone.len() == 0 {
        0
    } else {
        let c = release(counts, gone.drop_last());
        let d = gone.last();
        losses(counts, gone.drop_last()) + if c.contains_key(d) && c[d] == 1 {
            1nat
        } else {
            0nat
        }
    }
}

/// Stores `data_id` on every node of `node_ids`. A full node gives up the
/// copy in slot `slots[i]` for it. `copy_counts` counts the copies of each
/// piece of data: an evicted copy takes one off its count, and a piece whose
/// count reaches zero is lost. The new piece is counted with one copy per
/// node. Returns how many copies were evicted and how many pieces were lost.
pub fn ingest_with_eviction(
    nodes: &mut HashMap<NodeId, Node>,
    copy_counts: &mut HashMap<DataId, u8>,
    data_id: DataId,
    node_ids: &[NodeId],
    slots: &[usize],
) -> (r: (usize, usize))
    requires
        node_ids@.no_duplicates(),
        node_ids@.len() <= 255,
        slots@.len() == node_ids@.len(),
        all_known(old(nodes)@, node_ids@),
        forall|i: int|
            0 <= i < node_ids@.len() && (#[trigger] old(nodes)@[node_ids@[i]]).is_full() ==> slots@[i]
                < old(nodes)@[node_ids@[i]].capacity,
        !old(copy_counts)@.contains_key(data_id),
    ensures
        r.0 == full_count(old(nodes)@, node_ids@),
        r.1 <= r.0,
        final(nodes)@.dom() == old(nodes)@.dom(),
        forall|id: NodeId|
            #[trigger] old(nodes)@.contains_key(id) && !node_ids@.contains(id) ==> final(nodes)@[id]
                == old(nodes)@[id],
        forall|i: int|
            0 <= i < node_ids@.len() ==> (#[trigger] final(nodes)@[node_ids@[i]]).capacity == old(
                nodes,
            )@[node_ids@[i]].capacity && final(nodes)@[node_ids@[i]].data@ == stored(
                old(nodes)@[node_ids@[i]],
                data_id,
                slots@[i],
            ),
        all_known(final(nodes)@, node_ids@),
        r.1 == losses(
            old(copy_counts)@,
            evicted(old(nodes)@, node_ids@, slots@, node_ids@.len() as int),
        ),
        final(copy_counts)@ == release(
            old(copy_counts)@,
            evicted(old(nodes)@, node_ids@, slots@, node_ids@.len() as int),
        ).insert(data_id, node_ids@.len() as u8),
{
    broadcast use vstd::std_specs::hash::group_hash_axioms;

    let ghost orig = nodes@;
    let ghost orig_counts = copy_counts@;
    let n = node_ids.len();
    let mut num_evict: usize = 0;
    let mut num_loss: usize = 0;
    let mut i: usize = 0;
    while i < n
        invariant
            n == node_ids@.len(),
            n <= 255,
            slots@.len() == n,
            i <= n,
            node_ids@.no_duplicates(),
            all_known(orig, node_ids@),
            forall|j: int|
                0 <= j < n && (#[trigger] orig[node_ids@[j]]).is_full() ==> slots@[j]
                    < orig[node_ids@[j]].capacity,
            num_evict == full_count(orig, node_ids@.take(i as int)),
            num_loss <= num_evict,
            num_evict <= i,
            nodes@.dom() == orig.dom(),
            forall|id: NodeId|
                #[trigger] orig.contains_key(id) && !node_ids@.take(i as int).contains(id)
                    ==> nodes@[id] == orig[id],
            forall|j: int|
                0 <= j < i ==> (#[trigger] nodes@[node_ids@[j]]).capacity
                    == orig[node_ids@[j]].capacity && nodes@[node_ids@[j]].data@ == stored(
                    orig[node_ids@[j]],
                    data_id,
                    slots@[j],
                ),
            !orig_counts.contains_key(data_id),
            copy_counts@ == release(orig_counts, evicted(orig, node_ids@, slots@, i as int)),
            num_loss == losses(orig_counts, evicted(orig, node_ids@, slots@, i as int)),
        decreases n - i,
    {
        let id = node_ids[i];
        proof {
            assert(!node_ids@.take(i as int).contains(id));
            assert(nodes@[id] == orig[id]);
            assert(node_ids@.take(i + 1).drop_last() =~= node_ids@.take(i as int));
            assert(node_ids@.take(i + 1).last() == id);
        }
        let mut node = take_node(nodes, id);
        if node.data.len() < node.capacity {
            node.data.push(data_id);
            proof {
                assert(evicted(orig, node_ids@, slots@, i + 1) == evicted(
                    orig,
                    node_ids@,
                    slots@,
                    i as int,
                ));
            }
        } else {
            num_evict += 1;
            let slot = slots[i];
            let victim = node.data[slot];
            node.data[slot] = data_id;
            let ghost counts_before = copy_counts@;
            proof {
                let gone = evicted(orig, node_ids@, slots@, i + 1);
                assert(gone == evicted(orig, node_ids@, slots@, i as int).push(victim));
                assert(gone.drop_last() =~= evicted(orig, node_ids@, slots@, i as int));
                assert(gone.last() == victim);
            }
            match copy_counts.remove(&victim) {
                Some(count) => {
                    if count >= 1 {
                        if count == 1 {
                            num_loss += 1;
                        }
                        copy_counts.insert(victim, count - 1);
                        proof {
                            assert(copy_counts@ =~= counts_before.insert(victim, (count - 1) as u8));
                        }
                    } else {
                        copy_counts.insert(victim, count);
                        proof {
                            assert(copy_counts@ =~= counts_before);
                        }
                    }
                },
                None => {
                    proof {
                        assert(copy_counts@ =~= counts_before);
                    }
                },
            }
        }
        nodes.insert(id, node);
        proof {
            assert(nodes@.dom() =~= orig.dom());
            assert forall|other: NodeId|
                #[trigger] orig.contains_key(other) && !node_ids@.take(i + 1).contains(
                    other,
                ) implies nodes@[other] == orig[other] by {
                assert(node_ids@.take(i + 1)[i as int] == id);
                if node_ids@.take(i as int).contains(other) {
                    let k = choose|k: int| 0 <= k < i && node_ids@.take(i as int)[k] == other;
                    assert(node_ids@.take(i + 1)[k] == other);
                }
            }
            assert forall|j: int| 0 <= j < i + 1 implies (#[trigger] nodes@[node_ids@[j]]).capacity
                == orig[node_ids@[j]].capacity && nodes@[node_ids@[j]].data@ == stored(
                orig[node_ids@[j]],
                data_id,
                slots@[j],
            ) by {
                if j < i {
                    assert(node_ids@[j] != id);
                }
            }
        }
        i += 1;
    }
    proof {
        assert(node_ids@.take(n as int) =~= node_ids@);
        assert forall|j: int| 0 <= j < n implies nodes@.contains_key(#[trigger] node_ids@[j])
            && nodes@[node_ids@[j]].wf() by {
            assert(orig.contains_key(node_ids@[j]));
            assert(orig[node_ids@[j]].wf());
        }
    }
    copy_counts.insert(data_id, n as u8);
    (num_evict, num_loss)
}

/// The least available capacity among the nodes named by `node_ids`, or
/// `None` when it names none.
pub open spec fn min_available(nodes: Map<NodeId, Node>, node_ids: Seq<NodeId>) -> Option<int>
    decreases node_ids.len(),
{
    if node_ids.len() == 0 {
        None
    } else {
        let node = nodes[node_ids.last()];
        let here = node.capacity - node.data@.len();
        match min_available(nodes, node_ids.drop_last()) {
            None => Some(here),
            Some(m) => Some(
                if here < m {
                    here
                } else {
                    m
                },
            ),
        }
    }
}

/// `a` is greater than `b`, where no value is below every value.
pub open spec fn option_greater(a: Option<int>, b: Option<int>) -> bool {
    match (a, b) {
        (Some(x), Some(y)) => x > y,
        (Some(_), None) => true,
        _ => false,
    }
}

/// The least available capacity among the nodes named by `node_ids`.
fn min_available_capacity(nodes: &HashMap<NodeId, Node>, node_ids: &Vec<NodeId>) -> (r: Option<
    usize,
>)
    requires
        all_known(nodes@, node_ids@),
    ensures
        match r {
            None => min_available(nodes@, node_ids@) is None,
            Some(v) => min_available(nodes@, node_ids@) == Some(v as int),
        },
{
    broadcast use vstd::std_specs::hash::group_hash_axioms;

    let mut best: Option<usize> = None;
    let mut i: usize = 0;
    while i < node_ids.len()
        invariant
            i <= node_ids@.len(),
            all_known(nodes@, node_ids@),
            match best {
                None => min_available(nodes@, node_ids@.take(i as int)) is None,
                Some(v) => min_available(nodes@, node_ids@.take(i as int)) == Some(v as int),
            },
        decreases node_ids@.len() - i,
    {
        proof {
            assert(node_ids@.take(i + 1).drop_last() =~= node_ids@.take(i as int));
            assert(node_ids@.take(i + 1).last() == node_ids@[i as int]);
            assert(nodes@.contains_key(node_ids@[i as int]));
        }
        let here = match nodes.get(&node_ids[i]) {
            Some(node) => node.available_capacity(),
            None => 0,
        };
        best = match best {
            None => Some(here),
            Some(m) => Some(
                if here < m {
                    here
                } else {
                    m
                },
            ),
        };
        i += 1;
    }
    proof {
        assert(node_ids@.take(node_ids@.len() as int) =~= node_ids@);
    }
    best
}

/// The two-choices placement: of two candidate pieces of data with the nodes
/// a lookup chose for each, keeps the first when the least available
/// capacity among its nodes is greater than among the second's, and the
/// second otherwise.
pub fn place_two_choices(
    nodes: &HashMap<NodeId, Node>,
    data_id0: DataId,
    node_ids0: Vec<NodeId>,
    data_id1: DataId,
    node_ids1: Vec<NodeId>,
) -> (r: (DataId, Vec<NodeId>))
    requires
        all_known(nodes@, node_ids0@),
        all_known(nodes@, node_ids1@),
    ensures
        if option_greater(min_available(nodes@, node_ids0@), min_available(nodes@, node_ids1@)) {
            r.0 == data_id0 && r.1@ == node_ids0@
        } else {
            r.0 == data_id1 && r.1@ == node_ids1@
        },
{
    let score0 = min_available_capacity(nodes, &node_ids0);
    let score1 = min_available_capacity(nodes, &node_ids1);
    let first = match (score0, score1) {
        (Some(a), Some(b)) => a > b,
        (Some(_), None) => true,
        _ => false,
    };
    if first {
        (data_id0, node_ids0)
    } else {
        (data_id1, node_ids1)
    }
}

} // verus!
