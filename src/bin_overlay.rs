//! Overlay that buckets node keys by an 11-bit window of the key.
use vstd::prelude::*;

use crate::classified::subnet_index;
use crate::metric::{
    lemma_bucket_order, lemma_bucket_xor, lemma_subnet_bound, masked_distance, subnet_of,
    NUM_SUBNETS,
};
use crate::nearest::{is_nearest, is_ranked, lemma_permutation_members, rank_by_distance};
use crate::{Class, NodeId, Target};

verus! {

/// `NUM_SUBNETS` buckets of node keys; bucket `i` holds the keys whose window
/// at the overlay's class is `i`.
#[derive(Debug, Clone)]
pub struct BinOverlay {
    subnets: Vec<Vec<NodeId>>,
}

impl Default for BinOverlay {
    fn default() -> (r: Self)
        ensures
            r@ == Set::<NodeId>::empty(),
            r.wf(),
    {
        Self::new()
    }
}

impl View for BinOverlay {
    type V = Set<NodeId>;

    /// The keys held in any bucket.
    closed spec fn view(&self) -> Set<NodeId> {
        Set::new(
            |id: NodeId|
                exists|i: int| 0 <= i < self.subnets@.len() && (#[trigger] self.subnets@[i])@.contains(id),
        )
    }
}

/// How far the bucket of `id` is from the bucket of `target`: the XOR of the
/// two windows.
pub open spec fn bucket_gap(id: u64, target: u64, class: Class) -> u64 {
    subnet_of(id, class) ^ subnet_of(target, class)
}

impl BinOverlay {
    /// The buckets, each as the list of keys it holds in insertion order.
    pub closed spec fn buckets(self) -> Seq<Seq<NodeId>> {
        self.subnets@.map_values(|b: Vec<NodeId>| b@)
    }

    /// Invariant of a bin overlay that serves class `class`: every bucket
    /// holds distinct keys whose window at that class is the bucket's number.
    pub closed spec fn wf_at(self, class: Class) -> bool {
        &&& class < 64
        &&& self.subnets@.len() == NUM_SUBNETS
        &&& forall|i: int| 0 <= i < NUM_SUBNETS ==> (#[trigger] self.subnets@[i])@.no_duplicates()
        &&& forall|i: int, j: int|
            0 <= i < NUM_SUBNETS && 0 <= j < self.subnets@[i]@.len() ==> subnet_of(
                #[trigger] self.subnets@[i]@[j],
                class,
            ) == i
    }

    /// Invariant of a bin overlay over the full XOR metric.
    pub open spec fn wf(self) -> bool {
        self.wf_at(0)
    }

    /// An overlay with `NUM_SUBNETS` empty buckets.
    pub fn new() -> (r: Self)
        ensures
            r@ == Set::<NodeId>::empty(),
            r.buckets() == Seq::new(NUM_SUBNETS as nat, |i: int| Seq::<NodeId>::empty()),
            r.wf(),
            forall|c: Class| c < 64 ==> #[trigger] r.wf_at(c),
    {
        let mut subnets: Vec<Vec<NodeId>> = Vec::new();
        let mut i: usize = 0;
        while i < NUM_SUBNETS
            invariant
                i <= NUM_SUBNETS,
                subnets@.len() == i,
                forall|j: int| 0 <= j < i ==> (#[trigger] subnets@[j])@.len() == 0,
            decreases NUM_SUBNETS - i,
        {
            subnets.push(Vec::new());
            i += 1;
        }
        let r = Self { subnets };
        proof {
            assert(r@ =~= Set::<NodeId>::empty());
            assert forall|j: int| 0 <= j < NUM_SUBNETS implies #[trigger] r.buckets()[j]
                =~= Seq::<NodeId>::empty() by {
                assert(r.subnets@[j]@.len() == 0);
            }
            assert(r.buckets() =~= Seq::new(NUM_SUBNETS as nat, |i: int| Seq::<NodeId>::empty()));
        }
        r
    }

    /// Adds `node_id` to the bucket of its top `SUBNET_BITS` bits. Keys must
    /// be distinct.
    pub fn insert_node(&mut self, node_id: NodeId)
        requires
            old(self).wf(),
            !old(self)@.contains(node_id),
        ensures
            final(self).wf(),
            final(self)@ == old(self)@.insert(node_id),
            final(self).buckets() == old(self).buckets().update(
                subnet_of(node_id, 0) as int,
                old(self).buckets()[subnet_of(node_id, 0) as int].push(node_id),
            ),
    {
        self.insert_classified_node(node_id, 0)
    }

    /// Adds `node_id` to its bucket at class `class`.
    pub(crate) fn insert_classified_node(&mut self, node_id: NodeId, class: Class)
        requires
            old(self).wf_at(class),
            !old(self)@.contains(node_id),
        ensures
            final(self).wf_at(class),
            final(self)@ == old(self)@.insert(node_id),
            final(self).buckets() == old(self).buckets().update(
                subnet_of(node_id, class) as int,
                old(self).buckets()[subnet_of(node_id, class) as int].push(node_id),
            ),
    {
        let ghost old_self = *self;
        let i = subnet_index(node_id, class);
        self.subnets[i].push(node_id);
        proof {
            assert forall|b: int| 0 <= b < NUM_SUBNETS implies (
            #[trigger] self.subnets@[b])@.no_duplicates() by {
                if b == i {
                    assert(!old_self.subnets@[b]@.contains(node_id));
                    assert(self.subnets@[b]@ == old_self.subnets@[b]@.push(node_id));
                }
            }
            assert forall|b: int, j: int|
                0 <= b < NUM_SUBNETS && 0 <= j < self.subnets@[b]@.len() implies subnet_of(
                #[trigger] self.subnets@[b]@[j],
                class,
            ) == b by {
                if b == i {
                    assert(self.subnets@[b]@ == old_self.subnets@[b]@.push(node_id));
                    if j < old_self.subnets@[b]@.len() {
                        assert(self.subnets@[b]@[j] == old_self.subnets@[b]@[j]);
                    }
                } else {
                    assert(self.subnets@[b] == old_self.subnets@[b]);
                }
            }
            assert forall|id: NodeId| #[trigger] self@.contains(id) <==> old_self@.insert(
                node_id,
            ).contains(id) by {
                if self@.contains(id) {
                    let b = choose|b: int|
                        0 <= b < self.subnets@.len() && (#[trigger] self.subnets@[b])@.contains(id);
                    if b != i {
                        assert(self.subnets@[b] == old_self.subnets@[b]);
                    } else if id != node_id {
                        assert(self.subnets@[b]@ == old_self.subnets@[b]@.push(node_id));
                        let j = choose|j: int|
                            0 <= j < self.subnets@[b]@.len() && self.subnets@[b]@[j] == id;
                        assert(old_self.subnets@[b]@[j] == id);
                    }
                }
                if old_self@.contains(id) {
                    let b = choose|b: int|
                        0 <= b < old_self.subnets@.len() && (#[trigger] old_self.subnets@[b])@.contains(
                            id,
                        );
                    if b == i {
                        assert(self.subnets@[b]@ == old_self.subnets@[b]@.push(node_id));
                        let j = choose|j: int|
                            0 <= j < old_self.subnets@[b]@.len() && old_self.subnets@[b]@[j] == id;
                        assert(self.subnets@[b]@[j] == id);
                    } else {
                        assert(self.subnets@[b] == old_self.subnets@[b]);
                    }
                }
                if id == node_id {
                    assert(self.subnets@[i as int]@ == old_self.subnets@[i as int]@.push(node_id));
                    assert(self.subnets@[i as int]@.last() == node_id);
                }
            }
            assert(self@ =~= old_self@.insert(node_id));
            assert(self.buckets() =~= old_self.buckets().update(
                i as int,
                old_self.buckets()[i as int].push(node_id),
            ));
        }
    }

    /// The `count` stored keys closest to `target` by XOR distance (all of
    /// them when there are fewer).
    pub fn find(&self, target: Target, count: usize) -> (r: Vec<NodeId>)
        requires
            self.wf(),
        ensures
            is_nearest(r@, self@, target, count as nat, 0),
    {
        self.find_classified(target, count, 0)
    }

    /// The `count` stored keys closest to `target` under the metric of class
    /// `class`. Buckets are visited in ascending order of their XOR with the
    /// target's bucket; each is taken whole while it fits, and the bucket that
    /// does not fit gives up its closest keys.
    pub(crate) fn find_classified(&self, target: Target, count: usize, class: Class) -> (r: Vec<
        NodeId,
    >)
        requires
            self.wf_at(class),
        ensures
            is_nearest(r@, self@, target, count as nat, class),
    {
        let s = subnet_index(target, class) as u64;
        let mut r: Vec<NodeId> = Vec::new();
        let mut diff: u64 = 0;
        while diff < 2048 && r.len() < count
            invariant
                self.wf_at(class),
                s == subnet_of(target, class),
                diff <= 2048,
                self.scan_inv(r@, target, class, diff as int, count as nat),
            decreases 2048 - diff,
        {
            proof {
                lemma_subnet_bound(target, class);
                lemma_bucket_xor(s, diff);
            }
            let idx = (s ^ diff) as usize;
            let room = count - r.len();
            let bucket = &self.subnets[idx];
            let ghost r_old = r@;
            let ghost ranked = bucket@;
            let ghost m = bucket@.len() as int;
            let whole = bucket.len() <= room;
            if whole {
                let mut j: usize = 0;
                while j < bucket.len()
                    invariant
                        j <= bucket@.len(),
                        r@ == r_old + bucket@.take(j as int),
                    decreases bucket@.len() - j,
                {
                    r.push(bucket[j]);
                    j += 1;
                    assert(r@ =~= r_old + bucket@.take(j as int));
                }
                assert(bucket@.take(bucket@.len() as int) =~= bucket@);
            } else {
                let mut copy = bucket.clone();
                rank_by_distance(copy.as_mut_slice(), target, class, room);
                proof {
                    ranked = copy@;
                    m = room as int;
                }
                let mut j: usize = 0;
                while j < room
                    invariant
                        j <= room,
                        room < copy@.len(),
                        r@ == r_old + copy@.take(j as int),
                    decreases room - j,
                {
                    r.push(copy[j]);
                    j += 1;
                    assert(r@ =~= r_old + copy@.take(j as int));
                }
            }
            proof {
                self.lemma_scan_step(
                    target,
                    class,
                    s,
                    diff,
                    count as nat,
                    r_old,
                    whole,
                    ranked,
                    m,
                );
            }
            diff += 1;
        }
        proof {
            if r@.len() < count {
                assert forall|id: NodeId| self@.contains(id) implies r@.contains(id) by {
                    self.lemma_member_bucket(id, class);
                    lemma_subnet_bound(id, class);
                    lemma_subnet_bound(target, class);
                    lemma_bucket_xor(subnet_of(id, class), s);
                }
            }
        }
        r
    }

    /// What the bucket scan of `find_classified` keeps true after the buckets
    /// at gap below `diff`.
    spec fn scan_inv(self, r: Seq<u64>, target: u64, class: Class, diff: int, count: nat) -> bool {
        &&& r.len() <= count
        &&& r.no_duplicates()
        &&& forall|i: int|
            0 <= i < r.len() ==> self@.contains(#[trigger] r[i]) && bucket_gap(r[i], target, class)
                < diff
        &&& (r.len() < count ==> forall|id: u64|
            #[trigger] self@.contains(id) && bucket_gap(id, target, class) < diff ==> r.contains(id))
        &&& forall|i: int, id: u64|
            #![trigger r[i], self@.contains(id)]
            0 <= i < r.len() && self@.contains(id) && !r.contains(id) ==> masked_distance(
                r[i],
                target,
                class,
            ) <= masked_distance(id, target, class)
    }

    /// A stored key lies in the bucket of its window.
    proof fn lemma_member_bucket(self, id: u64, class: Class)
        requires
            self.wf_at(class),
            self@.contains(id),
        ensures
            subnet_of(id, class) < NUM_SUBNETS,
            self.subnets@[subnet_of(id, class) as int]@.contains(id),
    {
        let b = choose|b: int| 0 <= b < self.subnets@.len() && (#[trigger] self.subnets@[b])@.contains(id);
        let j = choose|j: int| 0 <= j < self.subnets@[b]@.len() && self.subnets@[b]@[j] == id;
        assert(subnet_of(self.subnets@[b]@[j], class) == b);
    }

    /// Taking bucket `s ^ diff` (whole, or the first `m` of its ranked copy)
    /// carries the scan from gap `diff` to gap `diff + 1`.
    proof fn lemma_scan_step(
        self,
        target: u64,
        class: Class,
        s: u64,
        diff: u64,
        count: nat,
        r_old: Seq<u64>,
        whole: bool,
        ranked: Seq<u64>,
        m: int,
    )
        requires
            self.wf_at(class),
            s == subnet_of(target, class),
            diff < 2048,
            self.scan_inv(r_old, target, class, diff as int, count),
            r_old.len() < count,
            whole ==> ranked == self.subnets@[(s ^ diff) as int]@ && m == ranked.len() && r_old.len()
                + m <= count,
            !whole ==> ranked.to_multiset() == self.subnets@[(s ^ diff) as int]@.to_multiset()
                && is_ranked(ranked, target, class, m) && m == count - r_old.len() && m
                < ranked.len(),
        ensures
            self.scan_inv(r_old + ranked.take(m), target, class, diff + 1, count),
    {
        lemma_subnet_bound(target, class);
        lemma_bucket_xor(s, diff);
        let b = (s ^ diff) as int;
        let bucket = self.subnets@[b]@;
        let added = ranked.take(m);
        let r = r_old + added;
        assert(bucket.no_duplicates());
        lemma_permutation_members(bucket, ranked);
        assert forall|y: u64| ranked.contains(y) implies self@.contains(y) && bucket_gap(
            y,
            target,
            class,
        ) == diff by {
            assert(bucket.contains(y));
            let j = choose|j: int| 0 <= j < bucket.len() && bucket[j] == y;
            assert(subnet_of(bucket[j], class) == b);
        }
        assert forall|y: u64| #[trigger] self@.contains(y) && bucket_gap(y, target, class) == diff
            implies ranked.contains(y) by {
            self.lemma_member_bucket(y, class);
            lemma_subnet_bound(y, class);
            lemma_bucket_xor(subnet_of(y, class), s);
        }
        assert forall|i: int| 0 <= i < added.len() implies ranked.contains(#[trigger] added[i]) by {
            assert(added[i] == ranked[i]);
        }
        assert forall|i: int|
            0 <= i < r.len() implies self@.contains(#[trigger] r[i]) && bucket_gap(
            r[i],
            target,
            class,
        ) < diff + 1 by {
            if i >= r_old.len() {
                assert(r[i] == added[i - r_old.len()]);
            }
        }
        assert forall|i: int, j: int| 0 <= i < j < r.len() implies r[i] != r[j] by {
            if j < r_old.len() {
            } else if i >= r_old.len() {
                assert(r[i] == ranked[i - r_old.len()]);
                assert(r[j] == ranked[j - r_old.len()]);
            } else {
                assert(r[j] == added[j - r_old.len()]);
            }
        }
        assert forall|y: u64| r.contains(y) <==> (r_old.contains(y) || added.contains(y)) by {
            if r.contains(y) {
                let k = choose|k: int| 0 <= k < r.len() && r[k] == y;
                if k >= r_old.len() {
                    assert(added[k - r_old.len()] == y);
                }
            }
            if r_old.contains(y) {
                let k = choose|k: int| 0 <= k < r_old.len() && r_old[k] == y;
                assert(r[k] == y);
            }
            if added.contains(y) {
                let k = choose|k: int| 0 <= k < added.len() && added[k] == y;
                assert(r[k + r_old.len()] == y);
            }
        }
        if r.len() < count {
            assert forall|id: u64|
                #[trigger] self@.contains(id) && bucket_gap(id, target, class) < diff + 1 implies r.contains(
                id,
            ) by {
                if bucket_gap(id, target, class) == diff {
                    assert(whole);
                    assert(ranked.take(m) =~= ranked);
                    assert(added.contains(id));
                }
            }
        }
        assert forall|i: int, id: u64|
            #![trigger r[i], self@.contains(id)]
            0 <= i < r.len() && self@.contains(id) && !r.contains(id) implies masked_distance(
            r[i],
            target,
            class,
        ) <= masked_distance(id, target, class) by {
            if i >= r_old.len() {
                let x = r[i];
                assert(x == ranked[i - r_old.len()]);
                assert(bucket_gap(x, target, class) == diff);
                if bucket_gap(id, target, class) < diff {
                    assert(r_old.contains(id));
                } else if bucket_gap(id, target, class) == diff {
                    assert(ranked.contains(id));
                    if whole {
                        assert(ranked.take(m) =~= ranked);
                        assert(added.contains(id));
                    } else {
                        let j = choose|j: int| 0 <= j < ranked.len() && ranked[j] == id;
                        if j < m {
                            assert(added[j] == id);
                        }
                        assert(masked_distance(ranked[i - r_old.len()], target, class)
                            <= masked_distance(ranked[j], target, class));
                    }
                } else {
                    lemma_bucket_order(x, id, target, class);
                }
            }
        }
    }

    /// The keys of the first `n` buckets.
    spec fn keys_below(self, n: int) -> Set<NodeId> {
        Set::new(
            |id: NodeId| exists|i: int| 0 <= i < n && (#[trigger] self.subnets@[i])@.contains(id),
        )
    }

    proof fn lemma_keys_below_finite(self, n: int)
        requires
            0 <= n <= self.subnets@.len(),
        ensures
            self.keys_below(n).finite(),
        decreases n,
    {
        if n == 0 {
            assert(self.keys_below(0) =~= Set::empty());
        } else {
            self.lemma_keys_below_finite(n - 1);
            let bucket = self.subnets@[n - 1]@;
            assert(self.keys_below(n) =~= self.keys_below(n - 1).union(bucket.to_set()));
        }
    }

    /// A bin overlay holds finitely many keys.
    pub proof fn lemma_view_finite(self)
        ensures
            self@.finite(),
    {
        self.lemma_keys_below_finite(self.subnets@.len() as int);
        assert(self@ =~= self.keys_below(self.subnets@.len() as int));
    }
}

} // verus!
