//! Overlay over nodes that each carry a class: one sub-overlay per class,
//! searched under that class's metric, with the candidates ranked jointly.
use vstd::prelude::*;

use crate::bin_overlay::BinOverlay;
use crate::classified;
use crate::metric::{lemma_distance_basics, masked_distance};
use crate::nearest::{
    is_ascending_classified, is_nearest, is_nearest_classified, is_ranked_pairs, lemma_distinct_within,
    lemma_permutation_members, min_len, nearest_in_list, pair_distance,
};
use crate::trie::TrieOverlay;
use crate::{Class, NodeId, Target};

verus! {

/// Population from which `optimize` turns a class's list into a bin overlay.
pub const BIN_THRESHOLD: usize = 512;

/// Population from which `optimize` turns a class's list into a trie.
pub const TRIE_THRESHOLD: usize = 16;

/// The nodes of one class: a plain list, or an index built from it.
#[derive(Debug, Clone)]
pub enum ClassOverlay {
    Naive(Vec<NodeId>),
    Trie(TrieOverlay),
    Bin(BinOverlay),
}

/// No two keys of `ids` agree on all the bits that class `class` compares.
pub open spec fn distinct_under(ids: Seq<NodeId>, class: Class) -> bool {
    forall|i: int, j: int|
        0 <= i < j < ids.len() ==> masked_distance(#[trigger] ids[i], #[trigger] ids[j], class) != 0
}

impl ClassOverlay {
    /// The keys held.
    pub closed spec fn ids(self) -> Set<NodeId> {
        match self {
            ClassOverlay::Naive(v) => v@.to_set(),
            ClassOverlay::Trie(t) => t@,
            ClassOverlay::Bin(b) => b@,
        }
    }

    /// Invariant of the nodes of class `class`.
    pub closed spec fn wf_at(self, class: Class) -> bool {
        match self {
            ClassOverlay::Naive(v) => v@.no_duplicates(),
            ClassOverlay::Trie(t) => t.wf_at(class) && t.is_compact(),
            ClassOverlay::Bin(b) => b.wf_at(class),
        }
    }

    /// `optimize` leaves this slot as it is: it is an index already, or a list
    /// too short to promote, or one whose keys a trie cannot tell apart.
    pub open spec fn is_settled(self, class: Class) -> bool {
        match self {
            ClassOverlay::Naive(v) => v@.len() < TRIE_THRESHOLD || (v@.len() < BIN_THRESHOLD
                && !distinct_under(v@, class)),
            _ => true,
        }
    }

    /// The slot with `node_id` added. A trie, which cannot take keys once
    /// compressed, goes back to a plain list.
    fn inserted(self, node_id: NodeId, class: Class) -> (r: Self)
        requires
            class < 64,
            self.wf_at(class),
            !self.ids().contains(node_id),
        ensures
            r.wf_at(class),
            r.ids() == self.ids().insert(node_id),
            self is Naive ==> r is Naive && r->Naive_0@ == self->Naive_0@.push(node_id),
            self is Bin ==> r is Bin,
            self is Trie ==> r is Naive,
    {
        match self {
            ClassOverlay::Naive(mut v) => {
                let ghost before = v@;
                v.push(node_id);
                proof {
                    assert(v@ == before.push(node_id));
                    before.lemma_push_to_set_commute(node_id);
                }
                ClassOverlay::Naive(v)
            },
            ClassOverlay::Bin(mut b) => {
                b.insert_classified_node(node_id, class);
                ClassOverlay::Bin(b)
            },
            ClassOverlay::Trie(t) => {
                let mut v = t.node_ids(Ghost(class));
                let ghost before = v@;
                v.push(node_id);
                proof {
                    assert(v@ == before.push(node_id));
                    before.lemma_push_to_set_commute(node_id);
                }
                ClassOverlay::Naive(v)
            },
        }
    }

    /// Whether no two keys of `ids` agree on all the bits that class `class`
    /// compares.
    fn distinct_keys(ids: &Vec<NodeId>, class: Class) -> (r: bool)
        requires
            class < 64,
        ensures
            r == distinct_under(ids@, class),
    {
        let n = ids.len();
        let mut i: usize = 0;
        while i < n
            invariant
                class < 64,
                n == ids@.len(),
                i <= n,
                forall|a: int, b: int|
                    0 <= a < i && a < b < n ==> masked_distance(
                        #[trigger] ids@[a],
                        #[trigger] ids@[b],
                        class,
                    ) != 0,
            decreases n - i,
        {
            let mut j: usize = i + 1;
            while j < n
                invariant
                    class < 64,
                    n == ids@.len(),
                    i < n,
                    i < j <= n,
                    forall|a: int, b: int|
                        0 <= a < i && a < b < n ==> masked_distance(
                            #[trigger] ids@[a],
                            #[trigger] ids@[b],
                            class,
                        ) != 0,
                    forall|b: int|
                        i < b < j ==> masked_distance(ids@[i as int], #[trigger] ids@[b], class)
                            != 0,
                decreases n - j,
            {
                if (ids[i] ^ ids[j]) & (u64::MAX >> class) == 0 {
                    return false;
                }
                j += 1;
            }
            i += 1;
        }
        true
    }

    /// A bin overlay of class `class` holding the keys of `ids`.
    fn bin_of(ids: &Vec<NodeId>, class: Class) -> (r: BinOverlay)
        requires
            class < 64,
            ids@.no_duplicates(),
        ensures
            r.wf_at(class),
            r@ == ids@.to_set(),
    {
        let mut b = BinOverlay::new();
        let mut i: usize = 0;
        while i < ids.len()
            invariant
                class < 64,
                ids@.no_duplicates(),
                i <= ids@.len(),
                b.wf_at(class),
                b@ == ids@.take(i as int).to_set(),
            decreases ids@.len() - i,
        {
            proof {
                if b@.contains(ids@[i as int]) {
                    let k = choose|k: int| 0 <= k < i && ids@.take(i as int)[k] == ids@[i as int];
                    assert(ids@[k] == ids@[i as int]);
                }
                ids@.take(i as int).lemma_push_to_set_commute(ids@[i as int]);
                assert(ids@.take(i + 1) =~= ids@.take(i as int).push(ids@[i as int]));
            }
            b.insert_classified_node(ids[i], class);
            i += 1;
        }
        proof {
            assert(ids@.take(ids@.len() as int) =~= ids@);
        }
        b
    }

    /// A compressed trie of class `class` holding the keys of `ids`.
    fn trie_of(ids: &Vec<NodeId>, class: Class) -> (r: TrieOverlay)
        requires
            class < 64,
            distinct_under(ids@, class),
        ensures
            r.wf_at(class),
            r.is_compact(),
            r.is_tight(),
            r@ == ids@.to_set(),
    {
        let mut t = TrieOverlay::new();
        let mut i: usize = 0;
        while i < ids.len()
            invariant
                class < 64,
                distinct_under(ids@, class),
                i <= ids@.len(),
                t.wf_at(class),
                t.no_skips(),
                t.is_tight(),
                t@ == ids@.take(i as int).to_set(),
            decreases ids@.len() - i,
        {
            proof {
                assert forall|y: NodeId| t@.contains(y) implies masked_distance(
                    ids@[i as int],
                    y,
                    class,
                ) != 0 by {
                    let k = choose|k: int| 0 <= k < i && ids@.take(i as int)[k] == y;
                    assert(ids@[k] == y);
                    assert(masked_distance(ids@[k], ids@[i as int], class) != 0);
                    lemma_distance_basics(ids@[k], ids@[i as int], class);
                }
                ids@.take(i as int).lemma_push_to_set_commute(ids@[i as int]);
                assert(ids@.take(i + 1) =~= ids@.take(i as int).push(ids@[i as int]));
            }
            t.insert_classified_node(ids[i], class);
            i += 1;
        }
        proof {
            assert(ids@.take(ids@.len() as int) =~= ids@);
        }
        t.compress_classified(Ghost(class));
        t
    }

    /// The slot promoted by population: a bin overlay from `BIN_THRESHOLD`
    /// keys, a compressed trie from `TRIE_THRESHOLD` keys that a trie can
    /// tell apart, and otherwise the slot as it is.
    fn optimized(self, class: Class) -> (r: Self)
        requires
            class < 64,
            self.wf_at(class),
        ensures
            r.wf_at(class),
            r.ids() == self.ids(),
            r.is_settled(class),
            self.is_settled(class) ==> r == self,
    {
        match self {
            ClassOverlay::Naive(v) => {
                if v.len() >= BIN_THRESHOLD {
                    ClassOverlay::Bin(Self::bin_of(&v, class))
                } else if v.len() >= TRIE_THRESHOLD && Self::distinct_keys(&v, class) {
                    ClassOverlay::Trie(Self::trie_of(&v, class))
                } else {
                    ClassOverlay::Naive(v)
                }
            },
            other => other,
        }
    }

    /// The `count` keys of this class closest to `target` under its metric.
    fn find(&self, target: Target, count: usize, class: Class) -> (r: Vec<NodeId>)
        requires
            class < 64,
            self.wf_at(class),
        ensures
            is_nearest(r@, self.ids(), target, count as nat, class),
    {
        match self {
            ClassOverlay::Naive(v) => nearest_in_list(v, target, class, count),
            ClassOverlay::Trie(t) => t.find_classified(target, count, class),
            ClassOverlay::Bin(b) => b.find_classified(target, count, class),
        }
    }
}

/// Nodes that carry a class, kept in one slot per class.
#[derive(Clone)]
pub struct Classified {
    classes: Vec<ClassOverlay>,
    nodes: Ghost<Map<NodeId, Class>>,
}

impl Default for Classified {
    fn default() -> (r: Self)
        ensures
            r@ == Map::<NodeId, Class>::empty(),
            r.wf(),
    {
        Self::new()
    }
}

impl View for Classified {
    type V = Map<NodeId, Class>;

    /// The class of every stored key.
    closed spec fn view(&self) -> Map<NodeId, Class> {
        self.nodes@
    }
}

impl Classified {
    /// The slots, indexed by class.
    pub closed spec fn slots(self) -> Seq<ClassOverlay> {
        self.classes@
    }

    /// Slot `c` holds exactly the stored keys of class `c`, in the shape that
    /// class `c` needs.
    pub closed spec fn wf(self) -> bool {
        &&& self.nodes@.dom().finite()
        &&& self.classes@.len() <= 64
        &&& forall|c: int|
            0 <= c < self.classes@.len() ==> (#[trigger] self.classes@[c]).wf_at(c as Class)
        &&& forall|c: int, id: NodeId|
            #![trigger self.classes@[c].ids().contains(id)]
            0 <= c < self.classes@.len() ==> (self.classes@[c].ids().contains(id) <==> (
            self.nodes@.dom().contains(id) && self.nodes@[id] == c))
        &&& forall|id: NodeId| #[trigger]
            self.nodes@.dom().contains(id) ==> self.nodes@[id] < self.classes@.len()
    }

    /// A classified overlay holds finitely many nodes.
    pub proof fn lemma_view_finite(self)
        requires
            self.wf(),
        ensures
            self@.dom().finite(),
    {
    }

    /// Every slot is settled: `optimize` has nothing left to do.
    pub open spec fn is_optimized(self) -> bool {
        forall|c: int| 0 <= c < self.slots().len() ==> (#[trigger] self.slots()[c]).is_settled(c as Class)
    }

    /// An overlay without nodes.
    pub fn new() -> (r: Self)
        ensures
            r.wf(),
            r@ == Map::<NodeId, Class>::empty(),
    {
        Self { classes: Vec::new(), nodes: Ghost(Map::empty()) }
    }

    /// The `count` stored keys closest to `target`, each measured under its
    /// own class (all of them when there are fewer). Every slot gives its own
    /// `count` closest keys under its class's metric, and those candidates
    /// are ranked together.
    pub fn find(&self, target: Target, count: usize) -> (r: Vec<NodeId>)
        requires
            self.wf(),
        ensures
            is_nearest_classified(r@, self@, target, count as nat),
            is_ascending_classified(r@, self@, target),
    {
        let mut merged: Vec<classified::NodeId> = Vec::new();
        let ghost mut cands: Seq<Seq<NodeId>> = Seq::empty();
        let n = self.classes.len();
        let mut c: usize = 0;
        while c < n
            invariant
                self.wf(),
                n == self.classes@.len(),
                c <= n,
                self.merge_inv(target, count as nat, cands, merged@, c as int),
            decreases n - c,
        {
            let class = c as Class;
            let found = self.classes[c].find(target, count, class);
            let ghost merged_old = merged@;
            let mut j: usize = 0;
            while j < found.len()
                invariant
                    j <= found@.len(),
                    merged@ == merged_old + found@.take(j as int).map_values(
                        |x: NodeId| (x, class),
                    ),
                decreases found@.len() - j,
            {
                merged.push((found[j], class));
                j += 1;
                assert(merged@ =~= merged_old + found@.take(j as int).map_values(
                    |x: NodeId| (x, class),
                ));
            }
            proof {
                assert(found@.take(found@.len() as int) =~= found@);
                self.lemma_merge_step(target, count as nat, cands, merged_old, found@, c as int);
                cands = cands.push(found@);
            }
            c += 1;
        }
        let ghost before = merged@;
        let r = classified::find(merged.as_mut_slice(), target, count);
        proof {
            let m = min_len(count, before.len() as int);
            assert(r@.len() == m);
            assert forall|i: int| 0 <= i < m implies r@[i] == (#[trigger] merged@[i]).0 by {}
            self.lemma_merge_nearest(target, count, cands, before, merged@, r@);
        }
        r
    }

    /// What the walk over the slots in `find` keeps true after slot `c - 1`.
    spec fn merge_inv(
        self,
        target: Target,
        count: nat,
        cands: Seq<Seq<NodeId>>,
        merged: Seq<(NodeId, Class)>,
        c: int,
    ) -> bool {
        &&& cands.len() == c
        &&& merged.no_duplicates()
        &&& forall|j: int|
            0 <= j < merged.len() ==> self.nodes@.dom().contains((#[trigger] merged[j]).0)
                && self.nodes@[merged[j].0] == merged[j].1 && merged[j].1 < c
        &&& forall|d: int|
            0 <= d < c ==> is_nearest(
                #[trigger] cands[d],
                self.classes@[d].ids(),
                target,
                count,
                d as Class,
            )
        &&& forall|d: int, i: int|
            0 <= d < c && 0 <= i < cands[d].len() ==> merged.contains(
                (#[trigger] cands[d][i], d as Class),
            )
    }

    /// Appending the candidates of slot `c`, tagged with their class, carries
    /// the walk over the slots one step further.
    proof fn lemma_merge_step(
        self,
        target: Target,
        count: nat,
        cands: Seq<Seq<NodeId>>,
        merged: Seq<(NodeId, Class)>,
        found: Seq<NodeId>,
        c: int,
    )
        requires
            self.wf(),
            0 <= c < self.classes@.len(),
            self.merge_inv(target, count, cands, merged, c),
            is_nearest(found, self.classes@[c].ids(), target, count, c as Class),
        ensures
            self.merge_inv(
                target,
                count,
                cands.push(found),
                merged + found.map_values(|x: NodeId| (x, c as Class)),
                c + 1,
            ),
    {
        let class = c as Class;
        let added = found.map_values(|x: NodeId| (x, class));
        let next = merged + added;
        let cands2 = cands.push(found);
        assert forall|i: int| 0 <= i < found.len() implies self.nodes@.dom().contains(
            #[trigger] found[i],
        ) && self.nodes@[found[i]] == c by {
            assert(self.classes@[c].ids().contains(found[i]));
        }
        assert forall|j: int|
            0 <= j < next.len() implies self.nodes@.dom().contains((#[trigger] next[j]).0)
            && self.nodes@[next[j].0] == next[j].1 && next[j].1 < c + 1 by {
            if j >= merged.len() {
                assert(next[j] == added[j - merged.len()]);
                assert(added[j - merged.len()] == (found[j - merged.len()], class));
            } else {
                assert(next[j] == merged[j]);
            }
        }
        assert forall|a: int, b: int| 0 <= a < b < next.len() implies next[a] != next[b] by {
            if b < merged.len() {
                assert(next[a] == merged[a] && next[b] == merged[b]);
            } else if a >= merged.len() {
                assert(next[a] == added[a - merged.len()] && next[b] == added[b - merged.len()]);
            } else {
                assert(next[a] == merged[a]);
                assert(next[b] == added[b - merged.len()]);
            }
        }
        assert forall|d: int| 0 <= d < c + 1 implies is_nearest(
            #[trigger] cands2[d],
            self.classes@[d].ids(),
            target,
            count,
            d as Class,
        ) by {
            if d < c {
                assert(cands2[d] == cands[d]);
            }
        }
        assert forall|d: int, i: int|
            0 <= d < c + 1 && 0 <= i < cands2[d].len() implies next.contains(
            (#[trigger] cands2[d][i], d as Class),
        ) by {
            if d < c {
                assert(cands2[d] == cands[d]);
                assert(merged.contains((cands[d][i], d as Class)));
                let k = choose|k: int| 0 <= k < merged.len() && merged[k] == (cands[d][i], d as Class);
                assert(next[k] == merged[k]);
            } else {
                assert(cands2[d] == found);
                assert(next[merged.len() + i] == added[i]);
            }
        }
    }

    /// Ranking the candidates of all slots together and keeping the first
    /// `count` gives the nearest stored keys overall.
    proof fn lemma_merge_nearest(
        self,
        target: Target,
        count: usize,
        cands: Seq<Seq<NodeId>>,
        before: Seq<(NodeId, Class)>,
        ranked: Seq<(NodeId, Class)>,
        r: Seq<NodeId>,
    )
        requires
            self.wf(),
            self.merge_inv(target, count as nat, cands, before, self.classes@.len() as int),
            ranked.len() == before.len(),
            ranked.to_multiset() == before.to_multiset(),
            is_ranked_pairs(ranked, target, min_len(count, ranked.len() as int)),
            r.len() == min_len(count, ranked.len() as int),
            forall|i: int| 0 <= i < r.len() ==> r[i] == (#[trigger] ranked[i]).0,
        ensures
            is_nearest_classified(r, self@, target, count as nat),
            is_ascending_classified(r, self@, target),
    {
        let m = r.len() as int;
        let nodes = self.nodes@;
        lemma_permutation_members(before, ranked);
        assert forall|j: int|
            0 <= j < ranked.len() implies nodes.dom().contains((#[trigger] ranked[j]).0)
            && nodes[ranked[j].0] == ranked[j].1 by {
            assert(before.contains(ranked[j]));
            let k = choose|k: int| 0 <= k < before.len() && before[k] == ranked[j];
            assert(nodes.dom().contains(before[k].0));
        }
        assert forall|a: int, b: int|
            #![trigger r[a], r[b]]
            0 <= a < b < r.len() implies masked_distance(r[a], target, nodes[r[a]])
            <= masked_distance(r[b], target, nodes[r[b]]) by {
            assert(r[a] == ranked[a].0 && r[b] == ranked[b].0);
            assert(pair_distance(ranked[a], target) <= pair_distance(ranked[b], target));
        }
        assert forall|a: int, b: int| 0 <= a < b < r.len() implies r[a] != r[b] by {
            assert(r[a] == ranked[a].0 && r[b] == ranked[b].0);
            if ranked[a].0 == ranked[b].0 {
                assert(nodes[ranked[a].0] == ranked[a].1);
                assert(nodes[ranked[b].0] == ranked[b].1);
                assert(ranked[a] == ranked[b]);
            }
        }
        assert forall|i: int| 0 <= i < r.len() implies nodes.dom().contains(#[trigger] r[i]) by {
            assert(r[i] == ranked[i].0);
        }
        // A slot whose candidates are not all in `before` gave `count` of them.
        assert forall|d: int| 0 <= d < self.classes@.len() implies (#[trigger] cands[d]).len() <= before.len() by {
            let pairs = cands[d].map_values(|z: NodeId| (z, d as Class));
            assert forall|i: int| 0 <= i < pairs.len() implies before.contains(#[trigger] pairs[i]) by {
                assert(pairs[i] == (cands[d][i], d as Class));
            }
            assert forall|a: int, b: int| 0 <= a < b < pairs.len() implies pairs[a] != pairs[b] by {
                assert(pairs[a] == (cands[d][a], d as Class));
                assert(pairs[b] == (cands[d][b], d as Class));
            }
            lemma_distinct_within(pairs, before);
        }
        if m < count {
            assert forall|y: NodeId| nodes.dom().contains(y) implies r.contains(y) by {
                let d = nodes[y] as int;
                assert(self.classes@[d].ids().contains(y));
                assert(is_nearest(cands[d], self.classes@[d].ids(), target, count as nat, d as Class));
                assert(cands[d].contains(y));
                let i = choose|i: int| 0 <= i < cands[d].len() && cands[d][i] == y;
                assert(before.contains((cands[d][i], d as Class)));
                assert(ranked.contains((y, d as Class)));
                let k = choose|k: int| 0 <= k < ranked.len() && ranked[k] == (y, d as Class);
                assert(r[k] == y);
            }
        }
        assert forall|i: int, y: NodeId|
            #![trigger r[i], nodes.dom().contains(y)]
            0 <= i < r.len() && nodes.dom().contains(y) && !r.contains(y) implies masked_distance(
            r[i],
            target,
            nodes[r[i]],
        ) <= masked_distance(y, target, nodes[y]) by {
            let x = ranked[i];
            assert(r[i] == x.0);
            assert(nodes[x.0] == x.1);
            let d = nodes[y] as int;
            let yp = (y, d as Class);
            assert(pair_distance(yp, target) == masked_distance(y, target, nodes[y]));
            if ranked.contains(yp) {
                let k = choose|k: int| 0 <= k < ranked.len() && ranked[k] == yp;
                if k < m {
                    assert(r[k] == y);
                }
                assert(pair_distance(ranked[i], target) <= pair_distance(ranked[k], target));
            } else {
                assert(self.classes@[d].ids().contains(y));
                let cd = cands[d];
                assert(is_nearest(cd, self.classes@[d].ids(), target, count as nat, d as Class));
                assert(!cd.contains(y)) by {
                    if cd.contains(y) {
                        let q = choose|q: int| 0 <= q < cd.len() && cd[q] == y;
                        assert(before.contains((cd[q], d as Class)));
                    }
                }
                assert(cd.len() == count);
                if pair_distance(x, target) > pair_distance(yp, target) {
                    let pairs = cd.map_values(|z: NodeId| (z, d as Class));
                    let head = ranked.take(i);
                    assert forall|q: int| 0 <= q < pairs.len() implies head.contains(
                        #[trigger] pairs[q],
                    ) by {
                        assert(pairs[q] == (cd[q], d as Class));
                        assert(self.classes@[d].ids().contains(cd[q]));
                        assert(masked_distance(cd[q], target, d as Class) <= masked_distance(
                            y,
                            target,
                            d as Class,
                        ));
                        assert(before.contains(pairs[q]));
                        let k = choose|k: int| 0 <= k < ranked.len() && ranked[k] == pairs[q];
                        if k >= i {
                            if k > i {
                                assert(pair_distance(ranked[i], target) <= pair_distance(
                                    ranked[k],
                                    target,
                                ));
                            }
                        }
                        assert(head[k] == pairs[q]);
                    }
                    assert forall|a: int, b: int| 0 <= a < b < pairs.len() implies pairs[a]
                        != pairs[b] by {
                        assert(pairs[a] == (cd[a], d as Class));
                        assert(pairs[b] == (cd[b], d as Class));
                    }
                    lemma_distinct_within(pairs, head);
                }
            }
        }
    }

    /// Adds `node_id` with class `class`, making room for slots up to that
    /// class. Keys must be distinct.
    pub fn insert_node(&mut self, node_id: NodeId, class: Class)
        requires
            old(self).wf(),
            class < 64,
            !old(self)@.dom().contains(node_id),
        ensures
            final(self).wf(),
            final(self)@ == old(self)@.insert(node_id, class),
            final(self).slots().len() == if (class as int) < old(self).slots().len() {
                old(self).slots().len() as int
            } else {
                class + 1
            },
            forall|d: int|
                0 <= d < old(self).slots().len() && d != class ==> #[trigger] final(self).slots()[d]
                    == old(self).slots()[d],
            forall|d: int|
                old(self).slots().len() <= d < final(self).slots().len() && d != class ==> (
                #[trigger] final(self).slots()[d]) is Naive && final(self).slots()[d]->Naive_0@
                    == Seq::<NodeId>::empty(),
            ({
                let after = final(self).slots()[class as int];
                if (class as int) < old(self).slots().len() {
                    let before = old(self).slots()[class as int];
                    &&& (before is Naive ==> after is Naive && after->Naive_0@
                        == before->Naive_0@.push(node_id))
                    &&& (before is Bin ==> after is Bin)
                    &&& (before is Trie ==> after is Naive)
                } else {
                    after is Naive && after->Naive_0@ == seq![node_id]
                }
            }),
    {
        let ghost old_nodes = self.nodes@;
        let ghost old_slots = self.classes@;
        let c = class as usize;
        while self.classes.len() <= c
            invariant
                self.wf(),
                self.nodes@ == old_nodes,
                c < 64,
                old_slots.len() <= self.classes@.len(),
                self.classes@.len() == old_slots.len() || self.classes@.len() <= c + 1,
                forall|d: int| 0 <= d < old_slots.len() ==> #[trigger] self.classes@[d] == old_slots[d],
                forall|d: int|
                    old_slots.len() <= d < self.classes@.len() ==> (#[trigger] self.classes@[d]) is Naive
                        && self.classes@[d]->Naive_0@ == Seq::<NodeId>::empty(),
            decreases 64 - self.classes@.len(),
        {
            let ghost before = self.classes@;
            let empty: Vec<NodeId> = Vec::new();
            self.classes.push(ClassOverlay::Naive(empty));
            proof {
                let n = before.len() as int;
                assert(self.classes@[n].ids() =~= Set::empty());
                assert forall|d: int, id: NodeId|
                    #![trigger self.classes@[d].ids().contains(id)]
                    0 <= d < self.classes@.len() implies (self.classes@[d].ids().contains(id) <==> (
                    self.nodes@.dom().contains(id) && self.nodes@[id] == d)) by {
                    if d < n {
                        assert(self.classes@[d] == before[d]);
                    }
                }
                assert forall|d: int|
                    0 <= d < self.classes@.len() implies (#[trigger] self.classes@[d]).wf_at(
                    d as Class,
                ) by {
                    if d < n {
                        assert(self.classes@[d] == before[d]);
                    }
                }
            }
        }
        let ghost before = self.classes@;
        let mut slot = ClassOverlay::Naive(Vec::new());
        std::mem::swap(&mut self.classes[c], &mut slot);
        proof {
            assert(slot == before[c as int]);
            assert(!slot.ids().contains(node_id));
        }
        let updated = slot.inserted(node_id, class);
        self.classes[c] = updated;
        self.nodes = Ghost(self.nodes@.insert(node_id, class));
        proof {
            assert(self.classes@ == before.update(c as int, updated));
            assert forall|d: int, id: NodeId|
                #![trigger self.classes@[d].ids().contains(id)]
                0 <= d < self.classes@.len() implies (self.classes@[d].ids().contains(id) <==> (
                self.nodes@.dom().contains(id) && self.nodes@[id] == d)) by {
                if d != c {
                    assert(self.classes@[d] == before[d]);
                    assert(before[d].ids().contains(id) <==> (old_nodes.dom().contains(id)
                        && old_nodes[id] == d));
                } else {
                    assert(before[d].ids().contains(id) <==> (old_nodes.dom().contains(id)
                        && old_nodes[id] == d));
                }
            }
            assert forall|d: int|
                0 <= d < self.classes@.len() implies (#[trigger] self.classes@[d]).wf_at(
                d as Class,
            ) by {
                if d != c {
                    assert(self.classes@[d] == before[d]);
                }
            }
            assert forall|id: NodeId| #[trigger]
                self.nodes@.dom().contains(id) implies self.nodes@[id] < self.classes@.len() by {
                if id != node_id {
                    assert(old_nodes.dom().contains(id));
                }
            }
        }
    }

    /// Promotes every slot by population: `BIN_THRESHOLD` keys or more become
    /// a bin overlay; `TRIE_THRESHOLD` keys or more become a compressed trie,
    /// unless two of them agree on every bit that their class compares; other
    /// slots, and slots promoted before, stay as they are. The stored nodes do
    /// not change, and a second call changes nothing.
    pub fn optimize(&mut self)
        requires
            old(self).wf(),
        ensures
            final(self).wf(),
            final(self)@ == old(self)@,
            final(self).is_optimized(),
            old(self).is_optimized() ==> final(self).slots() == old(self).slots(),
    {
        let ghost orig = self.classes@;
        let ghost orig_nodes = self.nodes@;
        let n = self.classes.len();
        let mut c: usize = 0;
        while c < n
            invariant
                self.wf(),
                self.nodes@ == orig_nodes,
                n == self.classes@.len(),
                n == orig.len(),
                c <= n,
                forall|d: int| 0 <= d < c ==> (#[trigger] self.classes@[d]).is_settled(d as Class),
                forall|d: int| c <= d < n ==> #[trigger] self.classes@[d] == orig[d],
                forall|d: int|
                    0 <= d < c && (#[trigger] orig[d]).is_settled(d as Class) ==> self.classes@[d]
                        == orig[d],
            decreases n - c,
        {
            let ghost before = self.classes@;
            let mut slot = ClassOverlay::Naive(Vec::new());
            std::mem::swap(&mut self.classes[c], &mut slot);
            let promoted = slot.optimized(c as Class);
            self.classes[c] = promoted;
            proof {
                assert(slot == before[c as int]);
                assert(self.classes@ == before.update(c as int, promoted));
                assert forall|d: int, id: NodeId|
                    #![trigger self.classes@[d].ids().contains(id)]
                    0 <= d < self.classes@.len() implies (self.classes@[d].ids().contains(id) <==> (
                    self.nodes@.dom().contains(id) && self.nodes@[id] == d)) by {
                    assert(before[d].ids().contains(id) <==> (self.nodes@.dom().contains(id)
                        && self.nodes@[id] == d));
                }
                assert forall|d: int|
                    0 <= d < self.classes@.len() implies (#[trigger] self.classes@[d]).wf_at(
                    d as Class,
                ) by {
                    if d != c {
                        assert(self.classes@[d] == before[d]);
                    }
                }
            }
            c += 1;
        }
        proof {
            if orig.len() == n && (forall|d: int| 0 <= d < n ==> (#[trigger] orig[d]).is_settled(d as Class)) {
                assert(self.classes@ =~= orig);
            }
        }
    }
}

} // verus!
