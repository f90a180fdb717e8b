//! Binary radix trie over the key bits, from the highest compared bit down.
use vstd::prelude::*;

use crate::metric::{
    agree_from, bit_at, lemma_agree_all, lemma_agree_refl, lemma_agree_step, lemma_agree_top,
    lemma_agree_trans, lemma_bit_order, lemma_bit_values, lemma_class_zero_distinct,
    lemma_distance_basics, masked_distance,
};
use crate::nearest::{is_ascending, is_nearest};
use crate::{Class, NodeId, Target};

verus! {

/// A binary radix trie whose leaves hold the node keys.
///
/// A trie that serves class `c` compares only the low `64 - c` key bits. A
/// fork routes by one bit: keys whose bit is 0 go to `zero`, the others to
/// `one`. `skip` counts the levels above that bit that compression removed,
/// on which every key below the fork agrees.
#[derive(Debug)]
pub struct TrieOverlay {
    data: TrieData,
}

#[derive(Debug)]
enum TrieData {
    Empty,
    Node(NodeId),
    Fork(Box<SubTries>),
}

#[derive(Debug)]
struct SubTries {
    zero: TrieOverlay,
    one: TrieOverlay,
    skip: u32,
}

impl Clone for TrieOverlay {
    fn clone(&self) -> (r: Self)
        ensures
            r == *self,
        decreases self,
    {
        match &self.data {
            TrieData::Empty => TrieOverlay { data: TrieData::Empty },
            TrieData::Node(id) => TrieOverlay { data: TrieData::Node(*id) },
            TrieData::Fork(f) => {
                let zero = f.zero.clone();
                let one = f.one.clone();
                TrieOverlay { data: TrieData::Fork(Box::new(SubTries { zero, one, skip: f.skip })) }
            },
        }
    }
}

impl Default for TrieOverlay {
    fn default() -> (r: Self)
        ensures
            r@ == Set::<NodeId>::empty(),
            r.wf(),
            r.no_skips(),
            r.is_tight(),
    {
        Self::new()
    }
}

impl View for TrieOverlay {
    type V = Set<NodeId>;

    /// The keys held in the leaves.
    closed spec fn view(&self) -> Set<NodeId> {
        self.ids()
    }
}

impl TrieOverlay {
    /// The keys held in the leaves.
    pub closed spec fn ids(self) -> Set<NodeId>
        decreases self,
    {
        match self.data {
            TrieData::Empty => Set::empty(),
            TrieData::Node(id) => set![id],
            TrieData::Fork(f) => f.zero.ids().union(f.one.ids()),
        }
    }

    /// Shape invariant of a trie entered with the `w` lowest bits still to
    /// compare, under the metric of class `class`: each fork routes by a bit
    /// below `w` that all keys of its zero side clear and all of its one side
    /// set, and all keys below the fork agree above that bit.
    pub closed spec fn inv(self, w: int, class: Class) -> bool
        decreases self,
    {
        match self.data {
            TrieData::Fork(f) => {
                let p = w - 1 - f.skip;
                &&& 0 <= p
                &&& f.zero.inv(p, class)
                &&& f.one.inv(p, class)
                &&& forall|x: u64| #[trigger] f.zero.ids().contains(x) ==> bit_at(x, p as u64) == 0
                &&& forall|x: u64| #[trigger] f.one.ids().contains(x) ==> bit_at(x, p as u64) == 1
                &&& forall|x: u64, y: u64|
                    #![trigger self.ids().contains(x), self.ids().contains(y)]
                    self.ids().contains(x) && self.ids().contains(y) ==> agree_from(
                        x,
                        y,
                        (p + 1) as u64,
                        class,
                    )
            },
            _ => true,
        }
    }

    /// Invariant of a trie that serves class `class`.
    pub closed spec fn wf_at(self, class: Class) -> bool {
        class < 64 && self.inv(64 - class, class)
    }

    /// Invariant of a trie over the full XOR metric.
    pub open spec fn wf(self) -> bool {
        self.wf_at(0)
    }

    /// No fork has skipped levels: the trie has not been compressed.
    pub closed spec fn no_skips(self) -> bool
        decreases self,
    {
        match self.data {
            TrieData::Fork(f) => f.skip == 0 && f.zero.no_skips() && f.one.no_skips(),
            _ => true,
        }
    }

    /// Every fork holds two distinct keys or more: a subtree with a single key
    /// is a leaf, and no fork is left without keys.
    pub closed spec fn is_tight(self) -> bool
        decreases self,
    {
        match self.data {
            TrieData::Fork(f) => {
                &&& exists|x: u64, y: u64|
                    x != y && #[trigger] self.ids().contains(x) && #[trigger] self.ids().contains(y)
                &&& f.zero.is_tight()
                &&& f.one.is_tight()
            },
            _ => true,
        }
    }

    /// The trie holds nothing at its root.
    pub closed spec fn is_empty_trie(self) -> bool {
        self.data is Empty
    }

    /// No fork has an empty side.
    pub closed spec fn is_compact(self) -> bool
        decreases self,
    {
        match self.data {
            TrieData::Fork(f) => {
                &&& !f.zero.is_empty_trie()
                &&& !f.one.is_empty_trie()
                &&& f.zero.is_compact()
                &&& f.one.is_compact()
            },
            _ => true,
        }
    }

    /// A trie holds finitely many keys.
    pub proof fn lemma_view_finite(self)
        ensures
            self@.finite(),
        decreases self,
    {
        if let TrieData::Fork(f) = self.data {
            f.zero.lemma_view_finite();
            f.one.lemma_view_finite();
        }
    }

    /// An empty trie.
    pub fn new() -> (r: Self)
        ensures
            r@ == Set::<NodeId>::empty(),
            r.wf(),
            forall|c: Class| c < 64 ==> #[trigger] r.wf_at(c),
            forall|w: int, c: Class| #[trigger] r.inv(w, c),
            r.no_skips(),
            r.is_tight(),
            r.is_compact(),
    {
        Self { data: TrieData::Empty }
    }

    /// Inserts `node_id` into an uncompressed trie over the full XOR metric.
    /// Keys must be distinct.
    pub fn insert_node(&mut self, node_id: NodeId)
        requires
            old(self).wf(),
            old(self).no_skips(),
            old(self).is_tight(),
            !old(self)@.contains(node_id),
        ensures
            final(self).wf(),
            final(self).no_skips(),
            final(self).is_tight(),
            final(self)@ == old(self)@.insert(node_id),
    {
        proof {
            assert forall|y: u64| old(self)@.contains(y) implies masked_distance(node_id, y, 0)
                != 0 by {
                lemma_class_zero_distinct(node_id, y);
            }
        }
        self.insert_classified_node(node_id, 0)
    }

    /// Inserts `node_id` into an uncompressed trie that serves class `class`.
    /// The key must differ from every stored key in the bits that the class
    /// compares.
    pub(crate) fn insert_classified_node(&mut self, node_id: NodeId, class: Class)
        requires
            old(self).wf_at(class),
            old(self).no_skips(),
            old(self).is_tight(),
            forall|y: u64| old(self)@.contains(y) ==> masked_distance(node_id, y, class) != 0,
        ensures
            final(self).wf_at(class),
            final(self).no_skips(),
            final(self).is_tight(),
            final(self)@ == old(self)@.insert(node_id),
    {
        proof {
            assert forall|y: u64| old(self).ids().contains(y) implies agree_from(
                node_id,
                y,
                (64 - class) as u64,
                class,
            ) by {
                lemma_agree_top(node_id, y, class);
            }
        }
        self.insert_node_level(node_id, 64 - class as u32, Ghost(class))
    }

    /// Moves the root out, leaving the trie empty.
    fn take_data(&mut self) -> (d: TrieData)
        ensures
            d == old(self).data,
            final(self).data is Empty,
    {
        let mut d = TrieData::Empty;
        std::mem::swap(&mut self.data, &mut d);
        d
    }

    /// Inserts `node_id` into an uncompressed trie entered with the `width`
    /// lowest bits still to compare; a leaf that meets a second key splits
    /// into a fork at that bit.
    fn insert_node_level(&mut self, node_id: NodeId, width: u32, Ghost(class): Ghost<Class>)
        requires
            old(self).inv(width as int, class),
            old(self).no_skips(),
            old(self).is_tight(),
            width + class <= 64,
            forall|y: u64|
                #[trigger] old(self).ids().contains(y) ==> agree_from(node_id, y, width as u64, class)
                    && masked_distance(node_id, y, class) != 0,
        ensures
            final(self).inv(width as int, class),
            final(self).no_skips(),
            final(self).is_tight(),
            final(self).ids() == old(self).ids().insert(node_id),
        decreases width,
    {
        let ghost old_self = *self;
        let data = self.take_data();
        match data {
            TrieData::Empty => {
                self.data = TrieData::Node(node_id);
                proof {
                    assert(self.ids() =~= old_self.ids().insert(node_id));
                    assert(self.inv(width as int, class));
                }
            },
            TrieData::Node(other) => {
                proof {
                    assert(old_self.ids().contains(other));
                    if width == 0 {
                        lemma_agree_all(node_id, other, class);
                    }
                    lemma_distance_basics(node_id, other, class);
                    lemma_agree_refl(other, width as u64, class);
                    lemma_agree_trans(node_id, other, other, width as u64, class);
                    lemma_agree_refl(node_id, width as u64, class);
                }
                let level = width - 1;
                let mut zero = TrieOverlay::new();
                let mut one = TrieOverlay::new();
                let node_clear = Self::level_bit(node_id, level);
                if node_clear {
                    zero.insert_node_level(node_id, level, Ghost(class));
                } else {
                    one.insert_node_level(node_id, level, Ghost(class));
                }
                let other_clear = Self::level_bit(other, level);
                proof {
                    lemma_bit_values(node_id, level as u64);
                    lemma_bit_values(other, level as u64);
                    if node_clear == other_clear {
                        lemma_agree_step(other, node_id, width as u64, class);
                    }
                }
                if other_clear {
                    zero.insert_node_level(other, level, Ghost(class));
                } else {
                    one.insert_node_level(other, level, Ghost(class));
                }
                self.data = TrieData::Fork(Box::new(SubTries { zero, one, skip: 0 }));
                proof {
                    assert(self.ids() =~= old_self.ids().insert(node_id));
                    let ids = self.ids();
                    assert(ids =~= set![node_id, other]);
                    assert forall|x: u64| #[trigger] zero.ids().contains(x) implies bit_at(
                        x,
                        level as u64,
                    ) == 0 by {
                        if x != node_id {
                            assert(x == other);
                        }
                    }
                    assert forall|x: u64| #[trigger] one.ids().contains(x) implies bit_at(
                        x,
                        level as u64,
                    ) == 1 by {
                        if x != node_id {
                            assert(x == other);
                        }
                    }
                    assert forall|x: u64, y: u64|
                        #![trigger ids.contains(x), ids.contains(y)]
                        ids.contains(x) && ids.contains(y) implies agree_from(
                        x,
                        y,
                        width as u64,
                        class,
                    ) by {
                        assert(x == node_id || x == other);
                        assert(y == node_id || y == other);
                    }
                    assert(zero.inv(level as int, class));
                    assert(one.inv(level as int, class));
                    assert(self.inv(width as int, class));
                    lemma_distance_basics(node_id, node_id, class);
                    assert(node_id != other);
                    assert(ids.contains(node_id) && ids.contains(other));
                    assert(self.is_tight());
                }
            },
            TrieData::Fork(mut fork) => {
                let level = width - 1;
                let node_clear = Self::level_bit(node_id, level);
                let ghost f = *fork;
                proof {
                    lemma_bit_values(node_id, level as u64);
                    assert(f.skip == 0);
                    assert forall|y: u64| #[trigger] f.zero.ids().contains(y) && node_clear implies agree_from(
                        node_id,
                        y,
                        level as u64,
                        class,
                    ) && masked_distance(node_id, y, class) != 0 by {
                        assert(old_self.ids().contains(y));
                        assert(bit_at(y, level as u64) == 0);
                        lemma_agree_step(node_id, y, width as u64, class);
                    }
                    assert forall|y: u64| #[trigger] f.one.ids().contains(y) && !node_clear implies agree_from(
                        node_id,
                        y,
                        level as u64,
                        class,
                    ) && masked_distance(node_id, y, class) != 0 by {
                        assert(old_self.ids().contains(y));
                        assert(bit_at(y, level as u64) == 1);
                        lemma_agree_step(node_id, y, width as u64, class);
                    }
                }
                if node_clear {
                    fork.zero.insert_node_level(node_id, level, Ghost(class));
                } else {
                    fork.one.insert_node_level(node_id, level, Ghost(class));
                }
                self.data = TrieData::Fork(fork);
                proof {
                    let ids = self.ids();
                    assert(ids =~= old_self.ids().insert(node_id));
                    assert forall|x: u64, y: u64|
                        #![trigger ids.contains(x), ids.contains(y)]
                        ids.contains(x) && ids.contains(y) implies agree_from(
                        x,
                        y,
                        width as u64,
                        class,
                    ) by {
                        if x == node_id && y == node_id {
                            lemma_agree_refl(x, width as u64, class);
                        } else if x == node_id {
                            assert(old_self.ids().contains(y));
                        } else if y == node_id {
                            assert(old_self.ids().contains(x));
                            lemma_agree_refl(x, width as u64, class);
                            lemma_agree_trans(y, x, x, width as u64, class);
                        } else {
                            assert(old_self.ids().contains(x));
                            assert(old_self.ids().contains(y));
                        }
                    }
                    assert(self.inv(width as int, class));
                    let (x, y) = choose|x: u64, y: u64|
                        x != y && #[trigger] old_self.ids().contains(x)
                            && #[trigger] old_self.ids().contains(y);
                    assert(ids.contains(x) && ids.contains(y));
                    assert(self.is_tight());
                }
            },
        }
    }

    /// The `count` stored keys closest to `target` by XOR distance (all of
    /// them when there are fewer).
    pub fn find(&self, target: Target, count: usize) -> (r: Vec<NodeId>)
        requires
            self.wf(),
        ensures
            is_nearest(r@, self@, target, count as nat, 0),
            is_ascending(r@, target, 0),
    {
        self.find_classified(target, count, 0)
    }

    /// The `count` stored keys closest to `target` under the metric of class
    /// `class` (all of them when there are fewer).
    pub(crate) fn find_classified(&self, target: Target, count: usize, class: Class) -> (r: Vec<
        NodeId,
    >)
        requires
            self.wf_at(class),
        ensures
            is_nearest(r@, self@, target, count as nat, class),
            is_ascending(r@, target, class),
    {
        self.find_level(target, count, 64 - class as u32, Ghost(class))
    }

    /// Collapses every fork with an empty side into its other side, in place,
    /// so that no fork has an empty side. The stored keys and the answer of
    /// every lookup stay the same, and a trie without such forks is left as
    /// it is.
    pub fn compress(&mut self)
        requires
            old(self).wf(),
        ensures
            final(self).wf(),
            final(self)@ == old(self)@,
            final(self).is_compact(),
            old(self).is_tight() ==> final(self).is_tight(),
            old(self).is_compact() ==> *final(self) == *old(self),
    {
        self.compress_at(Ghost(64), Ghost(0))
    }

    /// As `compress`, for a trie that serves class `class`.
    pub(crate) fn compress_classified(&mut self, Ghost(class): Ghost<Class>)
        requires
            old(self).wf_at(class),
        ensures
            final(self).wf_at(class),
            final(self)@ == old(self)@,
            final(self).is_compact(),
            old(self).is_tight() ==> final(self).is_tight(),
    {
        self.compress_at(Ghost(64 - class), Ghost(class))
    }

    /// Whether the trie holds nothing at its root.
    fn is_empty(&self) -> (r: bool)
        ensures
            r == self.is_empty_trie(),
    {
        match &self.data {
            TrieData::Empty => true,
            _ => false,
        }
    }

    /// Compresses a trie entered with the `width` lowest bits still to compare.
    fn compress_at(&mut self, Ghost(width): Ghost<int>, Ghost(class): Ghost<Class>)
        requires
            old(self).inv(width, class),
            width + class <= 64,
        ensures
            final(self).inv(width, class),
            final(self).ids() == old(self).ids(),
            final(self).is_compact(),
            old(self).is_tight() ==> final(self).is_tight(),
            old(self).is_compact() ==> *final(self) == *old(self),
        decreases *old(self),
    {
        let ghost old_self = *self;
        let data = self.take_data();
        match data {
            TrieData::Fork(fork) => {
                let ghost f = *fork;
                let SubTries { mut zero, mut one, skip } = *fork;
                let ghost p = width - 1 - skip;
                zero.compress_at(Ghost(p), Ghost(class));
                one.compress_at(Ghost(p), Ghost(class));
                let zero_empty = zero.is_empty();
                let one_empty = one.is_empty();
                if !zero_empty && !one_empty {
                    self.data = TrieData::Fork(Box::new(SubTries { zero, one, skip }));
                    proof {
                        assert(self.ids() =~= old_self.ids());
                        assert forall|x: u64| #[trigger] zero.ids().contains(x) implies bit_at(
                            x,
                            p as u64,
                        ) == 0 by {
                            assert(f.zero.ids().contains(x));
                        }
                        assert forall|x: u64| #[trigger] one.ids().contains(x) implies bit_at(
                            x,
                            p as u64,
                        ) == 1 by {
                            assert(f.one.ids().contains(x));
                        }
                        assert(self.inv(width, class));
                    }
                } else {
                    let ghost dropped = if zero_empty {
                        zero
                    } else {
                        one
                    };
                    let kept = if zero_empty {
                        one
                    } else {
                        zero
                    };
                    proof {
                        assert(dropped.ids() =~= Set::empty());
                        assert(old_self.ids() =~= kept.ids());
                    }
                    match kept.data {
                        TrieData::Fork(inner) => {
                            let ghost g = *inner;
                            let SubTries { zero: inner_zero, one: inner_one, skip: inner_skip } =
                                *inner;
                            self.data = TrieData::Fork(
                                Box::new(
                                    SubTries {
                                        zero: inner_zero,
                                        one: inner_one,
                                        skip: skip + inner_skip + 1,
                                    },
                                ),
                            );
                            proof {
                                assert(self.ids() =~= kept.ids());
                                assert(self.inv(width, class));
                            }
                        },
                        other => {
                            self.data = other;
                            proof {
                                assert(self.ids() =~= kept.ids());
                            }
                        },
                    }
                }
            },
            other => {
                self.data = other;
            },
        }
    }

    /// Whether no fork of the trie has an empty side.
    pub fn is_compressed(&self) -> (r: bool)
        ensures
            r == self.is_compact(),
        decreases self,
    {
        match &self.data {
            TrieData::Fork(fork) => !fork.zero.is_empty() && !fork.one.is_empty()
                && fork.zero.is_compressed() && fork.one.is_compressed(),
            _ => true,
        }
    }

    /// The stored keys, each once.
    pub(crate) fn node_ids(&self, Ghost(class): Ghost<Class>) -> (r: Vec<NodeId>)
        requires
            self.wf_at(class),
        ensures
            r@.no_duplicates(),
            r@.to_set() == self@,
    {
        self.node_ids_at(Ghost(64 - class), Ghost(class))
    }

    /// The stored keys of a trie entered with the `width` lowest bits still
    /// to compare, each once.
    fn node_ids_at(&self, Ghost(width): Ghost<int>, Ghost(class): Ghost<Class>) -> (r: Vec<NodeId>)
        requires
            self.inv(width, class),
        ensures
            r@.no_duplicates(),
            r@.to_set() == self.ids(),
        decreases self,
    {
        match &self.data {
            TrieData::Empty => {
                let r = Vec::new();
                proof {
                    assert(r@.to_set() =~= self.ids());
                }
                r
            },
            TrieData::Node(id) => {
                let mut r = Vec::new();
                r.push(*id);
                proof {
                    assert(r@.to_set() =~= self.ids()) by {
                        assert(r@[0] == *id);
                    }
                }
                r
            },
            TrieData::Fork(fork) => {
                let ghost p = width - 1 - fork.skip;
                let mut r = fork.zero.node_ids_at(Ghost(p), Ghost(class));
                let mut rest = fork.one.node_ids_at(Ghost(p), Ghost(class));
                let ghost a = r@;
                let ghost b = rest@;
                r.append(&mut rest);
                proof {
                    assert(r@ == a + b);
                    assert forall|i: int, j: int| 0 <= i < j < r@.len() implies r@[i] != r@[j] by {
                        if i < a.len() && j >= a.len() {
                            assert(a.to_set().contains(a[i]));
                            assert(b.to_set().contains(b[j - a.len()]));
                            assert(bit_at(r@[i], p as u64) == 0);
                            assert(bit_at(r@[j], p as u64) == 1);
                        } else if i >= a.len() {
                            assert(r@[i] == b[i - a.len()] && r@[j] == b[j - a.len()]);
                        }
                    }
                    assert forall|x: u64| r@.to_set().contains(x) <==> self.ids().contains(x) by {
                        if r@.contains(x) {
                            let k = choose|k: int| 0 <= k < r@.len() && r@[k] == x;
                            if k < a.len() {
                                assert(a[k] == x);
                                assert(a.to_set().contains(x));
                            } else {
                                assert(b[k - a.len()] == x);
                                assert(b.to_set().contains(x));
                            }
                        }
                        if a.contains(x) {
                            let k = choose|k: int| 0 <= k < a.len() && a[k] == x;
                            assert(r@[k] == x);
                        }
                        if b.contains(x) {
                            let k = choose|k: int| 0 <= k < b.len() && b[k] == x;
                            assert(r@[k + a.len()] == x);
                        }
                    }
                    assert(r@.to_set() =~= self.ids());
                }
                r
            },
        }
    }

    /// Whether bit `level` of `node_id` is clear.
    fn level_bit(node_id: NodeId, level: u32) -> (r: bool)
        requires
            level < 64,
        ensures
            r == (bit_at(node_id, level as u64) == 0),
    {
        (node_id >> level) & 1 == 0
    }

    /// The `count` stored keys closest to `target` under the metric of
    /// `class`, visiting the side that matches the target's bit first; the
    /// trie is entered with the `width` lowest bits still to compare.
    fn find_level(&self, target: Target, count: usize, width: u32, Ghost(class): Ghost<Class>) -> (r:
        Vec<NodeId>)
        requires
            self.inv(width as int, class),
            width + class <= 64,
        ensures
            is_nearest(r@, self.ids(), target, count as nat, class),
            is_ascending(r@, target, class),
        decreases self,
    {
        match &self.data {
            TrieData::Empty => Vec::new(),
            TrieData::Node(node_id) => {
                if count == 0 {
                    Vec::new()
                } else {
                    let mut r = Vec::new();
                    r.push(*node_id);
                    proof {
                        assert(r@[0] == *node_id);
                        assert(r@.contains(*node_id));
                    }
                    r
                }
            },
            TrieData::Fork(fork) => {
                let level = width - 1 - fork.skip;
                let target_clear = Self::level_bit(target, level);
                let (primary, secondary) = if target_clear {
                    (&fork.zero, &fork.one)
                } else {
                    (&fork.one, &fork.zero)
                };
                let mut r = primary.find_level(target, count, level, Ghost(class));
                let ghost r1 = r@;
                let ghost r2 = Seq::<u64>::empty();
                if r.len() < count {
                    let mut rest = secondary.find_level(target, count - r.len(), level, Ghost(class));
                    proof {
                        r2 = rest@;
                    }
                    r.append(&mut rest);
                }
                proof {
                    self.lemma_fork_find(target, count, width, class, r1, r2);
                    assert(r@ =~= r1 + r2);
                }
                r
            },
        }
    }

    /// Joining the nearest keys of the side that matches the target's bit with
    /// those of the other side gives the nearest keys of the fork.
    proof fn lemma_fork_find(
        self,
        target: u64,
        count: usize,
        width: u32,
        class: Class,
        r1: Seq<u64>,
        r2: Seq<u64>,
    )
        requires
            self.inv(width as int, class),
            width + class <= 64,
            self.data is Fork,
            ({
                let f = self.data->Fork_0;
                let p = width - 1 - f.skip;
                let (prim, sec) = if bit_at(target, p as u64) == 0 {
                    (f.zero, f.one)
                } else {
                    (f.one, f.zero)
                };
                &&& is_nearest(r1, prim.ids(), target, count as nat, class)
                &&& is_ascending(r1, target, class)
                &&& is_ascending(r2, target, class)
                &&& (r1.len() < count ==> is_nearest(
                    r2,
                    sec.ids(),
                    target,
                    (count - r1.len()) as nat,
                    class,
                ))
                &&& (r1.len() >= count ==> r2.len() == 0)
            }),
        ensures
            is_nearest(r1 + r2, self.ids(), target, count as nat, class),
            is_ascending(r1 + r2, target, class),
    {
        let f = self.data->Fork_0;
        let p = width - 1 - f.skip;
        let pu = p as u64;
        let t_bit = bit_at(target, pu);
        lemma_bit_values(target, pu);
        let (prim, sec) = if t_bit == 0 {
            (f.zero, f.one)
        } else {
            (f.one, f.zero)
        };
        let r = r1 + r2;
        let ids = self.ids();
        assert(ids == prim.ids().union(sec.ids()));
        assert forall|x: u64| prim.ids().contains(x) implies bit_at(x, pu) == t_bit by {
            if t_bit == 0 {
                assert(f.zero.ids().contains(x));
            } else {
                assert(f.one.ids().contains(x));
            }
        }
        assert forall|x: u64| sec.ids().contains(x) implies bit_at(x, pu) != t_bit by {
            if t_bit == 0 {
                assert(f.one.ids().contains(x));
            } else {
                assert(f.zero.ids().contains(x));
            }
        }
        assert forall|i: int| 0 <= i < r.len() implies ids.contains(#[trigger] r[i]) by {
            if i < r1.len() {
                assert(r[i] == r1[i]);
            } else {
                assert(r[i] == r2[i - r1.len()]);
            }
        }
        assert forall|i: int, j: int| 0 <= i < j < r.len() implies r[i] != r[j] by {
            if j < r1.len() {
                assert(r[i] == r1[i] && r[j] == r1[j]);
            } else if i >= r1.len() {
                assert(r[i] == r2[i - r1.len()] && r[j] == r2[j - r1.len()]);
            } else {
                assert(r[i] == r1[i] && r[j] == r2[j - r1.len()]);
                assert(prim.ids().contains(r1[i]));
                assert(sec.ids().contains(r2[j - r1.len()]));
            }
        }
        assert forall|y: u64| r.contains(y) <==> (r1.contains(y) || r2.contains(y)) by {
            if r.contains(y) {
                let k = choose|k: int| 0 <= k < r.len() && r[k] == y;
                if k < r1.len() {
                    assert(r1[k] == y);
                } else {
                    assert(r2[k - r1.len()] == y);
                }
            }
            if r1.contains(y) {
                let k = choose|k: int| 0 <= k < r1.len() && r1[k] == y;
                assert(r[k] == y);
            }
            if r2.contains(y) {
                let k = choose|k: int| 0 <= k < r2.len() && r2[k] == y;
                assert(r[k + r1.len()] == y);
            }
        }
        if r.len() < count {
            assert forall|id: u64| ids.contains(id) implies r.contains(id) by {
                if prim.ids().contains(id) {
                    assert(r1.contains(id));
                } else {
                    assert(r2.contains(id));
                }
            }
        }
        assert forall|i: int, id: u64|
            #![trigger r[i], ids.contains(id)]
            0 <= i < r.len() && ids.contains(id) && !r.contains(id) implies masked_distance(
            r[i],
            target,
            class,
        ) <= masked_distance(id, target, class) by {
            if i < r1.len() {
                assert(r[i] == r1[i]);
                assert(prim.ids().contains(r1[i]));
                if prim.ids().contains(id) {
                } else {
                    assert(ids.contains(r1[i]));
                    assert(agree_from(r1[i], id, (p + 1) as u64, class));
                    lemma_bit_values(r1[i], pu);
                    lemma_bit_values(id, pu);
                    lemma_bit_order(r1[i], id, target, pu, class);
                }
            } else {
                assert(r[i] == r2[i - r1.len()]);
                if prim.ids().contains(id) {
                    assert(r1.contains(id));
                } else {
                }
            }
        }
        assert forall|i: int, j: int|
            #![trigger r[i], r[j]]
            0 <= i < j < r.len() implies masked_distance(r[i], target, class) < masked_distance(
            r[j],
            target,
            class,
        ) by {
            if j < r1.len() {
                assert(r[i] == r1[i] && r[j] == r1[j]);
            } else if i >= r1.len() {
                assert(r[i] == r2[i - r1.len()] && r[j] == r2[j - r1.len()]);
            } else {
                let x = r1[i];
                let y = r2[j - r1.len()];
                assert(r[i] == x && r[j] == y);
                assert(prim.ids().contains(x));
                assert(sec.ids().contains(y));
                assert(ids.contains(x) && ids.contains(y));
                assert(agree_from(x, y, (p + 1) as u64, class));
                lemma_bit_values(x, pu);
                lemma_bit_values(y, pu);
                lemma_bit_order(x, y, target, pu, class);
            }
        }
    }
}

} // verus!
