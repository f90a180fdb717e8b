//! What a lookup owes: the `k` closest keys, and the in-place ranking that
//! produces them from a plain list.
use vstd::prelude::*;
use vstd::seq_lib::to_multiset_update;

use crate::metric::masked_distance;

verus! {

/// `r` holds the `k` members of `ids` closest to `target` under the metric of
/// class `class` (all of them when `ids` has fewer), each once; ties between
/// equally distant members may go either way.
pub open spec fn is_nearest(r: Seq<u64>, ids: Set<u64>, target: u64, k: nat, class: u8) -> bool {
    &&& r.no_duplicates()
    &&& r.len() <= k
    &&& forall|i: int| 0 <= i < r.len() ==> ids.contains(#[trigger] r[i])
    &&& (r.len() == k || forall|id: u64| ids.contains(id) ==> r.contains(id))
    &&& forall|i: int, id: u64|
        #![trigger r[i], ids.contains(id)]
        0 <= i < r.len() && ids.contains(id) && !r.contains(id) ==> masked_distance(
            r[i],
            target,
            class,
        ) <= masked_distance(id, target, class)
}

/// As `is_nearest`, where every node is measured with the metric of its own
/// class, `nodes[id]`.
pub open spec fn is_nearest_classified(
    r: Seq<u64>,
    nodes: Map<u64, u8>,
    target: u64,
    k: nat,
) -> bool {
    &&& r.no_duplicates()
    &&& r.len() <= k
    &&& forall|i: int| 0 <= i < r.len() ==> nodes.dom().contains(#[trigger] r[i])
    &&& (r.len() == k || forall|id: u64| nodes.dom().contains(id) ==> r.contains(id))
    &&& forall|i: int, id: u64|
        #![trigger r[i], nodes.dom().contains(id)]
        0 <= i < r.len() && nodes.dom().contains(id) && !r.contains(id) ==> masked_distance(
            r[i],
            target,
            nodes[r[i]],
        ) <= masked_distance(id, target, nodes[id])
}

/// The entries of `r` are in strictly ascending order of distance to
/// `target` under the metric of class `class`.
pub open spec fn is_ascending(r: Seq<u64>, target: u64, class: u8) -> bool {
    forall|i: int, j: int|
        #![trigger r[i], r[j]]
        0 <= i < j < r.len() ==> masked_distance(r[i], target, class) < masked_distance(
            r[j],
            target,
            class,
        )
}

/// The keys of `r` are in ascending order of distance to `target`, each
/// measured under its own class `nodes[id]`.
pub open spec fn is_ascending_classified(r: Seq<u64>, nodes: Map<u64, u8>, target: u64) -> bool {
    forall|i: int, j: int|
        #![trigger r[i], r[j]]
        0 <= i < j < r.len() ==> masked_distance(r[i], target, nodes[r[i]]) <= masked_distance(
            r[j],
            target,
            nodes[r[j]],
        )
}

/// The first `m` entries of `s` are in ascending order of distance to
/// `target`, and none is farther than any entry after them.
pub open spec fn is_ranked(s: Seq<u64>, target: u64, class: u8, m: int) -> bool {
    &&& 0 <= m <= s.len()
    &&& forall|i: int, j: int|
        #![trigger s[i], s[j]]
        0 <= i < m && i < j < s.len() ==> masked_distance(s[i], target, class) <= masked_distance(
            s[j],
            target,
            class,
        )
}

/// Distance of a classified node to `target` under its own class.
pub open spec fn pair_distance(p: (u64, u8), target: u64) -> u64 {
    masked_distance(p.0, target, p.1)
}

/// As `is_ranked`, for classified nodes.
pub open spec fn is_ranked_pairs(s: Seq<(u64, u8)>, target: u64, m: int) -> bool {
    &&& 0 <= m <= s.len()
    &&& forall|i: int, j: int|
        #![trigger s[i], s[j]]
        0 <= i < m && i < j < s.len() ==> pair_distance(s[i], target) <= pair_distance(s[j], target)
}

/// The smaller of `count` and `len`: how many entries a lookup keeps.
pub open spec fn min_len(count: usize, len: int) -> int {
    if (count as int) < len {
        count as int
    } else {
        len
    }
}

/// Exchanging two entries keeps the multiset of entries.
proof fn lemma_swap_multiset<A>(s: Seq<A>, i: int, j: int)
    requires
        0 <= i < s.len(),
        0 <= j < s.len(),
    ensures
        s.update(i, s[j]).update(j, s[i]).to_multiset() == s.to_multiset(),
{
    broadcast use to_multiset_update;
    broadcast use vstd::multiset::group_multiset_axioms;

    let m0 = s.to_multiset();
    s.to_multiset_ensures();
    assert(s.contains(s[i]));
    assert(m0.count(s[i]) > 0);
    let s1 = s.update(i, s[j]);
    assert(s1.len() == s.len());
    assert(s1.to_multiset() == m0.insert(s[j]).remove(s[i]));
    assert(s1[j] == s[j]);
    assert(s1.update(j, s[i]).to_multiset() == m0.insert(s[j]).remove(s[i]).insert(s[i]).remove(
        s[j],
    ));
    assert(m0.insert(s[j]).remove(s[i]).insert(s[i]).remove(s[j]) =~= m0);
}

/// Reorders `ids` in place so that its first `min(count, len)` entries are the
/// closest to `target` under the metric of class `class`, in ascending order.
pub fn rank_by_distance(ids: &mut [u64], target: u64, class: u8, count: usize)
    requires
        class < 64,
    ensures
        final(ids)@.len() == old(ids)@.len(),
        final(ids)@.to_multiset() == old(ids)@.to_multiset(),
        is_ranked(final(ids)@, target, class, min_len(count, old(ids)@.len() as int)),
{
    let ghost orig = ids@;
    let n = ids.len();
    let m = if count < n {
        count
    } else {
        n
    };
    let mask = u64::MAX >> class;
    let mut i: usize = 0;
    while i < m
        invariant
            ids@.len() == n,
            n == orig.len(),
            m == min_len(count, n as int),
            i <= m,
            mask == u64::MAX >> (class as u64),
            ids@.to_multiset() == orig.to_multiset(),
            is_ranked(ids@, target, class, i as int),
        decreases m - i,
    {
        let mut best: usize = i;
        let mut best_d: u64 = (ids[i] ^ target) & mask;
        let mut j: usize = i + 1;
        while j < n
            invariant
                ids@.len() == n,
                i < n,
                i <= best < j <= n,
                mask == u64::MAX >> (class as u64),
                best_d == masked_distance(ids@[best as int], target, class),
                forall|l: int|
                    i <= l < j ==> best_d <= masked_distance(#[trigger] ids@[l], target, class),
            decreases n - j,
        {
            let d: u64 = (ids[j] ^ target) & mask;
            if d < best_d {
                best = j;
                best_d = d;
            }
            j += 1;
        }
        let ghost before = ids@;
        let a = ids[i];
        let b = ids[best];
        ids[i] = b;
        ids[best] = a;
        proof {
            lemma_swap_multiset(before, i as int, best as int);
            assert(ids@ == before.update(i as int, before[best as int]).update(
                best as int,
                before[i as int],
            ));
            assert forall|p: int, q: int|
                #![trigger ids@[p], ids@[q]]
                0 <= p < i + 1 && p < q < n implies masked_distance(
                ids@[p],
                target,
                class,
            ) <= masked_distance(ids@[q], target, class) by {
                if p < i {
                    assert(before[p] == ids@[p]);
                    if q == best {
                        assert(ids@[q] == before[i as int]);
                    } else if q == i {
                        assert(ids@[q] == before[best as int]);
                    } else {
                        assert(ids@[q] == before[q]);
                    }
                } else {
                    if q == best {
                        assert(ids@[q] == before[i as int]);
                    } else {
                        assert(ids@[q] == before[q]);
                    }
                }
            }
        }
        i += 1;
    }
}

/// Reorders `ids` in place so that its first `min(count, len)` entries are the
/// closest to `target`, each under its own class, in ascending order.
pub fn rank_pairs_by_distance(ids: &mut [(u64, u8)], target: u64, count: usize)
    requires
        forall|i: int| 0 <= i < old(ids)@.len() ==> (#[trigger] old(ids)@[i]).1 < 64,
    ensures
        final(ids)@.len() == old(ids)@.len(),
        final(ids)@.to_multiset() == old(ids)@.to_multiset(),
        is_ranked_pairs(final(ids)@, target, min_len(count, old(ids)@.len() as int)),
{
    let ghost orig = ids@;
    let n = ids.len();
    let m = if count < n {
        count
    } else {
        n
    };
    let mut i: usize = 0;
    while i < m
        invariant
            ids@.len() == n,
            n == orig.len(),
            m == min_len(count, n as int),
            i <= m,
            forall|l: int| 0 <= l < n ==> (#[trigger] ids@[l]).1 < 64,
            ids@.to_multiset() == orig.to_multiset(),
            is_ranked_pairs(ids@, target, i as int),
        decreases m - i,
    {
        let mut best: usize = i;
        let mut best_d: u64 = (ids[i].0 ^ target) & (u64::MAX >> ids[i].1);
        let mut j: usize = i + 1;
        while j < n
            invariant
                ids@.len() == n,
                i < n,
                i <= best < j <= n,
                forall|l: int| 0 <= l < n ==> (#[trigger] ids@[l]).1 < 64,
                best_d == pair_distance(ids@[best as int], target),
                forall|l: int| i <= l < j ==> best_d <= pair_distance(#[trigger] ids@[l], target),
            decreases n - j,
        {
            let d: u64 = (ids[j].0 ^ target) & (u64::MAX >> ids[j].1);
            if d < best_d {
                best = j;
                best_d = d;
            }
            j += 1;
        }
        let ghost before = ids@;
        let a = ids[i];
        let b = ids[best];
        ids[i] = b;
        ids[best] = a;
        proof {
            lemma_swap_multiset(before, i as int, best as int);
            assert(ids@ == before.update(i as int, before[best as int]).update(
                best as int,
                before[i as int],
            ));
            assert forall|p: int, q: int|
                #![trigger ids@[p], ids@[q]]
                0 <= p < i + 1 && p < q < n implies pair_distance(ids@[p], target)
                <= pair_distance(ids@[q], target) by {
                if p < i {
                    assert(before[p] == ids@[p]);
                    if q == best {
                        assert(ids@[q] == before[i as int]);
                    } else if q == i {
                        assert(ids@[q] == before[best as int]);
                    } else {
                        assert(ids@[q] == before[q]);
                    }
                } else {
                    if q == best {
                        assert(ids@[q] == before[i as int]);
                    } else {
                        assert(ids@[q] == before[q]);
                    }
                }
            }
        }
        i += 1;
    }
}

/// A reordering keeps the members, and keeps a list free of repeats.
pub proof fn lemma_permutation_members<A>(a: Seq<A>, b: Seq<A>)
    requires
        a.to_multiset() == b.to_multiset(),
    ensures
        forall|x: A| a.contains(x) <==> b.contains(x),
        a.no_duplicates() ==> b.no_duplicates(),
{
    a.to_multiset_ensures();
    b.to_multiset_ensures();
    assert forall|x: A| a.contains(x) <==> b.contains(x) by {
        assert(a.contains(x) <==> a.to_multiset().count(x) > 0);
        assert(b.contains(x) <==> b.to_multiset().count(x) > 0);
    }
    if a.no_duplicates() {
        a.lemma_multiset_has_no_duplicates();
        b.lemma_multiset_has_no_duplicates_conv();
    }
}

/// The ranked prefix of a list without repeats is its nearest subset.
pub proof fn lemma_ranked_is_nearest(s: Seq<u64>, target: u64, class: u8, count: usize)
    requires
        s.no_duplicates(),
        is_ranked(s, target, class, min_len(count, s.len() as int)),
    ensures
        is_nearest(
            s.take(min_len(count, s.len() as int)),
            s.to_set(),
            target,
            count as nat,
            class,
        ),
{
    let m = min_len(count, s.len() as int);
    let r = s.take(m);
    assert forall|i: int, id: u64|
        #![trigger r[i], s.to_set().contains(id)]
        0 <= i < r.len() && s.to_set().contains(id) && !r.contains(id) implies masked_distance(
        r[i],
        target,
        class,
    ) <= masked_distance(id, target, class) by {
        let j = choose|j: int| 0 <= j < s.len() && s[j] == id;
        if j < m {
            assert(r[j] == id);
        }
        assert(r[i] == s[i]);
    }
    assert forall|i: int| 0 <= i < r.len() implies s.to_set().contains(#[trigger] r[i]) by {
        assert(r[i] == s[i]);
    }
    if m < count {
        assert(r =~= s);
    }
}

/// The `count` keys of `ids` closest to `target` under the metric of class
/// `class`, taken from a ranked copy of the list.
pub fn nearest_in_list(ids: &Vec<u64>, target: u64, class: u8, count: usize) -> (r: Vec<u64>)
    requires
        class < 64,
        ids@.no_duplicates(),
    ensures
        is_nearest(r@, ids@.to_set(), target, count as nat, class),
{
    let mut copy = ids.clone();
    assert(copy@ == ids@);
    rank_by_distance(copy.as_mut_slice(), target, class, count);
    let n = copy.len();
    let m = if count < n {
        count
    } else {
        n
    };
    let mut r: Vec<u64> = Vec::new();
    let mut i: usize = 0;
    while i < m
        invariant
            m <= n,
            n == copy@.len(),
            i <= m,
            r@ == copy@.take(i as int),
        decreases m - i,
    {
        r.push(copy[i]);
        i += 1;
        assert(r@ =~= copy@.take(i as int));
    }
    proof {
        lemma_permutation_members(ids@, copy@);
        lemma_ranked_is_nearest(copy@, target, class, count);
        assert(ids@.to_set() =~= copy@.to_set());
    }
    r
}

/// A list without repeats, each of whose entries occurs in `b`, is no longer
/// than `b`.
pub proof fn lemma_distinct_within<A>(a: Seq<A>, b: Seq<A>)
    requires
        a.no_duplicates(),
        forall|i: int| 0 <= i < a.len() ==> b.contains(#[trigger] a[i]),
    ensures
        a.len() <= b.len(),
{
    a.unique_seq_to_set();
    b.lemma_cardinality_of_set();
    assert(a.to_set().subset_of(b.to_set())) by {
        assert forall|x: A| a.to_set().contains(x) implies b.to_set().contains(x) by {
            let i = choose|i: int| 0 <= i < a.len() && a[i] == x;
            assert(b.contains(a[i]));
        }
    }
    vstd::set_lib::lemma_len_subset(a.to_set(), b.to_set());
}

} // verus!
