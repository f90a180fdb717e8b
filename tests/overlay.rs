use std::collections::{HashMap, HashSet};

use storage_simulation::classified;
use storage_simulation::{distance, find, BinOverlay, Classified, Overlay, TrieOverlay};

/// splitmix64: a small deterministic stream of keys for the tests.
struct Keys(u64);

impl Keys {
    fn next(&mut self) -> u64 {
        self.0 = self.0.wrapping_add(0x9E37_79B9_7F4A_7C15);
        let mut z = self.0;
        z = (z ^ (z >> 30)).wrapping_mul(0xBF58_476D_1CE4_E5B9);
        z = (z ^ (z >> 27)).wrapping_mul(0x94D0_49BB_1331_11EB);
        z ^ (z >> 31)
    }

    fn distinct(&mut self, n: usize) -> Vec<u64> {
        let mut seen = HashSet::new();
        let mut out = Vec::new();
        while out.len() < n {
            let k = self.next();
            if seen.insert(k) {
                out.push(k);
            }
        }
        out
    }
}

fn sorted(mut v: Vec<u64>) -> Vec<u64> {
    v.sort_unstable();
    v
}

/// The `k` keys of smallest XOR distance, as a sorted list.
fn xor_oracle(ids: &[u64], target: u64, k: usize) -> Vec<u64> {
    let mut v = ids.to_vec();
    v.sort_unstable_by_key(|&id| id ^ target);
    v.truncate(k);
    sorted(v)
}

fn masked(id: u64, target: u64, class: u8) -> u64 {
    (id ^ target) & (u64::MAX >> class)
}

fn assert_no_duplicates(r: &[u64]) {
    let set: HashSet<u64> = r.iter().copied().collect();
    assert_eq!(set.len(), r.len());
}

/// Checks a classified lookup: right length, no repeats, stored keys only,
/// and no returned key farther than the `k`-th smallest masked distance.
fn check_classified(r: &[u64], nodes: &HashMap<u64, u8>, target: u64, k: usize) {
    assert_eq!(r.len(), k.min(nodes.len()));
    assert_no_duplicates(r);
    let mut distances: Vec<u64> = nodes.iter().map(|(&id, &c)| masked(id, target, c)).collect();
    distances.sort_unstable();
    for id in r {
        let class = nodes[id];
        assert!(masked(*id, target, class) <= distances[k - 1]);
    }
}

#[test]
fn empty_overlays_find_nothing() {
    let bin = BinOverlay::new();
    let trie = TrieOverlay::new();
    let classified = Classified::new();
    assert_eq!(bin.find(0, 3), Vec::<u64>::new());
    assert_eq!(trie.find(0, 3), Vec::<u64>::new());
    assert_eq!(classified.find(0, 3), Vec::<u64>::new());
    assert_eq!(bin.find(0xDEAD, 0), Vec::<u64>::new());
    assert_eq!(trie.find(0xDEAD, 0), Vec::<u64>::new());
    assert_eq!(classified.find(0xDEAD, 0), Vec::<u64>::new());
}

#[test]
fn single_node_is_found() {
    let id = 0x0123_4567_89AB_CDEF;
    let mut bin = BinOverlay::new();
    bin.insert_node(id);
    let mut trie = TrieOverlay::new();
    trie.insert_node(id);
    let mut classified = Classified::new();
    classified.insert_node(id, 0);
    assert_eq!(bin.find(id, 1), vec![id]);
    assert_eq!(bin.find(0, 5), vec![id]);
    assert_eq!(trie.find(id, 1), vec![id]);
    assert_eq!(trie.find(0, 5), vec![id]);
    assert_eq!(classified.find(id, 1), vec![id]);
    assert_eq!(classified.find(0, 5), vec![id]);
}

#[test]
fn bin_overflow_in_one_bucket() {
    let mut bin = BinOverlay::new();
    for id in [
        0xFFE0_0000_0000_0000,
        0xFFE0_0000_0000_0001,
        0xFFE0_0000_0000_0002,
        0xFFE0_0000_0000_0003,
    ] {
        bin.insert_node(id);
    }
    let r = bin.find(0xFFE0_0000_0000_0000, 2);
    assert_eq!(sorted(r), vec![0xFFE0_0000_0000_0000, 0xFFE0_0000_0000_0001]);
}

#[test]
fn trie_split_across_top_bit() {
    let mut trie = TrieOverlay::new();
    trie.insert_node(0x0000_0000_0000_0001);
    trie.insert_node(0x8000_0000_0000_0000);
    assert!(trie.is_compressed());
    assert_eq!(trie.find(0, 2), vec![0x0000_0000_0000_0001, 0x8000_0000_0000_0000]);
}

#[test]
fn trie_compression_chain() {
    let mut trie = TrieOverlay::new();
    trie.insert_node(0x0000_0000_0000_0001);
    trie.insert_node(0x0000_0000_0000_0002);
    assert!(!trie.is_compressed());
    assert_eq!(trie.find(0, 2), vec![1, 2]);
    assert_eq!(trie.find(0x0000_0000_0000_0001, 1), vec![1]);
    trie.compress();
    assert!(trie.is_compressed());
    assert_eq!(trie.find(0, 2), vec![1, 2]);
    assert_eq!(trie.find(0x0000_0000_0000_0001, 1), vec![1]);
    assert_eq!(trie.find(0x0000_0000_0000_0002, 1), vec![2]);
}

#[test]
fn classified_matches_bin_at_class_zero() {
    let mut keys = Keys(7);
    let ids = keys.distinct(600);
    let mut bin = BinOverlay::new();
    let mut classified = Classified::new();
    for &id in &ids {
        bin.insert_node(id);
        classified.insert_node(id, 0);
    }
    classified.optimize();
    for _ in 0..20 {
        let target = keys.next();
        for k in [0, 1, 2, 5, 17, 600, 700] {
            assert_eq!(sorted(classified.find(target, k)), sorted(bin.find(target, k)));
        }
    }
}

#[test]
fn classified_mask_tolerance() {
    let mut classified = Classified::new();
    classified.insert_node(0xAAAA_AAAA_AAAA_AAAA, 60);
    classified.insert_node(0x5555_5555_5555_5555, 0);
    assert_eq!(classified.find(0, 1), vec![0xAAAA_AAAA_AAAA_AAAA]);
    classified.optimize();
    assert_eq!(classified.find(0, 1), vec![0xAAAA_AAAA_AAAA_AAAA]);
}

#[test]
fn bin_and_trie_return_the_nearest_keys() {
    let mut keys = Keys(1);
    for n in [1, 2, 3, 10, 100, 1000] {
        let ids = keys.distinct(n);
        let mut bin = BinOverlay::new();
        let mut trie = TrieOverlay::new();
        for &id in &ids {
            bin.insert_node(id);
            trie.insert_node(id);
        }
        let mut compressed = trie.clone();
        compressed.compress();
        assert!(compressed.is_compressed());
        for _ in 0..10 {
            let target = keys.next();
            for k in [0, 1, 2, 3, 7, n, n + 3] {
                let expected = xor_oracle(&ids, target, k);
                let from_bin = bin.find(target, k);
                let from_trie = trie.find(target, k);
                let from_compressed = compressed.find(target, k);
                assert_no_duplicates(&from_bin);
                assert_no_duplicates(&from_trie);
                assert_eq!(sorted(from_bin), expected);
                assert_eq!(sorted(from_trie), expected);
                assert_eq!(sorted(from_compressed), expected);
            }
        }
    }
}

#[test]
fn trie_returns_keys_in_ascending_distance() {
    let mut keys = Keys(3);
    let ids = keys.distinct(200);
    let mut trie = TrieOverlay::new();
    for &id in &ids {
        trie.insert_node(id);
    }
    trie.compress();
    let target = keys.next();
    let r = trie.find(target, 20);
    let distances: Vec<u64> = r.iter().map(|&id| distance(id, target)).collect();
    let mut ascending = distances.clone();
    ascending.sort_unstable();
    assert_eq!(distances, ascending);
}

#[test]
fn keys_sharing_a_bucket_or_a_prefix() {
    let ids: Vec<u64> = (0..40u64).map(|i| 0x1230_0000_0000_0000 | (i * 0x101)).collect();
    let mut bin = BinOverlay::new();
    let mut trie = TrieOverlay::new();
    for &id in &ids {
        bin.insert_node(id);
        trie.insert_node(id);
    }
    trie.compress();
    for target in [0, 0x1230_0000_0000_0505, u64::MAX] {
        for k in [1, 4, 39, 40, 41] {
            let expected = xor_oracle(&ids, target, k);
            assert_eq!(sorted(bin.find(target, k)), expected);
            assert_eq!(sorted(trie.find(target, k)), expected);
        }
    }
}

#[test]
fn classified_stays_within_kth_distance() {
    let mut keys = Keys(11);
    let ids = keys.distinct(1500);
    let mut nodes = HashMap::new();
    let mut overlay = Classified::new();
    for (i, &id) in ids.iter().enumerate() {
        // classes 3 and 5 grow past the bin threshold, class 9 lands in a trie
        let class = match i % 10 {
            0..=3 => 3,
            4..=7 => 5,
            8 => 9,
            _ => (id % 64) as u8,
        };
        nodes.insert(id, class);
        overlay.insert_node(id, class);
    }
    let mut optimized = overlay.clone();
    optimized.optimize();
    for _ in 0..10 {
        let target = keys.next();
        for k in [1, 2, 3, 10, 50] {
            check_classified(&overlay.find(target, k), &nodes, target, k);
            check_classified(&optimized.find(target, k), &nodes, target, k);
        }
    }
    assert_eq!(sorted(optimized.find(0, 5000)), sorted(ids.clone()));
}

#[test]
fn classified_node_finds_itself() {
    let mut keys = Keys(5);
    let ids = keys.distinct(300);
    let mut overlay = Classified::new();
    for (i, &id) in ids.iter().enumerate() {
        overlay.insert_node(id, (i % 4) as u8);
    }
    overlay.optimize();
    for &id in &ids {
        assert_eq!(overlay.find(id, 1), vec![id]);
    }
}

#[test]
fn classified_results_have_no_duplicates() {
    let mut keys = Keys(13);
    let ids = keys.distinct(400);
    let mut overlay = Classified::new();
    for (i, &id) in ids.iter().enumerate() {
        overlay.insert_node(id, (i % 7) as u8 * 9);
    }
    for round in 0..2 {
        for _ in 0..10 {
            let target = keys.next();
            let r = overlay.find(target, 60);
            assert_eq!(r.len(), 60);
            assert_no_duplicates(&r);
        }
        if round == 0 {
            overlay.optimize();
        }
    }
}

#[test]
fn compress_twice_is_compress_once() {
    let mut keys = Keys(17);
    let ids = keys.distinct(100);
    let mut trie = TrieOverlay::new();
    for &id in &ids {
        trie.insert_node(id);
    }
    let mut once = trie.clone();
    once.compress();
    let mut twice = once.clone();
    twice.compress();
    assert!(once.is_compressed());
    assert!(twice.is_compressed());
    for _ in 0..10 {
        let target = keys.next();
        assert_eq!(once.find(target, 9), twice.find(target, 9));
        assert_eq!(sorted(once.find(target, 9)), sorted(trie.find(target, 9)));
    }
}

#[test]
fn optimize_twice_is_optimize_once() {
    let mut keys = Keys(19);
    let ids = keys.distinct(800);
    let mut overlay = Classified::new();
    for (i, &id) in ids.iter().enumerate() {
        overlay.insert_node(id, if i < 600 { 2 } else { (i % 3) as u8 + 10 });
    }
    overlay.optimize();
    let mut again = overlay.clone();
    again.optimize();
    for _ in 0..10 {
        let target = keys.next();
        for k in [1, 3, 30] {
            assert_eq!(overlay.find(target, k), again.find(target, k));
        }
    }
}

#[test]
fn insert_order_does_not_change_lookups() {
    let mut keys = Keys(23);
    let ids = keys.distinct(300);
    let mut forward = BinOverlay::new();
    let mut backward = BinOverlay::new();
    let mut trie_forward = TrieOverlay::new();
    let mut trie_backward = TrieOverlay::new();
    for &id in &ids {
        forward.insert_node(id);
        trie_forward.insert_node(id);
    }
    for &id in ids.iter().rev() {
        backward.insert_node(id);
        trie_backward.insert_node(id);
    }
    for _ in 0..10 {
        let target = keys.next();
        for k in [1, 5, 40] {
            let expected = sorted(forward.find(target, k));
            assert_eq!(sorted(backward.find(target, k)), expected);
            assert_eq!(sorted(trie_forward.find(target, k)), expected);
            assert_eq!(sorted(trie_backward.find(target, k)), expected);
        }
    }
}

#[test]
fn classified_insert_after_optimize() {
    let mut keys = Keys(29);
    let ids = keys.distinct(700);
    let mut nodes = HashMap::new();
    let mut overlay = Classified::new();
    for (i, &id) in ids.iter().take(650).enumerate() {
        let class = if i < 550 { 1 } else { 4 };
        nodes.insert(id, class);
        overlay.insert_node(id, class);
    }
    overlay.optimize();
    for (i, &id) in ids.iter().skip(650).enumerate() {
        let class = [1, 4, 8][i % 3];
        nodes.insert(id, class);
        overlay.insert_node(id, class);
    }
    for _ in 0..10 {
        let target = keys.next();
        for k in [1, 4, 25] {
            check_classified(&overlay.find(target, k), &nodes, target, k);
        }
    }
    assert_eq!(sorted(overlay.find(0, 1000)), sorted(ids.clone()));
}

#[test]
fn classified_keys_that_collide_under_their_mask() {
    // twenty keys of class 60 compare only four bits, so some agree on them
    let mut overlay = Classified::new();
    let mut nodes = HashMap::new();
    for i in 0..20u64 {
        let id = (i << 32) | (i % 16);
        nodes.insert(id, 60u8);
        overlay.insert_node(id, 60);
    }
    overlay.optimize();
    for target in [0, 3, 0xF, 0xFFFF_FFFF_FFFF_FFF7] {
        for k in [1, 2, 5, 20] {
            check_classified(&overlay.find(target, k), &nodes, target, k);
        }
    }
}

#[test]
fn overlay_dispatches_to_its_kind() {
    let mut bin = BinOverlay::new();
    let mut classified = Classified::new();
    for id in [10u64, 20, 30, 1 << 60] {
        bin.insert_node(id);
        classified.insert_node(id, 0);
    }
    let vanilla = Overlay::Vanilla(bin);
    let classified = Overlay::Classified(classified);
    assert_eq!(sorted(vanilla.find(21, 2)), vec![20, 30]);
    assert_eq!(sorted(classified.find(21, 2)), vec![20, 30]);
    assert_eq!(sorted(vanilla.find(0, 10)), vec![10, 20, 30, 1 << 60]);
}

#[test]
fn free_find_ranks_the_list() {
    let mut ids = vec![0b1000, 0b0001, 0b0110, 0b0011, 0b1111];
    let r = find(&mut ids, 0b0010, 3);
    assert_eq!(r, vec![0b0011, 0b0001, 0b0110]);
    assert_eq!(&ids[..3], &r[..]);
    // the whole list ends up sorted by distance, not only its first entries
    assert_eq!(ids, vec![0b0011, 0b0001, 0b0110, 0b1000, 0b1111]);
    let all = find(&mut ids, 0, 10);
    assert_eq!(all, vec![0b0001, 0b0011, 0b0110, 0b1000, 0b1111]);
    let none = find(&mut ids, 0, 0);
    assert!(none.is_empty());
}

#[test]
fn classified_free_find_uses_each_class() {
    let mut nodes = vec![(0xF000_0000_0000_0001u64, 4u8), (0x0000_0000_0000_0003, 0), (0x8000_0000_0000_0000, 1)];
    let r = classified::find(&mut nodes, 0, 2);
    assert_eq!(r, vec![0x8000_0000_0000_0000, 0xF000_0000_0000_0001]);
    assert_eq!(nodes[2], (0x0000_0000_0000_0003, 0));
    let r = classified::find(&mut nodes, 0, 5);
    assert_eq!(r.len(), 3);
    assert_eq!(r[2], 3);
}

#[test]
fn distances_and_buckets() {
    assert_eq!(distance(0b1100, 0b1010), 0b0110);
    assert_eq!(distance(7, 7), 0);
    assert_eq!(classified::distance(u64::MAX, 0, 0), u64::MAX);
    assert_eq!(classified::distance(u64::MAX, 0, 60), 0xF);
    assert_eq!(classified::distance(0xAAAA_AAAA_AAAA_AAAA, 0, 60), 0xA);
    assert_eq!(classified::distance(0x8000_0000_0000_0001, 1, 1), 0);
    assert_eq!(classified::subnet_index(0xFFE0_0000_0000_0000, 0), 0x7FF);
    assert_eq!(classified::subnet_index(0x0123_4567_89AB_CDEF, 0), 0x009);
    assert_eq!(classified::subnet_index(0x0123_4567_89AB_CDEF, 4), 0x091);
    assert_eq!(classified::subnet_index(0x0000_0000_0000_0001, 63), 0x400);
    assert_eq!(classified::subnet_index(u64::MAX, 60), 0x780);
}

#[test]
fn default_overlays_are_empty() {
    assert!(BinOverlay::default().find(0, 4).is_empty());
    assert!(TrieOverlay::default().find(0, 4).is_empty());
    assert!(Classified::default().find(0, 4).is_empty());
    assert!(TrieOverlay::default().is_compressed());
}

#[test]
fn free_find_sorts_the_whole_list() {
    let mut keys = Keys(31);
    let mut ids = keys.distinct(50);
    let target = keys.next();
    let r = find(&mut ids, target, 1);
    assert_eq!(r.len(), 1);
    for pair in ids.windows(2) {
        assert!(distance(pair[0], target) <= distance(pair[1], target));
    }
}

#[test]
fn lookups_come_back_in_ascending_distance() {
    let mut keys = Keys(37);
    let ids = keys.distinct(700);
    let mut nodes = HashMap::new();
    let mut overlay = Classified::new();
    let mut trie = TrieOverlay::new();
    let mut reversed = TrieOverlay::new();
    for (i, &id) in ids.iter().enumerate() {
        let class = (i % 5) as u8 * 7;
        nodes.insert(id, class);
        overlay.insert_node(id, class);
        trie.insert_node(id);
    }
    for &id in ids.iter().rev() {
        reversed.insert_node(id);
    }
    overlay.optimize();
    let mut compressed = trie.clone();
    compressed.compress();
    for _ in 0..10 {
        let target = keys.next();
        let r = overlay.find(target, 40);
        for pair in r.windows(2) {
            assert!(masked(pair[0], target, nodes[&pair[0]]) <= masked(pair[1], target, nodes[&pair[1]]));
        }
        let t = trie.find(target, 40);
        for pair in t.windows(2) {
            assert!(distance(pair[0], target) < distance(pair[1], target));
        }
        assert_eq!(compressed.find(target, 40), t);
        assert_eq!(reversed.find(target, 40), t);
    }
}
