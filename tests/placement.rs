use std::collections::HashMap;

use storage_simulation::placement::{
    ingest_with_eviction, ingest_with_rejection, place_two_choices, Node,
};

fn node(capacity: usize, data: &[u64]) -> Node {
    Node {
        capacity,
        data: data.to_vec(),
    }
}

#[test]
fn available_capacity_is_room_left() {
    assert_eq!(node(5, &[1, 2]).available_capacity(), 3);
    assert_eq!(node(2, &[1, 2]).available_capacity(), 0);
    assert_eq!(node(4, &[]).available_capacity(), 4);
}

#[test]
fn rejection_stores_everywhere_or_nowhere() {
    let mut nodes = HashMap::new();
    nodes.insert(1, node(2, &[100]));
    nodes.insert(2, node(1, &[]));
    nodes.insert(3, node(1, &[101]));
    assert!(ingest_with_rejection(&mut nodes, 7, &[1, 2]));
    assert_eq!(nodes[&1].data, vec![100, 7]);
    assert_eq!(nodes[&2].data, vec![7]);
    assert_eq!(nodes[&3].data, vec![101]);
    // node 1 is full now
    assert!(!ingest_with_rejection(&mut nodes, 8, &[3, 1]));
    assert_eq!(nodes[&1].data, vec![100, 7]);
    assert_eq!(nodes[&3].data, vec![101]);
    assert!(ingest_with_rejection(&mut nodes, 9, &[]));
}

#[test]
fn eviction_counts_evictions_and_losses() {
    let mut nodes = HashMap::new();
    nodes.insert(1, node(1, &[50]));
    nodes.insert(2, node(2, &[50, 60]));
    nodes.insert(3, node(3, &[60]));
    let mut copy_counts = HashMap::new();
    copy_counts.insert(50u64, 2u8);
    copy_counts.insert(60u64, 2u8);
    // node 1 gives up 50, node 2 gives up its second copy of 50, node 3 has room
    let (evicted, lost) = ingest_with_eviction(&mut nodes, &mut copy_counts, 70, &[1, 2, 3], &[0, 0, 0]);
    assert_eq!((evicted, lost), (2, 1));
    assert_eq!(nodes[&1].data, vec![70]);
    assert_eq!(nodes[&2].data, vec![70, 60]);
    assert_eq!(nodes[&3].data, vec![60, 70]);
    assert_eq!(copy_counts[&50], 0);
    assert_eq!(copy_counts[&60], 2);
    assert_eq!(copy_counts[&70], 3);
    // evicting one of the two copies of 60 loses nothing
    let (evicted, lost) = ingest_with_eviction(&mut nodes, &mut copy_counts, 80, &[2], &[1]);
    assert_eq!((evicted, lost), (1, 0));
    assert_eq!(nodes[&2].data, vec![70, 80]);
    assert_eq!(copy_counts[&60], 1);
    assert_eq!(copy_counts[&80], 1);
}

#[test]
fn two_choices_prefers_more_room() {
    let mut nodes = HashMap::new();
    nodes.insert(1, node(10, &[1, 2, 3]));
    nodes.insert(2, node(10, &[]));
    nodes.insert(3, node(4, &[1, 2, 3]));
    nodes.insert(4, node(8, &[]));
    // least room: first choice 7 (node 1), second choice 1 (node 3)
    assert_eq!(place_two_choices(&nodes, 100, vec![1, 2], 200, vec![3, 4]), (100, vec![1, 2]));
    // equal least room keeps the second
    assert_eq!(place_two_choices(&nodes, 100, vec![3], 200, vec![3, 4]), (200, vec![3, 4]));
    // an empty choice ranks below any other
    assert_eq!(place_two_choices(&nodes, 100, vec![], 200, vec![3]), (200, vec![3]));
    assert_eq!(place_two_choices(&nodes, 100, vec![3], 200, vec![]), (100, vec![3]));
}

#[test]
fn rejection_stores_once_per_occurrence() {
    let mut nodes = HashMap::new();
    nodes.insert(1, node(3, &[]));
    nodes.insert(2, node(1, &[]));
    assert!(ingest_with_rejection(&mut nodes, 9, &[1, 2, 1]));
    assert_eq!(nodes[&1].data, vec![9, 9]);
    assert_eq!(nodes[&2].data, vec![9]);
}
