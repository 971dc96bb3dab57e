//! Tests of the graph store: construction and breadth-first distances.

use social_similarity::network_graph::SocialNetwork;

fn diamond() -> SocialNetwork {
    // 1 -> 2, 1 -> 3, 2 -> 4, 3 -> 4: node 4 sits at distance two from
    // node 1, reachable along two different paths.
    let mut network = SocialNetwork::new();
    for (from, to) in [(1, 2), (1, 3), (2, 4), (3, 4)] {
        network.add_node(from);
        network.add_node(to);
        network.connect_nodes(from, to);
    }
    network
}

#[test]
fn construction_registers_every_endpoint() {
    let network = diamond();
    assert_eq!(network.adjacency_list.len(), 4);
    assert_eq!(network.adjacency_list.get(&1), Some(&vec![2, 3]));
    assert_eq!(network.adjacency_list.get(&4), Some(&vec![]));
}

#[test]
fn add_node_is_idempotent() {
    let mut network = SocialNetwork::new();
    network.add_node(7);
    network.add_node(7);
    assert_eq!(network.adjacency_list.len(), 1);
    assert_eq!(network.adjacency_list.get(&7), Some(&vec![]));
}

#[test]
fn connect_keeps_duplicate_and_self_edges() {
    let mut network = SocialNetwork::new();
    network.add_node(1);
    network.add_node(2);
    network.connect_nodes(1, 2);
    network.connect_nodes(1, 2);
    network.connect_nodes(2, 2);
    assert_eq!(network.adjacency_list.get(&1), Some(&vec![2, 2]));
    assert_eq!(network.adjacency_list.get(&2), Some(&vec![2]));
}

#[test]
fn bfs_start_at_distance_zero_and_hops_minimal() {
    let network = diamond();
    let distances = network.bfs_path_lengths(1);
    assert_eq!(distances.get(&1), Some(&0));
    assert_eq!(distances.get(&2), Some(&1));
    assert_eq!(distances.get(&3), Some(&1));
    // Two paths of length two; the recorded distance is the minimum.
    assert_eq!(distances.get(&4), Some(&2));
    assert_eq!(distances.len(), 4);
}

#[test]
fn bfs_takes_shortcut_over_longer_path() {
    // 1 -> 2 -> 3 -> 4 and a direct edge 1 -> 4.
    let mut network = SocialNetwork::new();
    for (from, to) in [(1, 2), (2, 3), (3, 4), (1, 4)] {
        network.add_node(from);
        network.add_node(to);
        network.connect_nodes(from, to);
    }
    let distances = network.bfs_path_lengths(1);
    assert_eq!(distances.get(&4), Some(&1));
    assert_eq!(distances.get(&3), Some(&2));
}

#[test]
fn bfs_unreachable_nodes_are_absent() {
    let network = diamond();
    // Node 4 has no outgoing edges: nothing else is reachable from it.
    let distances = network.bfs_path_lengths(4);
    assert_eq!(distances.len(), 1);
    assert_eq!(distances.get(&4), Some(&0));
    assert_eq!(distances.get(&1), None);
    assert_eq!(distances.get(&2), None);
    assert_eq!(distances.get(&3), None);
}

#[test]
fn bfs_unknown_start_yields_single_entry() {
    let network = diamond();
    let distances = network.bfs_path_lengths(99);
    assert_eq!(distances.len(), 1);
    assert_eq!(distances.get(&99), Some(&0));
}
