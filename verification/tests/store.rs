use graph_metrics::store::Network;

#[test]
fn labels_get_nodes_in_the_order_first_seen() {
    let g = Network::build(&vec![(30, 10), (10, 20), (-5, 30)]);
    assert_eq!(g.node_count(), 4);
    assert_eq!(g.edge_count(), 3);
    assert_eq!(g.label(0), 30);
    assert_eq!(g.label(1), 10);
    assert_eq!(g.label(2), 20);
    assert_eq!(g.label(3), -5);
    assert_eq!(g.node_of(30), Some(0));
    assert_eq!(g.node_of(10), Some(1));
    assert_eq!(g.node_of(20), Some(2));
    assert_eq!(g.node_of(-5), Some(3));
    assert_eq!(g.node_of(7), None);
}

#[test]
fn edges_join_the_nodes_of_their_labels() {
    let g = Network::build(&vec![(30, 10), (10, 20), (-5, 30)]);
    assert!(g.contains_edge(0, 1));
    assert!(g.contains_edge(1, 0));
    assert!(g.contains_edge(1, 2));
    assert!(g.contains_edge(3, 0));
    assert!(g.contains_edge(0, 3));
    assert!(!g.contains_edge(0, 2));
    assert!(!g.contains_edge(2, 3));
    assert!(!g.contains_edge(0, 0));
}

#[test]
fn neighbors_come_newest_edge_first_outgoing_before_incoming() {
    let g = Network::build(&vec![(1, 2), (1, 3), (4, 1), (1, 1), (5, 1), (1, 2)]);
    assert_eq!(g.neighbors(0), vec![1, 0, 2, 1, 4, 3]);
    assert_eq!(g.degree(0), 7);
    assert_eq!(g.neighbors(1), vec![0, 0]);
    assert_eq!(g.neighbors(2), vec![0]);
    assert_eq!(g.neighbors(3), vec![0]);
    assert_eq!(g.neighbors(4), vec![0]);
}

#[test]
fn self_loop_is_one_neighbor_entry_and_an_edge() {
    let g = Network::build(&vec![(8, 8)]);
    assert_eq!(g.node_count(), 1);
    assert_eq!(g.edge_count(), 1);
    assert_eq!(g.neighbors(0), vec![0]);
    assert_eq!(g.degree(0), 2);
    assert!(g.contains_edge(0, 0));
}

#[test]
fn built_edge_by_edge_is_built_at_once() {
    let pairs = vec![(4, 2), (2, 9), (9, 4), (4, 4), (1, 9)];
    let whole = Network::build(&pairs);
    let mut grown = Network::new();
    for &(a, b) in &pairs {
        assert!(grown.has_room(a, b));
        grown.add_edge(a, b);
    }
    assert_eq!(grown.node_count(), whole.node_count());
    assert_eq!(grown.edge_count(), whole.edge_count());
    for v in 0..whole.node_count() {
        assert_eq!(grown.label(v), whole.label(v));
        assert_eq!(grown.neighbors(v), whole.neighbors(v));
    }
}

#[test]
fn add_node_is_idempotent_for_a_known_label() {
    let mut g = Network::new();
    assert_eq!(g.add_node(3), 0);
    assert_eq!(g.add_node(5), 1);
    assert_eq!(g.add_node(3), 0);
    assert_eq!(g.node_count(), 2);
    assert_eq!(g.edge_count(), 0);
    assert_eq!(g.neighbors(0), Vec::<usize>::new());
}

#[test]
fn shortest_paths_lists_each_reached_node_once() {
    let g = Network::build(&vec![(1, 2), (2, 3), (1, 3), (3, 4), (5, 6)]);
    let mut found = g.shortest_paths(0);
    found.sort();
    assert_eq!(found, vec![(0, 0), (1, 1), (2, 1), (3, 2)]);
    let mut other = g.shortest_paths(5);
    other.sort();
    assert_eq!(other, vec![(4, 1), (5, 0)]);
}
