use graph_metrics::degrees::degrees;
use graph_metrics::profile::{centrality_points, degree_distribution, max_degree};
use graph_metrics::store::Network;

#[test]
fn degree_distribution_counts_the_nodes_of_each_degree() {
    let g = Network::build(&vec![(1, 2), (1, 3), (1, 4), (2, 3)]);
    assert_eq!(degrees(&g), vec![(0, 3), (1, 2), (2, 2), (3, 1)]);
    assert_eq!(max_degree(&g), 3);
    assert_eq!(degree_distribution(&g), vec![0, 1, 2, 1]);
}

#[test]
fn degree_distribution_of_nothing_is_one_zero() {
    let g = Network::new();
    assert_eq!(max_degree(&g), 0);
    assert_eq!(degree_distribution(&g), vec![0]);
    assert_eq!(centrality_points(&g), Vec::<(u64, u64)>::new());
}

#[test]
fn degree_distribution_counts_isolated_nodes_at_zero() {
    let mut g = Network::build(&vec![(1, 2)]);
    g.add_node(3);
    g.add_node(4);
    assert_eq!(max_degree(&g), 1);
    assert_eq!(degree_distribution(&g), vec![2, 2]);
}

#[test]
fn centrality_points_scale_index_and_degree_by_ten() {
    let g = Network::build(&vec![(1, 2), (1, 3), (1, 4), (2, 3)]);
    assert_eq!(centrality_points(&g), vec![(0, 30), (10, 20), (20, 20), (30, 10)]);
}

#[test]
fn self_loop_counts_twice_in_the_degree_distribution() {
    let g = Network::build(&vec![(1, 1), (1, 2)]);
    assert_eq!(degrees(&g), vec![(0, 3), (1, 1)]);
    assert_eq!(max_degree(&g), 3);
    assert_eq!(degree_distribution(&g), vec![0, 1, 0, 1]);
    assert_eq!(centrality_points(&g), vec![(0, 30), (10, 10)]);
}
